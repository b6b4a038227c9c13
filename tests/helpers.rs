use merkle_tree::index::{highest_power_of_2, node_level};
use merkle_tree::{AdjacencyMatrix, MerkleTree, StableBinaryTree, VectorClock};
use std::cmp::Ordering;

#[test]
fn should_merge_vector_clocks() {
    let mut v1 = VectorClock::new(5);
    let mut v2 = VectorClock::new(5);

    v1.increment(1);
    v1.increment(1);
    v1.increment(2);

    v2.increment(1);
    v2.increment(2);
    v2.increment(3);

    v1.merge(&v2);
    assert_eq!(v1.nodes, vec![0, 2, 1, 1, 0]);
}

#[test]
fn should_compare_vector_clocks() {
    let mut v1 = VectorClock::new(5);
    let mut v2 = VectorClock::new(5);

    v1.increment(1);
    v1.increment(2);
    v1.increment(3);

    v2.increment(1);
    v2.increment(1);
    v2.increment(2);
    v2.increment(3);

    assert!(v1 < v2);
    assert!(v2 > v1);

    let mut v1 = VectorClock::new(5);
    let mut v2 = VectorClock::new(5);

    v1.increment(1);
    v1.increment(2);
    v1.increment(3);

    v2.increment(1);
    v2.increment(2);
    v2.increment(3);
    assert_eq!(v1, v2);
}

#[test]
fn should_not_compare_concurrent_vector_clocks() {
    let mut v1 = VectorClock::new(5);
    let mut v2 = VectorClock::new(5);

    v1.increment(1);
    v1.increment(2);
    v1.increment(3);
    v1.increment(4);

    v2.increment(1);
    v2.increment(1);
    v2.increment(2);
    v2.increment(3);

    assert_eq!(v1.partial_cmp(&v2), None);
}

#[test]
fn should_sort_casuality() {
    let mut v1 = VectorClock::new(5);
    v1.increment(0);

    let mut v2 = VectorClock::new(5);
    v2.increment(0);
    v2.increment(1);

    let mut v3 = VectorClock::new(5);
    v3.increment(0);
    v3.increment(3);

    let mut vec = vec![v3.clone(), v2.clone(), v1.clone()];
    vec.sort_unstable_by(|a, b| {
        if let Some(o) = a.partial_cmp(b) {
            o
        } else {
            Ordering::Equal
        }
    });

    assert_eq!(vec, vec![v1, v3, v2]);
}

#[test]
fn clocks_of_different_lengths_are_incomparable() {
    let v1 = VectorClock::new(2);
    let v2 = VectorClock::new(3);
    assert_eq!(v1.partial_cmp(&v2), None);
    assert_ne!(v1, v2);
}

#[test]
fn adjacency_matrix_cells() {
    let mut m = AdjacencyMatrix::with_dimension(3);
    assert_eq!(m.len(), 6);
    assert!(!m.is_empty());
    assert_eq!(m.calculate_index(0, 0), 0);
    assert_eq!(m.calculate_index(0, 1), 1);
    assert_eq!(m.calculate_index(1, 1), 2);
    assert_eq!(m.calculate_index(2, 1), 4);
    assert_eq!(m.calculate_index(1, 2), 4);
    assert_eq!(m.get_value(2, 1), Some(&false));
    m.set_value(1, 2, true);
    assert_eq!(m.get_value(2, 1), Some(&true));
    if let Some(cell) = m.get_value_mut(0, 0) {
        *cell = true;
    }
    assert_eq!(m.get_value(0, 0), Some(&true));
    assert_eq!(m.get_value(3, 3), None);
    assert_eq!(m.get_value_mut(3, 3), None);
    assert!(m.check_boundaries(6, 0));
    assert!(!m.check_boundaries(7, 0));
    let empty = AdjacencyMatrix::with_dimension(0);
    assert!(empty.is_empty());
    assert_eq!(empty.len(), 0);
}

#[test]
fn stable_binary_tree_starts_empty() {
    let _tree: StableBinaryTree<u32> = StableBinaryTree::with_capacity(4);
}

#[test]
fn index_arithmetic() {
    assert_eq!(highest_power_of_2(0), 0);
    assert_eq!(highest_power_of_2(1), 1);
    assert_eq!(highest_power_of_2(7), 4);
    assert_eq!(highest_power_of_2(16), 16);
    assert_eq!(node_level(0), 0);
    assert_eq!(node_level(1), 1);
    assert_eq!(node_level(3), 2);
    assert_eq!(node_level(5), 1);
    assert_eq!(node_level(7), 3);
    assert_eq!(MerkleTree::<u64>::left_node_index(0), 0);
    assert_eq!(MerkleTree::<u64>::left_node_index(1), 0);
    assert_eq!(MerkleTree::<u64>::left_node_index(3), 1);
    assert_eq!(MerkleTree::<u64>::left_node_index(7), 3);
    assert_eq!(MerkleTree::<u64>::left_node_index(11), 9);
}
