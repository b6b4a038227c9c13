use merkle_tree::decimal::parse_decimal;
use merkle_tree::{find_divergence, hash, hash_two, Child, FetchError, MerkleTree, Value, Walk, WalkStep};

fn tree_of(keys: &[u64]) -> MerkleTree<u64> {
    let mut tree = MerkleTree::new();
    for k in keys {
        tree.insert(*k, *k);
    }
    tree
}

fn root_digest(tree: &MerkleTree<u64>) -> Option<u64> {
    tree.root_hash()
}

#[test]
fn insert_in_any_order_sorts_leaves() {
    let tree = tree_of(&[5, 1, 9, 3, 7, 0, 8, 2, 6, 4]);
    let keys: Vec<u64> = tree.data.iter().map(|l| l.key).collect();
    assert_eq!(keys, vec![0, 1, 2, 3, 4, 5, 6, 7, 8, 9]);
    for leaf in &tree.data {
        assert_eq!(leaf.value, leaf.key);
        assert_eq!(leaf.hash, hash(&leaf.key));
    }
}

#[test]
fn insert_before_existing_keys_rebuilds_arena() {
    let shuffled = tree_of(&[3, 1, 2, 0]);
    let ascending = tree_of(&[0, 1, 2, 3]);
    assert_eq!(shuffled.hashes, ascending.hashes);
    assert_eq!(shuffled.root, ascending.root);
}

#[test]
fn same_key_set_in_other_order_gives_same_root() {
    let a = tree_of(&[0, 1, 2, 3, 4, 5, 6, 7, 8, 9, 10]);
    let b = tree_of(&[10, 4, 7, 0, 2, 9, 1, 3, 8, 6, 5]);
    assert_eq!(root_digest(&a), root_digest(&b));
    assert_eq!(a.hashes, b.hashes);
}

#[test]
fn one_key_more_changes_root() {
    let a = tree_of(&[0, 1, 2, 3, 4, 5]);
    let b = tree_of(&[0, 1, 2, 3, 4, 5, 6]);
    assert_ne!(root_digest(&a), root_digest(&b));
}

#[test]
fn root_hash_of_lone_leaf_is_key_digest() {
    let tree = tree_of(&[42]);
    assert_eq!(root_digest(&tree), Some(hash(&42)));
    assert_ne!(hash(&42), 42);
}

#[test]
fn root_hash_of_three_leaves() {
    let tree = tree_of(&[1, 2, 3]);
    assert_eq!(
        root_digest(&tree),
        Some(hash_two(&hash_two(&hash(&1), &hash(&2)), &hash(&3)))
    );
    assert_ne!(hash_two(&1, &2), hash_two(&2, &1));
}

#[test]
fn empty_tree_has_no_root_hash() {
    let tree: MerkleTree<u64> = MerkleTree::new();
    assert_eq!(tree.root_hash(), None);
    let walk = find_divergence(&tree, &tree);
    assert_eq!(walk.fetches, 0);
    assert!(walk.candidates.is_empty());
}

#[test]
fn left_and_right_of_out_of_range_are_absent() {
    let tree = tree_of(&[0, 1, 2, 3, 4]);
    assert_eq!(tree.left_of(4), None);
    assert_eq!(tree.right_of(4), None);
    assert_eq!(tree.left_of(usize::MAX), None);
    assert_eq!(tree.right_of(usize::MAX), None);
    let lone = tree_of(&[7]);
    assert_eq!(lone.left_of(0), Some(&Child::Value(0)));
    assert_eq!(lone.right_of(0), None);
}

#[test]
fn hash_and_value_reads_report_out_of_range() {
    let tree = tree_of(&[0, 1, 2]);
    assert_eq!(tree.hash_at(1), Ok(tree.hashes[1].hash));
    assert_eq!(tree.hash_at(2), Err(FetchError::OutOfRange));
    assert_eq!(tree.value_at(2), Ok(&2));
    assert_eq!(tree.value_at(3), Err(FetchError::OutOfRange));
}

#[test]
fn identical_trees_need_one_read() {
    let a = tree_of(&[0, 1, 2, 3, 4, 5, 6, 7]);
    let b = tree_of(&[7, 6, 5, 4, 3, 2, 1, 0]);
    let walk = find_divergence(&a, &b);
    assert_eq!(walk.fetches, 1);
    assert!(walk.candidates.is_empty());
    assert!(!walk.inconclusive);
}

#[test]
fn substituted_leaf_is_reported() {
    let a = tree_of(&[0, 1, 2, 3, 4, 5, 6, 7, 8, 9, 10, 11, 12, 13, 14, 15]);
    let b = tree_of(&[0, 1, 2, 3, 4, 5, 6, 7, 8, 9, 10, 11, 12, 13, 14, 100]);
    let walk = find_divergence(&a, &b);
    assert!(walk.candidates.contains(&15));
    assert!(!walk.inconclusive);
    assert!(walk.fetches <= 9);
    let c = tree_of(&[0, 1, 2, 3, 4, 50, 6, 7, 8, 9, 10, 11, 12, 13, 14, 15]);
    let walk = find_divergence(&a, &c);
    assert!(walk.candidates.contains(&5));
}

#[test]
fn missing_key_four_is_reported() {
    let a = tree_of(&[0, 1, 2, 3, 4, 5, 6, 7]);
    let b = tree_of(&[0, 1, 2, 3, 5, 6, 7]);
    let walk = find_divergence(&a, &b);
    assert_eq!(walk.candidates, vec![4, 5]);
    assert_eq!(a.data[walk.candidates[0]].key, 4);
    assert_eq!(walk.fetches, 5);
    assert!(walk.inconclusive);
    assert!(walk.stack.is_empty());
}

#[test]
fn walk_steps_by_hand() {
    let a = tree_of(&[0, 1, 2]);
    let mut walk = Walk::start(&a);
    assert_eq!(walk.next_step(), WalkStep::FetchHash(1));
    walk.on_hash(&a, Ok(0));
    assert_eq!(walk.stack, vec![0]);
    assert_eq!(walk.candidates, vec![2]);
    assert_eq!(walk.next_step(), WalkStep::FetchHash(0));
    walk.on_hash(&a, Err(FetchError::NetworkFailure));
    assert!(walk.inconclusive);
    assert_eq!(walk.next_step(), WalkStep::Done);
    assert_eq!(walk.fetches, 2);
}

#[test]
fn walk_skips_matching_subtree() {
    let a = tree_of(&[0, 1, 2]);
    let mut walk = Walk::start(&a);
    walk.on_hash(&a, Ok(a.hashes[1].hash));
    assert_eq!(walk.next_step(), WalkStep::Done);
    assert!(walk.candidates.is_empty());
    assert!(!walk.inconclusive);
    let mut other = Walk::start(&a);
    other.on_hash(&a, Err(FetchError::MalformedResponse));
    assert!(other.inconclusive);
}

#[test]
fn leaf_constructor_hashes_key() {
    let leaf = Value::with(9, "nine");
    assert_eq!(leaf.hash, hash(&9));
    assert_eq!(leaf.key, 9);
    assert_eq!(leaf.value, "nine");
    assert!(Child::Value(3).is_value());
    assert!(!Child::Node(3).is_value());
    assert!(!Child::Empty.is_value());
}

#[test]
fn replies_parse_as_decimal() {
    assert_eq!(parse_decimal(b"123", u64::MAX), Ok(123));
    assert_eq!(parse_decimal(b"+7", u64::MAX), Ok(7));
    assert_eq!(parse_decimal(b"18446744073709551615", u64::MAX), Ok(u64::MAX));
    assert_eq!(parse_decimal(b"18446744073709551616", u64::MAX), Err(FetchError::MalformedResponse));
    assert_eq!(parse_decimal(b"65535", 65535), Ok(65535));
    assert_eq!(parse_decimal(b"70000", 65535), Err(FetchError::MalformedResponse));
    assert_eq!(parse_decimal(b"", u64::MAX), Err(FetchError::MalformedResponse));
    assert_eq!(parse_decimal(b"+", u64::MAX), Err(FetchError::MalformedResponse));
    assert_eq!(parse_decimal(b"12a", u64::MAX), Err(FetchError::MalformedResponse));
    assert_eq!(parse_decimal(b"-1", u64::MAX), Err(FetchError::MalformedResponse));
}
