use merkle_tree::{hash, hash_two, search_index, Child, MerkleTree, Node, Value};

#[derive(Clone, PartialEq, Eq, Hash, Debug)]
struct TestValue {
    data1: String,
    data2: u64,
    data3: Vec<bool>,
}

#[test]
fn lib_should_insert_complex_types() {
    let mut tree = MerkleTree::new();
    let value = TestValue {
        data1: "test".to_owned(),
        data2: 1,
        data3: vec![true, false],
    };
    tree.insert(0, value.clone());
    assert_eq!(tree.data[0].key, 0);
    assert_eq!(tree.data[0].value, value);
    assert_eq!(
        tree.hashes[0],
        Node {
            hash: hash(&0),
            left: Child::Value(0),
            right: Child::Empty
        }
    );
}

#[test]
fn lib_should_insert_nodes_and_calculate_hashes_correctly() {
    let mut tree = MerkleTree::new();
    tree.insert(0, "value 0");
    tree.insert(1, "value 1");
    assert_eq!(
        tree.data,
        vec![Value::with(0, "value 0"), Value::with(1, "value 1")]
    );
    assert_eq!(
        tree.hashes,
        vec![Node {
            hash: hash_two(&hash(&0), &hash(&1)),
            left: Child::Value(0),
            right: Child::Value(1)
        },]
    );

    tree.insert(2, "value 2");
    assert_eq!(
        tree.data,
        vec![
            Value::with(0, "value 0"),
            Value::with(1, "value 1"),
            Value::with(2, "value 2")
        ]
    );
    assert_eq!(
        tree.hashes,
        vec![
            Node {
                hash: hash_two(&hash(&0), &hash(&1)),
                left: Child::Value(0),
                right: Child::Value(1)
            },
            Node {
                hash: hash_two(&hash_two(&hash(&0), &hash(&1)), &hash(&2)),
                left: Child::Node(0),
                right: Child::Value(2)
            },
        ]
    );

    tree.insert(3, "value 3");
    assert_eq!(
        tree.data,
        vec![
            Value::with(0, "value 0"),
            Value::with(1, "value 1"),
            Value::with(2, "value 2"),
            Value::with(3, "value 3")
        ]
    );
    assert_eq!(
        tree.hashes,
        vec![
            Node {
                hash: hash_two(&hash(&0), &hash(&1)),
                left: Child::Value(0),
                right: Child::Value(1)
            },
            Node {
                hash: hash_two(
                    &hash_two(&hash(&0), &hash(&1)),
                    &hash_two(&hash(&2), &hash(&3))
                ),
                left: Child::Node(0),
                right: Child::Node(2)
            },
            Node {
                hash: hash_two(&hash(&2), &hash(&3)),
                left: Child::Value(2),
                right: Child::Value(3)
            },
        ]
    );

    tree.insert(4, "value 4");
    assert_eq!(
        tree.data,
        vec![
            Value::with(0, "value 0"),
            Value::with(1, "value 1"),
            Value::with(2, "value 2"),
            Value::with(3, "value 3"),
            Value::with(4, "value 4")
        ]
    );
    assert_eq!(
        tree.hashes,
        vec![
            Node {
                hash: hash_two(&hash(&0), &hash(&1)),
                left: Child::Value(0),
                right: Child::Value(1)
            },
            Node {
                hash: hash_two(
                    &hash_two(&hash(&0), &hash(&1)),
                    &hash_two(&hash(&2), &hash(&3))
                ),
                left: Child::Node(0),
                right: Child::Node(2)
            },
            Node {
                hash: hash_two(&hash(&2), &hash(&3)),
                left: Child::Value(2),
                right: Child::Value(3)
            },
            Node {
                hash: hash_two(
                    &hash_two(
                        &hash_two(&hash(&0), &hash(&1)),
                        &hash_two(&hash(&2), &hash(&3))
                    ),
                    &hash(&4)
                ),
                left: Child::Node(1),
                right: Child::Value(4),
            },
        ]
    );

    tree.insert(5, "value 5");
    assert_eq!(
        tree.data,
        vec![
            Value::with(0, "value 0"),
            Value::with(1, "value 1"),
            Value::with(2, "value 2"),
            Value::with(3, "value 3"),
            Value::with(4, "value 4"),
            Value::with(5, "value 5"),
        ]
    );
    assert_eq!(
        tree.hashes,
        vec![
            Node {
                hash: hash_two(&hash(&0), &hash(&1)),
                left: Child::Value(0),
                right: Child::Value(1)
            },
            Node {
                hash: hash_two(
                    &hash_two(&hash(&0), &hash(&1)),
                    &hash_two(&hash(&2), &hash(&3))
                ),
                left: Child::Node(0),
                right: Child::Node(2)
            },
            Node {
                hash: hash_two(&hash(&2), &hash(&3)),
                left: Child::Value(2),
                right: Child::Value(3)
            },
            Node {
                hash: hash_two(
                    &hash_two(
                        &hash_two(&hash(&0), &hash(&1)),
                        &hash_two(&hash(&2), &hash(&3))
                    ),
                    &hash_two(&hash(&4), &hash(&5))
                ),
                left: Child::Node(1),
                right: Child::Node(4),
            },
            Node {
                hash: hash_two(&hash(&4), &hash(&5)),
                left: Child::Value(4),
                right: Child::Value(5),
            },
        ]
    );

    tree.insert(6, "value 6");
    assert_eq!(
        tree.data,
        vec![
            Value::with(0, "value 0"),
            Value::with(1, "value 1"),
            Value::with(2, "value 2"),
            Value::with(3, "value 3"),
            Value::with(4, "value 4"),
            Value::with(5, "value 5"),
            Value::with(6, "value 6"),
        ]
    );
    assert_eq!(
        tree.hashes,
        vec![
            Node {
                hash: hash_two(&hash(&0), &hash(&1)),
                left: Child::Value(0),
                right: Child::Value(1)
            },
            Node {
                hash: hash_two(
                    &hash_two(&hash(&0), &hash(&1)),
                    &hash_two(&hash(&2), &hash(&3))
                ),
                left: Child::Node(0),
                right: Child::Node(2)
            },
            Node {
                hash: hash_two(&hash(&2), &hash(&3)),
                left: Child::Value(2),
                right: Child::Value(3)
            },
            Node {
                hash: hash_two(
                    &hash_two(
                        &hash_two(&hash(&0), &hash(&1)),
                        &hash_two(&hash(&2), &hash(&3))
                    ),
                    &hash_two(&hash_two(&hash(&4), &hash(&5)), &hash(&6))
                ),
                left: Child::Node(1),
                right: Child::Node(5),
            },
            Node {
                hash: hash_two(&hash(&4), &hash(&5)),
                left: Child::Value(4),
                right: Child::Value(5),
            },
            Node {
                hash: hash_two(&hash_two(&hash(&4), &hash(&5)), &hash(&6)),
                left: Child::Node(4),
                right: Child::Value(6),
            },
        ]
    );

    tree.insert(7, "value 7");
    assert_eq!(
        tree.data,
        vec![
            Value::with(0, "value 0"),
            Value::with(1, "value 1"),
            Value::with(2, "value 2"),
            Value::with(3, "value 3"),
            Value::with(4, "value 4"),
            Value::with(5, "value 5"),
            Value::with(6, "value 6"),
            Value::with(7, "value 7"),
        ]
    );
    assert_eq!(
        tree.hashes,
        vec![
            Node {
                hash: hash_two(&hash(&0), &hash(&1)),
                left: Child::Value(0),
                right: Child::Value(1)
            },
            Node {
                hash: hash_two(
                    &hash_two(&hash(&0), &hash(&1)),
                    &hash_two(&hash(&2), &hash(&3))
                ),
                left: Child::Node(0),
                right: Child::Node(2)
            },
            Node {
                hash: hash_two(&hash(&2), &hash(&3)),
                left: Child::Value(2),
                right: Child::Value(3)
            },
            Node {
                hash: hash_two(
                    &hash_two(
                        &hash_two(&hash(&0), &hash(&1)),
                        &hash_two(&hash(&2), &hash(&3))
                    ),
                    &hash_two(
                        &hash_two(&hash(&4), &hash(&5)),
                        &hash_two(&hash(&6), &hash(&7))
                    )
                ),
                left: Child::Node(1),
                right: Child::Node(5),
            },
            Node {
                hash: hash_two(&hash(&4), &hash(&5)),
                left: Child::Value(4),
                right: Child::Value(5),
            },
            Node {
                hash: hash_two(
                    &hash_two(&hash(&4), &hash(&5)),
                    &hash_two(&hash(&6), &hash(&7))
                ),
                left: Child::Node(4),
                right: Child::Node(6),
            },
            Node {
                hash: hash_two(&hash(&6), &hash(&7)),
                left: Child::Value(6),
                right: Child::Value(7),
            },
        ]
    );
}

#[test]
fn lib_should_search_index() {
    let data = vec![
        Value {
            hash: hash(&0),
            key: 0,
            value: "test",
        },
        Value {
            hash: hash(&1),
            key: 1,
            value: "test",
        },
        Value {
            hash: hash(&3),
            key: 3,
            value: "test",
        },
        Value {
            hash: hash(&4),
            key: 4,
            value: "test",
        },
    ];
    assert_eq!(search_index(&data, &3), 2);
    assert_eq!(search_index(&data, &2), 2);
}

#[test]
fn lib_should_search_with_single_element() {
    let data = vec![Value {
        hash: hash(&0),
        key: 0,
        value: "test",
    }];
    assert_eq!(search_index(&data, &1), 1);
}

#[test]
fn should_calculate_root_position() {
    let mut tree = MerkleTree::new();
    tree.insert(0, "value 0");
    assert_eq!(tree.root, 0);
    tree.insert(1, "value 1");
    tree.insert(2, "value 2");
    assert_eq!(tree.root, 1);
    tree.insert(3, "value 3");
    tree.insert(4, "value 4");
    assert_eq!(tree.root, 3);
    tree.insert(5, "value 5");
    tree.insert(6, "value 6");
    tree.insert(7, "value 7");
    tree.insert(8, "value 8");
    assert_eq!(tree.root, 7);
    tree.insert(9, "value 9");
    tree.insert(10, "value 10");
    tree.insert(11, "value 11");
    tree.insert(12, "value 12");
    tree.insert(13, "value 13");
    tree.insert(14, "value 14");
    tree.insert(15, "value 15");
    tree.insert(16, "value 16");
    assert_eq!(tree.root, 15);
}

#[test]
fn should_calculate_left_right_nodes() {
    let mut tree = MerkleTree::new();
    tree.insert(0, "value 0");
    tree.insert(1, "value 1");
    tree.insert(2, "value 2");
    tree.insert(3, "value 3");
    tree.insert(4, "value 4");
    tree.insert(5, "value 5");
    tree.insert(6, "value 6");
    tree.insert(7, "value 7");
    tree.insert(8, "value 8");
    assert_eq!(tree.left_of(1), Some(&Child::Node(0)));
    assert_eq!(tree.right_of(1), Some(&Child::Node(2)));
    assert_eq!(tree.left_of(7), Some(&Child::Node(3)));
    assert_eq!(tree.right_of(7), Some(&Child::Value(8)));
}

#[test]
fn should_calculate_root_hash() {
    for v in 0..16 {
        let mut tree_1 = MerkleTree::new();
        for i in 0..16 {
            tree_1.insert(i, v);
        }

        let mut tree_2 = MerkleTree::new();
        for i in 0..16 {
            if i != 11 {
                tree_2.insert(i, i);
            }
        }
        assert_ne!(
            tree_1.hashes[tree_1.root].hash,
            tree_2.hashes[tree_2.root].hash
        );
    }
}

#[test]
fn should_calculate_hashes_for_entire_tree() {
    let mut tree_1 = MerkleTree::new();
    for i in 0..16 {
        if i != 4 {
            tree_1.insert(i, i);
        }
    }

    let mut tree_2 = MerkleTree::new();
    for i in 0..16 {
        tree_2.insert(i, i);
    }
    assert_eq!(tree_1.hashes.len(), 14);
    assert_eq!(tree_2.hashes.len(), 15);
    for i in 0..15 {
        if i == 14 {
            break;
        }
        let v1 = &tree_1.hashes[i];
        let v2 = &tree_2.hashes[i];
        if i < 3 {
            assert_eq!(v1.hash, v2.hash);
        } else {
            assert_ne!(v1.hash, v2.hash);
        }
    }
}

#[test]
fn should_search_index() {
    let data = vec![
        Value::with(0, "test"),
        Value::with(1, "test"),
        Value::with(3, "test"),
        Value::with(4, "test"),
    ];
    assert_eq!(search_index(&data, &3), 2);
    assert_eq!(search_index(&data, &2), 2);
}

#[test]
fn should_search_with_single_element() {
    let data = vec![Value::with(0, "test")];
    assert_eq!(search_index(&data, &1), 1);
}
