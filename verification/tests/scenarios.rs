//! Scenario tests: deterministic keys through `insert_with_key`, node
//! splitting and promotion, underflow resolution by merging, root
//! collapse, and the laws relating insert, update, delete and get.

use minidb_engine::BPlusTree;
use minidb_engine::KeySize;
use minidb_engine::Node;
use minidb_engine::TreeError;

fn empty_tree(min_elements: usize, order: usize) -> BPlusTree<String> {
    BPlusTree::create(min_elements, order).unwrap()
}

#[test]
fn test_split_promotes_middle_key() {
    // order 3, min 1: the fourth insert overflows the root leaf, which
    // splits at ceil(3/2) = 2 and promotes the smallest key of the new
    // sibling into a brand-new internal root.
    let mut tree = empty_tree(1, 3);
    tree.insert_with_key(5, "a".to_string());
    tree.insert_with_key(15, "b".to_string());
    tree.insert_with_key(25, "c".to_string());
    tree.insert_with_key(35, "d".to_string());

    match &tree.root {
        Node::Internal(nd) => {
            assert_eq!(nd.keys, vec![25]);
            assert_eq!(nd.children.len(), 2);
            match (&*nd.children[0], &*nd.children[1]) {
                (Node::Leaf(left), Node::Leaf(right)) => {
                    assert_eq!(left.keys, vec![5, 15]);
                    assert_eq!(right.keys, vec![25, 35]);
                }
                _ => panic!("children of the split root must be leaves"),
            }
        }
        Node::Leaf(_) => panic!("root must be internal after the split"),
    }
}

#[test]
fn test_underflow_merge_collapses_root() {
    // continuing the split scenario: deleting 25 leaves the right leaf
    // with one key (fine at min 1); deleting 35 empties it, which forces a
    // merge with the left leaf and collapses the root back to one leaf.
    let mut tree = empty_tree(1, 3);
    tree.insert_with_key(5, "a".to_string());
    tree.insert_with_key(15, "b".to_string());
    tree.insert_with_key(25, "c".to_string());
    tree.insert_with_key(35, "d".to_string());

    tree.delete_value(25);
    match &tree.root {
        Node::Internal(nd) => {
            assert_eq!(nd.children.len(), 2);
            match &*nd.children[1] {
                Node::Leaf(right) => assert_eq!(right.keys, vec![35]),
                Node::Internal(_) => panic!("right child must be a leaf"),
            }
        }
        Node::Leaf(_) => panic!("root must still be internal"),
    }

    tree.delete_value(35);
    match &tree.root {
        Node::Leaf(leaf) => {
            assert_eq!(leaf.keys, vec![5, 15]);
            assert_eq!(
                leaf.values,
                vec!["a".to_string(), "b".to_string()]
            );
        }
        Node::Internal(_) => panic!("root must collapse back to a single leaf"),
    }
}

#[test]
fn test_get_on_empty_tree_is_absent() {
    let tree = empty_tree(1, 2);
    assert!(tree.get(0).is_none());
    assert!(tree.get(7).is_none());
    assert!(tree.get(KeySize::MAX).is_none());
}

#[test]
fn test_insert_then_get_round_trip() {
    let mut tree = empty_tree(1, 2);
    let keys: Vec<KeySize> = vec![8, 3, 11, 1, 6, 14, 4, 9, 2, 13];
    for k in &keys {
        tree.insert_with_key(*k, format!("v{}", k));
    }
    for k in &keys {
        assert_eq!(tree.get(*k), Some(&format!("v{}", k)));
    }
}

#[test]
fn test_delete_then_get_is_absent() {
    let mut tree = empty_tree(1, 2);
    for k in 1..=12u32 {
        tree.insert_with_key(k, format!("v{}", k));
    }
    for k in [4u32, 8, 1, 12, 6] {
        tree.delete_value(k);
        assert!(tree.get(k).is_none());
    }
    // the others are still there
    for k in [2u32, 3, 5, 7, 9, 10, 11] {
        assert_eq!(tree.get(k), Some(&format!("v{}", k)));
    }
}

#[test]
fn test_delete_absent_key_changes_nothing() {
    let mut tree = empty_tree(1, 2);
    for k in [10u32, 20, 30] {
        tree.insert_with_key(k, format!("v{}", k));
    }
    tree.delete_value(99);
    for k in [10u32, 20, 30] {
        assert_eq!(tree.get(k), Some(&format!("v{}", k)));
    }
    assert!(tree.get(99).is_none());
}

#[test]
fn test_update_replaces_value() {
    let mut tree = empty_tree(1, 3);
    tree.insert_with_key(7, "first".to_string());
    tree.update(7, "second".to_string());
    assert_eq!(tree.get(7), Some(&"second".to_string()));
}

#[test]
fn test_update_absent_key_is_noop() {
    let mut tree = empty_tree(1, 3);
    tree.insert_with_key(7, "kept".to_string());
    tree.update(8, "ignored".to_string());
    assert_eq!(tree.get(7), Some(&"kept".to_string()));
    assert!(tree.get(8).is_none());
}

#[test]
fn test_insert_value_returns_usable_key() {
    let mut tree = empty_tree(1, 2);
    let k1 = tree.insert_value("one".to_string());
    let k2 = tree.insert_value("two".to_string());
    assert_eq!(tree.get(k1), Some(&"one".to_string()));
    if k2 != k1 {
        assert_eq!(tree.get(k2), Some(&"two".to_string()));
    }
}

#[test]
fn test_deep_tree_delete_everything() {
    // order 4, min 2: grows to several levels, then shrinks back to an
    // empty root leaf, exercising borrowing and merging on the way down.
    let mut tree = empty_tree(2, 4);
    for k in 1..=40u32 {
        tree.insert_with_key(k, format!("v{}", k));
    }
    for k in (1..=40u32).step_by(2) {
        tree.delete_value(k);
    }
    for k in 1..=40u32 {
        if k % 2 == 1 {
            assert!(tree.get(k).is_none());
        } else {
            assert_eq!(tree.get(k), Some(&format!("v{}", k)));
        }
    }
    for k in (2..=40u32).step_by(2) {
        tree.delete_value(k);
        assert!(tree.get(k).is_none());
    }
    match &tree.root {
        Node::Leaf(leaf) => {
            assert_eq!(leaf.keys.len(), 0);
            assert_eq!(leaf.values.len(), 0);
        }
        Node::Internal(_) => panic!("a fully emptied tree must end as one empty leaf"),
    }
}

#[test]
fn test_descending_inserts_then_interleaved_deletes() {
    let mut tree = empty_tree(1, 2);
    for k in (1..=20u32).rev() {
        tree.insert_with_key(k, format!("v{}", k));
    }
    for k in 1..=20u32 {
        assert_eq!(tree.get(k), Some(&format!("v{}", k)));
    }
    for k in [20u32, 1, 10, 11, 2, 19, 5, 15] {
        tree.delete_value(k);
    }
    for k in 1..=20u32 {
        if [20u32, 1, 10, 11, 2, 19, 5, 15].contains(&k) {
            assert!(tree.get(k).is_none());
        } else {
            assert_eq!(tree.get(k), Some(&format!("v{}", k)));
        }
    }
}

#[test]
fn test_insert_existing_key_overwrites() {
    let mut tree = empty_tree(1, 3);
    tree.insert_with_key(5, "old".to_string());
    tree.insert_with_key(5, "new".to_string());
    assert_eq!(tree.get(5), Some(&"new".to_string()));
    match &tree.root {
        Node::Leaf(leaf) => assert_eq!(leaf.keys, vec![5]),
        Node::Internal(_) => panic!("a single-key tree must be one leaf"),
    }
}

#[test]
fn test_find_leaf_routes_through_internal_nodes() {
    let mut tree = empty_tree(1, 3);
    tree.insert_with_key(5, "a".to_string());
    tree.insert_with_key(15, "b".to_string());
    tree.insert_with_key(25, "c".to_string());
    tree.insert_with_key(35, "d".to_string());

    let leaf_low = tree.find_leaf(&tree.root, 10);
    assert_eq!(leaf_low.keys, vec![5, 15]);
    let leaf_high = tree.find_leaf(&tree.root, 30);
    assert_eq!(leaf_high.keys, vec![25, 35]);
}

#[test]
fn test_keys_in_order_is_sorted_and_complete() {
    let mut tree = empty_tree(1, 2);
    let keys: Vec<KeySize> = vec![9, 4, 17, 1, 12, 6, 3, 20, 15, 8];
    for k in &keys {
        tree.insert_with_key(*k, format!("v{}", k));
    }
    assert_eq!(tree.keys_in_order(), vec![1, 3, 4, 6, 8, 9, 12, 15, 17, 20]);
    tree.delete_value(9);
    tree.delete_value(1);
    assert_eq!(tree.keys_in_order(), vec![3, 4, 6, 8, 12, 15, 17, 20]);
}

#[test]
fn test_create_rejects_invalid_configuration() {
    // a combination under which an internal merge could overflow is
    // rejected at construction time, never discovered later
    match BPlusTree::<String>::create(2, 3) {
        Err(e) => assert_eq!(e, TreeError::InvalidConfiguration),
        Ok(_) => panic!("min_elements 2 with order 3 must be rejected"),
    }
    match BPlusTree::<String>::create(0, 4) {
        Err(e) => assert_eq!(e, TreeError::InvalidConfiguration),
        Ok(_) => panic!("min_elements 0 must be rejected"),
    }
}

#[test]
fn test_create_builds_empty_tree() {
    let tree = BPlusTree::<String>::create(2, 4).unwrap();
    assert_eq!(tree.order, 4);
    assert_eq!(tree.min_elements, 2);
    match &tree.root {
        Node::Leaf(leaf) => {
            assert_eq!(leaf.keys.len(), 0);
            assert_eq!(leaf.values.len(), 0);
        }
        Node::Internal(_) => panic!("a fresh tree must be a single empty leaf"),
    }
    assert!(tree.get(7).is_none());
}

#[test]
fn test_valid_config() {
    assert!(BPlusTree::<String>::is_valid_config(1, 2));
    assert!(BPlusTree::<String>::is_valid_config(1, 3));
    assert!(BPlusTree::<String>::is_valid_config(2, 4));
    assert!(!BPlusTree::<String>::is_valid_config(0, 3));
    assert!(!BPlusTree::<String>::is_valid_config(2, 3));
}
