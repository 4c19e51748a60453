//! Scenario tests: the interleaved-insert workload, the rotation shapes,
//! two-child deletion, the duplicate-key policy, and each error case.

use avl_tree::tree::is_avl;
use avl_tree::tree::is_avl_tree;
use avl_tree::tree::rotate_left;
use avl_tree::tree::rotate_right;
use avl_tree::tree::Error;
use avl_tree::tree::Node;
use avl_tree::tree::Tree;

fn leaf(key: i64, value: i64) -> Option<Box<Node<i64>>> {
    Some(Box::new(Node {
        key,
        value,
        height: 1,
        left: None,
        right: None,
    }))
}

#[test]
fn interleaved_inserts_stay_balanced() {
    let mut tree = Tree::new();
    for i in 1..10 {
        tree.insert(i, i * i);
        tree.insert(21 - i, i * i * i);
    }
    assert!(is_avl_tree(&tree));
    assert_eq!(tree.find(5), Some(&25));
    assert_eq!(tree.find(16), Some(&125));
}

#[test]
fn rotate_right_on_left_chain() {
    // The left-heavy chain: root key 1, left child key 2, left-left key 3.
    let root = Box::new(Node {
        key: 1,
        value: 10,
        height: 3,
        left: Some(Box::new(Node {
            key: 2,
            value: 20,
            height: 2,
            left: leaf(3, 30),
            right: None,
        })),
        right: None,
    });

    let after = rotate_right(root);
    assert_eq!(after.key, 2);
    assert_eq!(after.height, 2);
    assert_eq!(after.left.as_ref().unwrap().key, 3);
    assert_eq!(after.right.as_ref().unwrap().key, 1);
}

#[test]
fn rotate_left_on_right_chain() {
    let root = Box::new(Node {
        key: 1,
        value: 10,
        height: 3,
        left: None,
        right: Some(Box::new(Node {
            key: 2,
            value: 20,
            height: 2,
            left: None,
            right: leaf(3, 30),
        })),
    });

    let after = rotate_left(root);
    assert_eq!(after.key, 2);
    assert_eq!(after.height, 2);
    assert_eq!(after.left.as_ref().unwrap().key, 1);
    assert_eq!(after.right.as_ref().unwrap().key, 3);
}

#[test]
fn delete_root_with_two_children() {
    // Root key 5, left subtree holding 1..=4, right subtree holding 6..=9,
    // with correct caches throughout.
    let tree = Tree {
        root: Some(Box::new(Node {
            key: 5,
            value: 50,
            height: 4,
            left: Some(Box::new(Node {
                key: 2,
                value: 20,
                height: 3,
                left: leaf(1, 10),
                right: Some(Box::new(Node {
                    key: 3,
                    value: 30,
                    height: 2,
                    left: None,
                    right: leaf(4, 40),
                })),
            })),
            right: Some(Box::new(Node {
                key: 7,
                value: 70,
                height: 3,
                left: leaf(6, 60),
                right: Some(Box::new(Node {
                    key: 8,
                    value: 80,
                    height: 2,
                    left: None,
                    right: leaf(9, 90),
                })),
            })),
        })),
    };
    let mut tree = tree;
    assert_eq!(tree.delete(5), Ok(()));
    // The in-order successor, the minimum of the right subtree, is promoted.
    assert_eq!(tree.root.as_ref().unwrap().key, 6);
    assert!(is_avl_tree(&tree));
    assert_eq!(tree.find(5), None);
    for k in [1, 2, 3, 4, 6, 7, 8, 9] {
        assert_eq!(tree.find(k), Some(&(k * 10)));
    }
}

#[test]
fn duplicate_insert_overwrites() {
    let mut tree = Tree::new();
    tree.insert(7, 1);
    tree.insert(7, 2);
    assert_eq!(tree.find(7), Some(&2));
    assert_eq!(tree.delete(7), Ok(()));
    assert_eq!(tree.find(7), None);
    assert_eq!(tree.delete(7), Err(Error::NotFound));
}

#[test]
fn delete_absent_key_is_not_found() {
    let mut tree = Tree::new();
    assert_eq!(tree.delete(4), Err(Error::NotFound));
    tree.insert(1, 100);
    assert_eq!(tree.delete(4), Err(Error::NotFound));
    assert_eq!(tree.find(1), Some(&100));
    assert_eq!(tree.delete(1), Ok(()));
    assert_eq!(tree.delete(1), Err(Error::NotFound));
}

#[test]
fn insert_then_find_round_trip() {
    let mut tree = Tree::new();
    for k in [-5, 0, 42, 7, -100] {
        tree.insert(k, k * 3);
        assert_eq!(tree.find(k), Some(&(k * 3)));
    }
    for k in [-5, 0, 42, 7, -100] {
        assert_eq!(tree.find(k), Some(&(k * 3)));
    }
}

#[test]
fn delete_removes_only_its_key() {
    let mut tree = Tree::new();
    for k in 1..20 {
        tree.insert(k, k);
    }
    assert_eq!(tree.delete(13), Ok(()));
    assert_eq!(tree.find(13), None);
    for k in 1..20 {
        if k != 13 {
            assert_eq!(tree.find(k), Some(&k));
        }
    }
}

#[test]
fn empty_tree_basics() {
    let tree = Tree::<i64>::new();
    assert_eq!(tree.height(), 0);
    assert_eq!(tree.find(1), None);
    assert_eq!(tree.pretty(), String::new());
    assert!(is_avl_tree(&tree));
}

#[test]
fn height_grows_logarithmically() {
    let mut tree = Tree::new();
    tree.insert(1, 1);
    assert_eq!(tree.height(), 1);
    tree.insert(2, 2);
    assert_eq!(tree.height(), 2);
    tree.insert(3, 3);
    // A plain chain would be height 3; the rebalance keeps it at 2.
    assert_eq!(tree.height(), 2);
    for k in 4..8 {
        tree.insert(k, k);
    }
    assert_eq!(tree.height(), 3);
}

fn collect_in_order(node: &Option<Box<Node<i64>>>, keys: &mut Vec<i64>) {
    if let Some(n) = node {
        collect_in_order(&n.left, keys);
        keys.push(n.key);
        collect_in_order(&n.right, keys);
    }
}

fn check_cached_heights(node: &Option<Box<Node<i64>>>) -> usize {
    match node {
        None => 0,
        Some(n) => {
            let hl = check_cached_heights(&n.left);
            let hr = check_cached_heights(&n.right);
            let expected = 1 + hl.max(hr);
            assert_eq!(n.height, expected);
            expected
        }
    }
}

#[test]
fn cached_heights_match_structure() {
    let mut tree = Tree::new();
    for k in [8, 3, 11, 1, 6, 15, 4, 7, 2, 13, 17, 5] {
        tree.insert(k, k);
        check_cached_heights(&tree.root);
    }
    assert_eq!(is_avl(&tree.root), Some(tree.height()));
    for k in [3, 8, 15, 1] {
        assert_eq!(tree.delete(k), Ok(()));
        check_cached_heights(&tree.root);
    }
}

#[test]
fn in_order_walk_is_sorted() {
    let mut tree = Tree::new();
    for k in [20, 4, 26, 3, 9, 15, 2, 7, 11, 21, 30, 18] {
        tree.insert(k, k);
    }
    assert_eq!(tree.delete(9), Ok(()));
    assert_eq!(tree.delete(20), Ok(()));
    let mut keys = Vec::new();
    collect_in_order(&tree.root, &mut keys);
    assert_eq!(keys.len(), 10);
    for pair in keys.windows(2) {
        assert!(pair[0] <= pair[1]);
    }
}

#[test]
fn pretty_names_every_key() {
    let mut tree = Tree::new();
    for k in 1..4 {
        tree.insert(k, k);
    }
    let text = tree.pretty();
    assert!(text.contains("key=1 height=1"));
    assert!(text.contains("key=2 height=2"));
    assert!(text.contains("key=3 height=1"));
}
