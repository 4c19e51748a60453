//! Core tests of the tree: the balance checker, bulk insertion,
//! interleaved deletion, and the right-rotation shape.

use avl_tree::tree::is_avl_tree;
use avl_tree::tree::rotate_right;
use avl_tree::tree::Node;
use avl_tree::tree::Tree;

#[test]
fn test_is_avl_tree() {
    let tree = Tree {
        root: Some(Box::new(Node {
            key: 1,
            value: 1,
            height: 3,
            left: Some(Box::new(Node {
                key: 2,
                value: 2,
                height: 2,
                left: Some(Box::new(Node {
                    key: 3,
                    value: 3,
                    height: 1,
                    left: None,
                    right: None,
                })),
                right: None,
            })),
            right: None,
        })),
    };
    assert!(!is_avl_tree(&tree));
}

#[test]
fn test_insert() {
    let mut tree = Tree::new();
    for i in 1..11 {
        tree.insert(i, i * i);
        assert!(is_avl_tree(&tree));
        tree.insert(2 * 11 - i, i * i * i);
        assert!(is_avl_tree(&tree));
    }

    for i in 1..11 {
        assert_eq!(tree.find(i), Some(&(i * i)));
        assert_eq!(tree.find(2 * 11 - i), Some(&(i * i * i)));
    }
}

#[test]
fn test_delete() {
    let mut tree = Tree::new();
    for i in 1..11 {
        tree.insert(i, i * i);
        tree.insert(2 * 11 - i, i * i * i);
    }

    for i in 1..11 {
        assert_eq!(tree.find(i), Some(&(i * i)));
        assert_eq!(tree.find(2 * 11 - i), Some(&(i * i * i)));

        assert_eq!(tree.delete(i), Ok(()));
        assert!(is_avl_tree(&tree), "Tree was not AVL:\n{}", tree.pretty());
        assert_eq!(tree.find(i), None);
        assert_eq!(tree.find(2 * 11 - i), Some(&(i * i * i)));

        assert_eq!(tree.delete(2 * 11 - i), Ok(()));
        assert!(is_avl_tree(&tree), "Tree was not AVL:\n{}", tree.pretty());
        assert_eq!(tree.find(i), None);
        assert_eq!(tree.find(2 * 11 - i), None);
    }
}

#[test]
fn test_rotate_right() {
    let root = Box::new(Node {
        key: 1,
        value: 1,
        height: 3,
        left: Some(Box::new(Node {
            key: 2,
            value: 2,
            height: 2,
            left: Some(Box::new(Node {
                key: 3,
                value: 3,
                height: 1,
                left: None,
                right: None,
            })),
            right: None,
        })),
        right: None,
    });

    let after = rotate_right(root);
    assert_eq!(after.key, 2);
    assert_eq!(after.height, 2);
}
