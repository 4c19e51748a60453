//! A self-balancing (AVL) binary search tree with keyed insert, exact-key
//! lookup and keyed delete.
//!
//! Every mutating operation re-establishes three invariants, stated as spec
//! functions and proved on every public entry point:
//! - binary-search-tree ordering,
//! - correctness of each node's cached height,
//! - the AVL balance bound (sibling heights differ by at most one).

pub mod laws;
pub mod tree;
