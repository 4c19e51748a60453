//! General laws of the tree, stated over its mathematical model and proved
//! once and for all: the in-order traversal of an ordered tree is sorted,
//! an insert is immediately visible to a lookup, and a removed key is no
//! longer reachable.

use vstd::prelude::*;

use crate::tree::Node;
use crate::tree::Tree;
use crate::tree::lookup;
use crate::tree::opt_bst;
use crate::tree::opt_map;

verus! {

/// The in-order key sequence of a subtree: left subtree first, then the
/// node's own key, then the right subtree.
pub open spec fn opt_key_seq<V>(t: Option<Box<Node<V>>>) -> Seq<i64>
    decreases t,
{
    match t {
        None => Seq::empty(),
        Some(n) => opt_key_seq(n.left) + seq![n.key] + opt_key_seq(n.right),
    }
}

/// Every key listed by the in-order traversal is a key of the subtree's map.
pub proof fn lemma_key_seq_in_map<V>(t: Option<Box<Node<V>>>)
    ensures
        forall|i: int|
            0 <= i < opt_key_seq(t).len() ==> opt_map(t).dom().contains(#[trigger] opt_key_seq(t)[i]),
    decreases t,
{
    match t {
        None => {},
        Some(n) => {
            lemma_key_seq_in_map(n.left);
            lemma_key_seq_in_map(n.right);
            let sl = opt_key_seq(n.left);
            let sr = opt_key_seq(n.right);
            assert(opt_key_seq(t) == sl + seq![n.key] + sr);
            assert(opt_map(t) == opt_map(n.left).union_prefer_right(opt_map(n.right)).insert(
                n.key,
                n.value,
            ));
            assert forall|i: int| 0 <= i < opt_key_seq(t).len() implies opt_map(t).dom().contains(
                #[trigger] opt_key_seq(t)[i],
            ) by {
                if i < sl.len() {
                    assert(opt_key_seq(t)[i] == sl[i]);
                } else if i == sl.len() {
                    assert(opt_key_seq(t)[i] == n.key);
                } else {
                    assert(opt_key_seq(t)[i] == sr[i - sl.len() - 1]);
                }
            }
        },
    }
}

/// In-order traversal of an ordered tree yields its keys in strictly
/// increasing — in particular, non-decreasing — order. Every operation of
/// the tree keeps `opt_bst`, so this holds after any sequence of inserts
/// and deletes.
pub proof fn lemma_in_order_sorted<V>(t: Option<Box<Node<V>>>)
    requires
        opt_bst(t),
    ensures
        forall|i: int, j: int|
            0 <= i < j < opt_key_seq(t).len() ==> opt_key_seq(t)[i] < opt_key_seq(t)[j],
    decreases t,
{
    match t {
        None => {},
        Some(n) => {
            lemma_in_order_sorted(n.left);
            lemma_in_order_sorted(n.right);
            lemma_key_seq_in_map(n.left);
            lemma_key_seq_in_map(n.right);
            let sl = opt_key_seq(n.left);
            let sr = opt_key_seq(n.right);
            assert(opt_key_seq(t) == sl + seq![n.key] + sr);
            assert(forall|i: int| 0 <= i < sl.len() ==> #[trigger] sl[i] < n.key);
            assert(forall|i: int| 0 <= i < sr.len() ==> #[trigger] sr[i] > n.key);
            assert forall|i: int, j: int| 0 <= i < j < opt_key_seq(t).len() implies opt_key_seq(
                t,
            )[i] < opt_key_seq(t)[j] by {
                let s = opt_key_seq(t);
                if j < sl.len() {
                    assert(s[i] == sl[i] && s[j] == sl[j]);
                } else if i < sl.len() && j == sl.len() {
                    assert(s[i] == sl[i] && s[j] == n.key);
                } else if i < sl.len() {
                    assert(s[i] == sl[i] && s[j] == sr[j - sl.len() - 1]);
                } else if i == sl.len() {
                    assert(s[i] == n.key && s[j] == sr[j - sl.len() - 1]);
                } else {
                    assert(s[i] == sr[i - sl.len() - 1] && s[j] == sr[j - sl.len() - 1]);
                }
            }
        },
    }
}

/// Round trip: inserting `(key, value)` and immediately looking `key` up
/// finds exactly `value`. With the overwrite policy there is no shadowing
/// caveat: this holds for every key and value.
pub proof fn lemma_insert_then_find<V>(t: Tree<V>, key: i64, value: V)
    requires
        t.well_formed(),
    ensures
        lookup(t@.insert(key, value), key) == Some(value),
{
}

/// A successfully deleted key is no longer reachable: looking it up in the
/// tree left behind by `delete` finds nothing. Keys are unique, so no
/// earlier insert of the same key can still shadow the removal.
pub proof fn lemma_delete_then_find<V>(t: Tree<V>, key: i64)
    requires
        t.well_formed(),
    ensures
        lookup(t@.remove(key), key) is None,
{
}

} // verus!
