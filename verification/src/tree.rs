//! The balanced tree: nodes, the height/balance utilities, rotations,
//! rebalancing, and the insert / delete / find operations.

use vstd::prelude::*;
use vstd::string::StringExecFns;

verus! {

/// The single recoverable error: `delete` was asked for a key that the tree
/// does not hold.
#[derive(Debug, PartialEq, Eq, Structural, Clone, Copy)]
pub enum Error {
    NotFound,
}

/// One stored record: a key, its payload, the cached height of the subtree
/// rooted here, and the two optional children.
///
/// The fields are public so that callers (and tests) may build arbitrary
/// shapes; every operation that relies on the invariants states them in its
/// `requires`.
pub struct Node<V> {
    pub key: i64,
    pub value: V,
    pub height: usize,
    pub left: Option<Box<Node<V>>>,
    pub right: Option<Box<Node<V>>>,
}

/// A self-balancing (AVL) binary search tree mapping `i64` keys to values.
///
/// Keys are unique: inserting a key that is already present overwrites the
/// stored value. This is the documented resolution of the duplicate-key
/// policy, chosen so that the tree denotes exactly a map from keys to values.
pub struct Tree<V> {
    pub root: Option<Box<Node<V>>>,
}

/// The larger of two natural numbers.
pub open spec fn nat_max(a: nat, b: nat) -> nat {
    if a >= b {
        a
    } else {
        b
    }
}

/// The true height of a subtree, computed from the structure alone:
/// 0 for an absent subtree, otherwise one more than the taller child.
pub open spec fn opt_height<V>(t: Option<Box<Node<V>>>) -> nat
    decreases t,
{
    match t {
        None => 0,
        Some(n) => 1 + nat_max(opt_height(n.left), opt_height(n.right)),
    }
}

/// The cached height of a subtree: 0 for an absent subtree, otherwise the
/// root node's `height` field.
pub open spec fn stored_height<V>(t: Option<Box<Node<V>>>) -> nat {
    match t {
        None => 0,
        Some(n) => n.height as nat,
    }
}

/// The key-value map that a subtree holds.
pub open spec fn opt_map<V>(t: Option<Box<Node<V>>>) -> Map<i64, V>
    decreases t,
{
    match t {
        None => Map::empty(),
        Some(n) => opt_map(n.left).union_prefer_right(opt_map(n.right)).insert(n.key, n.value),
    }
}

/// Binary-search-tree ordering: at every node, all keys of the left subtree
/// are smaller than the node's key and all keys of the right subtree are
/// larger.
pub open spec fn opt_bst<V>(t: Option<Box<Node<V>>>) -> bool
    decreases t,
{
    match t {
        None => true,
        Some(n) => {
            &&& opt_bst(n.left)
            &&& opt_bst(n.right)
            &&& forall|k: i64| opt_map(n.left).dom().contains(k) ==> k < n.key
            &&& forall|k: i64| opt_map(n.right).dom().contains(k) ==> k > n.key
        },
    }
}

/// Height-cache correctness: every node's `height` field equals one more
/// than the taller child's true height.
pub open spec fn opt_heights_ok<V>(t: Option<Box<Node<V>>>) -> bool
    decreases t,
{
    match t {
        None => true,
        Some(n) => {
            &&& opt_heights_ok(n.left)
            &&& opt_heights_ok(n.right)
            &&& n.height == 1 + nat_max(opt_height(n.left), opt_height(n.right))
        },
    }
}

/// The AVL balance bound: at every node the children's true heights differ
/// by at most one.
pub open spec fn opt_balanced<V>(t: Option<Box<Node<V>>>) -> bool
    decreases t,
{
    match t {
        None => true,
        Some(n) => {
            &&& opt_balanced(n.left)
            &&& opt_balanced(n.right)
            &&& -1 <= opt_height(n.left) - opt_height(n.right) <= 1
        },
    }
}

/// All three structural invariants together.
pub open spec fn opt_wf<V>(t: Option<Box<Node<V>>>) -> bool {
    opt_bst(t) && opt_heights_ok(t) && opt_balanced(t)
}

/// What an exact-key search owes: the stored value when the key is present,
/// nothing when it is absent.
pub open spec fn lookup<V>(m: Map<i64, V>, key: i64) -> Option<V> {
    if m.dom().contains(key) {
        Some(m[key])
    } else {
        None
    }
}

/// Cached height of an optional subtree; never recurses.
///
/// Relies on the height-cache invariant for its meaning: when the caches are
/// correct this is the subtree's true height.
pub fn height<V>(node: &Option<Box<Node<V>>>) -> (h: usize)
    ensures
        h == stored_height(*node),
        opt_heights_ok(*node) ==> h == opt_height(*node),
{
    match node {
        None => 0,
        Some(n) => n.height,
    }
}

impl<V> Node<V> {
    /// A fresh leaf node holding `key` and `value`, with height 1.
    /// This is the only place a node is created.
    pub fn new(key: i64, value: V) -> (n: Node<V>)
        ensures
            n.key == key,
            n.value == value,
            n.height == 1,
            n.left.is_none(),
            n.right.is_none(),
    {
        Node { key, value, height: 1, left: None, right: None }
    }

    /// Recompute this node's cached height from its children's caches.
    /// Must be called whenever either child has changed, before the node is
    /// handed back up the call chain.
    pub fn update_height(&mut self)
        requires
            opt_heights_ok(old(self).left),
            opt_heights_ok(old(self).right),
            nat_max(opt_height(old(self).left), opt_height(old(self).right)) + 1 <= usize::MAX,
        ensures
            final(self).key == old(self).key,
            final(self).value == old(self).value,
            final(self).left == old(self).left,
            final(self).right == old(self).right,
            final(self).height == 1 + nat_max(opt_height(old(self).left), opt_height(old(self).right)),
    {
        let hl = height(&self.left);
        let hr = height(&self.right);
        let m = if hl >= hr {
            hl
        } else {
            hr
        };
        self.height = m + 1;
    }
}

/// Single right rotation:
/// ```text
///     (4)           (2)
///     / \           / \
///   (2) [5]  ==>  [1] (4)
///   / \               / \
/// [1] [3]           [3] [5]
/// ```
/// The left child is promoted to be the subtree root; its former right child
/// becomes the old root's new left child; the old root becomes the promoted
/// node's right child. Both touched nodes get their cached height recomputed,
/// old root first. Purely structural: it needs no search-tree ordering, but
/// preserves ordering and contents whenever they held.
pub fn rotate_right<V>(root: Box<Node<V>>) -> (r: Box<Node<V>>)
    requires
        root.left.is_some(),
        opt_heights_ok(root.left),
        opt_heights_ok(root.right),
        opt_height(Some(root)) < usize::MAX,
    ensures
        r.key == root.left.unwrap().key,
        r.value == root.left.unwrap().value,
        r.left == root.left.unwrap().left,
        r.right.is_some(),
        r.right.unwrap().key == root.key,
        r.right.unwrap().value == root.value,
        r.right.unwrap().left == root.left.unwrap().right,
        r.right.unwrap().right == root.right,
        opt_heights_ok(Some(r)),
        opt_height(Some(r)) <= opt_height(Some(root)) + 1,
        opt_bst(Some(root)) ==> opt_bst(Some(r)),
        opt_bst(Some(root)) ==> opt_map(Some(r)) == opt_map(Some(root)),
{
    let ghost orig = *root;
    let ghost l0 = *orig.left.unwrap();
    let ghost a = opt_height(l0.left);
    let ghost b = opt_height(l0.right);
    let ghost c = opt_height(orig.right);
    let ghost h_all = opt_height(Some(root));
    let ghost was_bst = opt_bst(Some(root));
    let ghost m0 = opt_map(Some(root));
    proof {
        assert(opt_height(orig.left) == 1 + nat_max(a, b));
        assert(h_all == 1 + nat_max(opt_height(orig.left), c));
        assert(opt_heights_ok(orig.left) && opt_heights_ok(orig.right));
        assert(opt_heights_ok(l0.left) && opt_heights_ok(l0.right));
        assert(was_bst == (opt_bst(orig.left) && opt_bst(orig.right) && (forall|k: i64|
            opt_map(orig.left).dom().contains(k) ==> k < orig.key) && (forall|k: i64|
            opt_map(orig.right).dom().contains(k) ==> k > orig.key)));
        assert(m0 == opt_map(orig.left).union_prefer_right(opt_map(orig.right)).insert(
            orig.key,
            orig.value,
        ));
    }
    let mut node = root;
    let mut new_root = node.left.take().expect("no left subtree");
    node.left = new_root.right.take();
    proof {
        assert(node.left == l0.right && node.right == orig.right);
        assert(nat_max(b, c) + 1 <= h_all);
    }
    node.update_height();
    proof {
        assert(opt_heights_ok(Some(node)));
        assert(opt_height(Some(node)) == 1 + nat_max(b, c));
        assert(new_root.left == l0.left);
        assert(nat_max(a, opt_height(Some(node))) + 1 <= h_all + 1);
    }
    new_root.right = Some(node);
    new_root.update_height();
    proof {
        assert(opt_heights_ok(Some(new_root)));
        assert(opt_height(Some(new_root)) == 1 + nat_max(a, 1 + nat_max(b, c)));
        assert(opt_height(Some(new_root)) <= h_all + 1);
        if was_bst {
            lemma_rotation_shape(orig, *new_root);
            assert(opt_bst(Some(new_root)));
            assert(opt_map(Some(new_root)) == m0);
        }
    }
    new_root
}

/// Single left rotation, the mirror image of `rotate_right`:
/// ```text
///    (2)              (4)
///    / \              / \
///  [1] (4)    ==>   (2) [5]
///      / \          / \
///    [3] [5]      [1] [3]
/// ```
pub fn rotate_left<V>(root: Box<Node<V>>) -> (r: Box<Node<V>>)
    requires
        root.right.is_some(),
        opt_heights_ok(root.left),
        opt_heights_ok(root.right),
        opt_height(Some(root)) < usize::MAX,
    ensures
        r.key == root.right.unwrap().key,
        r.value == root.right.unwrap().value,
        r.right == root.right.unwrap().right,
        r.left.is_some(),
        r.left.unwrap().key == root.key,
        r.left.unwrap().value == root.value,
        r.left.unwrap().right == root.right.unwrap().left,
        r.left.unwrap().left == root.left,
        opt_heights_ok(Some(r)),
        opt_height(Some(r)) <= opt_height(Some(root)) + 1,
        opt_bst(Some(root)) ==> opt_bst(Some(r)),
        opt_bst(Some(root)) ==> opt_map(Some(r)) == opt_map(Some(root)),
{
    let ghost orig = *root;
    let ghost r0 = *orig.right.unwrap();
    let ghost a = opt_height(r0.right);
    let ghost b = opt_height(r0.left);
    let ghost c = opt_height(orig.left);
    let ghost h_all = opt_height(Some(root));
    let ghost was_bst = opt_bst(Some(root));
    let ghost m0 = opt_map(Some(root));
    proof {
        assert(opt_height(orig.right) == 1 + nat_max(b, a));
        assert(h_all == 1 + nat_max(c, opt_height(orig.right)));
        assert(opt_heights_ok(orig.left) && opt_heights_ok(orig.right));
        assert(opt_heights_ok(r0.left) && opt_heights_ok(r0.right));
        assert(was_bst == (opt_bst(orig.left) && opt_bst(orig.right) && (forall|k: i64|
            opt_map(orig.left).dom().contains(k) ==> k < orig.key) && (forall|k: i64|
            opt_map(orig.right).dom().contains(k) ==> k > orig.key)));
        assert(m0 == opt_map(orig.left).union_prefer_right(opt_map(orig.right)).insert(
            orig.key,
            orig.value,
        ));
    }
    let mut node = root;
    let mut new_root = node.right.take().expect("no right subtree");
    node.right = new_root.left.take();
    proof {
        assert(node.right == r0.left && node.left == orig.left);
        assert(nat_max(c, b) + 1 <= h_all);
    }
    node.update_height();
    proof {
        assert(opt_heights_ok(Some(node)));
        assert(opt_height(Some(node)) == 1 + nat_max(c, b));
        assert(new_root.right == r0.right);
        assert(nat_max(opt_height(Some(node)), a) + 1 <= h_all + 1);
    }
    new_root.left = Some(node);
    new_root.update_height();
    proof {
        assert(opt_heights_ok(Some(new_root)));
        assert(opt_height(Some(new_root)) == 1 + nat_max(1 + nat_max(c, b), a));
        assert(opt_height(Some(new_root)) <= h_all + 1);
        if was_bst {
            lemma_rotation_shape_left(orig, *new_root);
            assert(opt_bst(Some(new_root)));
            assert(opt_map(Some(new_root)) == m0);
        }
    }
    new_root
}

/// After a right rotation of `before` into `after`, ordering and contents
/// carry over whenever `before` was a search tree.
proof fn lemma_rotation_shape<V>(before: Node<V>, after: Node<V>)
    requires
        before.left.is_some(),
        after.key == before.left.unwrap().key,
        after.value == before.left.unwrap().value,
        after.left == before.left.unwrap().left,
        after.right.is_some(),
        after.right.unwrap().key == before.key,
        after.right.unwrap().value == before.value,
        after.right.unwrap().left == before.left.unwrap().right,
        after.right.unwrap().right == before.right,
        opt_bst(before.left),
        opt_bst(before.right),
        forall|k: i64| opt_map(before.left).dom().contains(k) ==> k < before.key,
        forall|k: i64| opt_map(before.right).dom().contains(k) ==> k > before.key,
    ensures
        opt_bst(after.left),
        opt_bst(after.right),
        forall|k: i64| opt_map(after.left).dom().contains(k) ==> k < after.key,
        forall|k: i64| opt_map(after.right).dom().contains(k) ==> k > after.key,
        opt_map(after.left).union_prefer_right(opt_map(after.right)).insert(after.key, after.value)
            == opt_map(before.left).union_prefer_right(opt_map(before.right)).insert(before.key, before.value),
{
    let l = before.left.unwrap();
    let inner = after.right.unwrap();
    let ma = opt_map(l.left);
    let mb = opt_map(l.right);
    let mc = opt_map(before.right);
    assert(opt_map(before.left) == ma.union_prefer_right(mb).insert(l.key, l.value));
    assert(opt_bst(l.left) && opt_bst(l.right));
    assert(forall|k: i64| ma.dom().contains(k) ==> k < l.key);
    assert(forall|k: i64| mb.dom().contains(k) ==> k > l.key);
    assert(opt_map(before.left).dom().contains(l.key));
    assert(l.key < before.key);
    assert(forall|k: i64| mb.dom().contains(k) ==> opt_map(before.left).dom().contains(k));
    assert(forall|k: i64| mb.dom().contains(k) ==> k < before.key);
    assert(forall|k: i64| ma.dom().contains(k) ==> opt_map(before.left).dom().contains(k));
    assert(opt_bst(after.right)) by {
        assert(forall|k: i64| opt_map(inner.left).dom().contains(k) ==> k < inner.key);
        assert(forall|k: i64| opt_map(inner.right).dom().contains(k) ==> k > inner.key);
    }
    assert(opt_map(Some(inner)) == mb.union_prefer_right(mc).insert(before.key, before.value));
    assert forall|k: i64| opt_map(after.right).dom().contains(k) implies k > after.key by {
        assert(k == before.key || mb.dom().contains(k) || mc.dom().contains(k));
    }
    let lhs = opt_map(after.left).union_prefer_right(opt_map(after.right)).insert(
        after.key,
        after.value,
    );
    let rhs = opt_map(before.left).union_prefer_right(opt_map(before.right)).insert(
        before.key,
        before.value,
    );
    assert(lhs.dom() =~= rhs.dom());
    assert forall|k: i64| #[trigger] lhs.dom().contains(k) implies lhs[k] == rhs[k] by {
        assert(ma.dom().contains(k) ==> k < l.key);
        assert(mb.dom().contains(k) ==> l.key < k < before.key);
        assert(mc.dom().contains(k) ==> k > before.key);
        assert(k == l.key || k == before.key || ma.dom().contains(k) || mb.dom().contains(k)
            || mc.dom().contains(k));
    }
    assert(lhs =~= rhs);
}

/// Mirror of `lemma_rotation_shape` for a left rotation.
proof fn lemma_rotation_shape_left<V>(before: Node<V>, after: Node<V>)
    requires
        before.right.is_some(),
        after.key == before.right.unwrap().key,
        after.value == before.right.unwrap().value,
        after.right == before.right.unwrap().right,
        after.left.is_some(),
        after.left.unwrap().key == before.key,
        after.left.unwrap().value == before.value,
        after.left.unwrap().right == before.right.unwrap().left,
        after.left.unwrap().left == before.left,
        opt_bst(before.left),
        opt_bst(before.right),
        forall|k: i64| opt_map(before.left).dom().contains(k) ==> k < before.key,
        forall|k: i64| opt_map(before.right).dom().contains(k) ==> k > before.key,
    ensures
        opt_bst(after.left),
        opt_bst(after.right),
        forall|k: i64| opt_map(after.left).dom().contains(k) ==> k < after.key,
        forall|k: i64| opt_map(after.right).dom().contains(k) ==> k > after.key,
        opt_map(after.left).union_prefer_right(opt_map(after.right)).insert(after.key, after.value)
            == opt_map(before.left).union_prefer_right(opt_map(before.right)).insert(before.key, before.value),
{
    let r = before.right.unwrap();
    let inner = after.left.unwrap();
    let ma = opt_map(r.right);
    let mb = opt_map(r.left);
    let mc = opt_map(before.left);
    assert(opt_map(before.right) == mb.union_prefer_right(ma).insert(r.key, r.value));
    assert(opt_bst(r.left) && opt_bst(r.right));
    assert(forall|k: i64| ma.dom().contains(k) ==> k > r.key);
    assert(forall|k: i64| mb.dom().contains(k) ==> k < r.key);
    assert(opt_map(before.right).dom().contains(r.key));
    assert(r.key > before.key);
    assert(forall|k: i64| mb.dom().contains(k) ==> opt_map(before.right).dom().contains(k));
    assert(forall|k: i64| mb.dom().contains(k) ==> k > before.key);
    assert(forall|k: i64| ma.dom().contains(k) ==> opt_map(before.right).dom().contains(k));
    assert(opt_bst(after.left)) by {
        assert(forall|k: i64| opt_map(inner.left).dom().contains(k) ==> k < inner.key);
        assert(forall|k: i64| opt_map(inner.right).dom().contains(k) ==> k > inner.key);
    }
    assert(opt_map(Some(inner)) == mc.union_prefer_right(mb).insert(before.key, before.value));
    assert forall|k: i64| opt_map(after.left).dom().contains(k) implies k < after.key by {
        assert(k == before.key || mb.dom().contains(k) || mc.dom().contains(k));
    }
    let lhs = opt_map(after.left).union_prefer_right(opt_map(after.right)).insert(
        after.key,
        after.value,
    );
    let rhs = opt_map(before.left).union_prefer_right(opt_map(before.right)).insert(
        before.key,
        before.value,
    );
    assert(lhs.dom() =~= rhs.dom());
    assert forall|k: i64| #[trigger] lhs.dom().contains(k) implies lhs[k] == rhs[k] by {
        assert(ma.dom().contains(k) ==> k > r.key);
        assert(mb.dom().contains(k) ==> before.key < k < r.key);
        assert(mc.dom().contains(k) ==> k < before.key);
        assert(k == r.key || k == before.key || ma.dom().contains(k) || mb.dom().contains(k)
            || mc.dom().contains(k));
    }
    assert(lhs =~= rhs);
}

/// Restore the AVL balance bound at the root of a subtree.
///
/// The children must each already satisfy all three invariants on their own,
/// the root's cached height must be current, and the children's heights may
/// differ by at most two — exactly the damage a single insertion or deletion
/// below an initially balanced node can do. One single or double rotation
/// (the four classic cases) then suffices: the result is fully well-formed,
/// holds the same map, and is at most one level lower than the input.
/// An already balanced subtree is returned unchanged.
pub fn rebalance<V>(root: Box<Node<V>>) -> (r: Box<Node<V>>)
    requires
        opt_bst(Some(root)),
        opt_heights_ok(Some(root)),
        opt_balanced(root.left),
        opt_balanced(root.right),
        -2 <= opt_height(root.left) - opt_height(root.right) <= 2,
        opt_height(Some(root)) < usize::MAX,
    ensures
        opt_wf(Some(r)),
        opt_map(Some(r)) == opt_map(Some(root)),
        opt_height(Some(r)) == opt_height(Some(root)) || opt_height(Some(r)) + 1 == opt_height(
            Some(root),
        ),
        (-1 <= opt_height(root.left) - opt_height(root.right) <= 1) ==> r == root,
{
    let ghost orig = *root;
    let ghost m0 = opt_map(Some(root));
    let ghost h0 = opt_height(Some(root));
    proof {
        assert(opt_heights_ok(orig.left) && opt_heights_ok(orig.right));
        assert(h0 == 1 + nat_max(opt_height(orig.left), opt_height(orig.right)));
        assert(opt_bst(orig.left) && opt_bst(orig.right));
        assert(m0 == opt_map(orig.left).union_prefer_right(opt_map(orig.right)).insert(
            orig.key,
            orig.value,
        ));
    }
    let mut node = root;
    let hl = height(&node.left);
    let hr = height(&node.right);
    if hl > hr && hl - hr > 1 {
        // Left-heavy by exactly two: the LL or LR case.
        let ghost l0 = *orig.left.unwrap();
        let ghost a = opt_height(l0.left);
        let ghost b = opt_height(l0.right);
        let ghost c = opt_height(orig.right);
        proof {
            assert(opt_height(orig.left) == 1 + nat_max(a, b));
            assert(opt_height(orig.left) == c + 2);
            assert(opt_balanced(l0.left) && opt_balanced(l0.right));
            assert(-1 <= a - b <= 1 && nat_max(a, b) == c + 1);
            assert(opt_heights_ok(l0.left) && opt_heights_ok(l0.right));
        }
        let lref = node.left.as_ref().unwrap();
        let l_rh = height(&lref.right);
        let l_lh = height(&lref.left);
        if l_rh > l_lh {
            // LR: the left child is itself right-heavy; first rotate it left.
            let ghost b0 = *l0.right.unwrap();
            let ghost x = opt_height(b0.left);
            let ghost y = opt_height(b0.right);
            proof {
                assert(b == c + 1 && a == c);
                assert(b == 1 + nat_max(x, y));
                assert(opt_balanced(b0.left) && opt_balanced(b0.right));
                assert(-1 <= x - y <= 1 && nat_max(x, y) == c);
            }
            let l = node.left.take().unwrap();
            let l_rot = rotate_left(l);
            proof {
                assert(opt_height(Some(l_rot)) == 1 + nat_max(1 + nat_max(a, x), y));
                assert(opt_height(Some(l_rot)) == c + 2);
                assert(opt_map(Some(l_rot)) == opt_map(orig.left));
                assert(opt_bst(Some(l_rot)));
            }
            node.left = Some(l_rot);
            proof {
                assert(opt_height(Some(node)) == 1 + nat_max(c + 2, c));
                assert(opt_bst(Some(node)));
                assert(opt_heights_ok(Some(node)));
                assert(opt_map(Some(node)) == m0);
            }
            let new_root = rotate_right(node);
            proof {
                let i2 = new_root.left.unwrap();
                let i3 = new_root.right.unwrap();
                assert(opt_height(Some(i2)) == 1 + nat_max(a, x));
                assert(opt_height(Some(i3)) == 1 + nat_max(y, c));
                assert(opt_balanced(new_root.left)) by {
                    assert(opt_balanced(i2.left) && opt_balanced(i2.right));
                }
                assert(opt_balanced(new_root.right)) by {
                    assert(opt_balanced(i3.left) && opt_balanced(i3.right));
                }
                assert(opt_balanced(Some(new_root)));
                assert(opt_height(Some(new_root)) == c + 2);
                assert(opt_height(Some(new_root)) + 1 == h0);
            }
            new_root
        } else {
            // LL: a single right rotation suffices.
            proof {
                assert(a == c + 1 && (b == c || b == c + 1));
            }
            let new_root = rotate_right(node);
            proof {
                let i3 = new_root.right.unwrap();
                assert(opt_height(Some(i3)) == 1 + nat_max(b, c));
                assert(opt_balanced(new_root.left));
                assert(opt_balanced(new_root.right)) by {
                    assert(opt_balanced(i3.left) && opt_balanced(i3.right));
                }
                assert(opt_balanced(Some(new_root)));
                assert(opt_height(Some(new_root)) == 1 + nat_max(a, 1 + nat_max(b, c)));
                assert(opt_height(Some(new_root)) == h0 || opt_height(Some(new_root)) + 1 == h0);
            }
            new_root
        }
    } else if hr > hl && hr - hl > 1 {
        // Right-heavy by exactly two: the RR or RL case, mirrored.
        let ghost r0 = *orig.right.unwrap();
        let ghost a = opt_height(r0.right);
        let ghost b = opt_height(r0.left);
        let ghost c = opt_height(orig.left);
        proof {
            assert(opt_height(orig.right) == 1 + nat_max(b, a));
            assert(opt_height(orig.right) == c + 2);
            assert(opt_balanced(r0.left) && opt_balanced(r0.right));
            assert(-1 <= b - a <= 1 && nat_max(b, a) == c + 1);
            assert(opt_heights_ok(r0.left) && opt_heights_ok(r0.right));
        }
        let rref = node.right.as_ref().unwrap();
        let r_rh = height(&rref.right);
        let r_lh = height(&rref.left);
        if r_rh < r_lh {
            // RL: the right child is itself left-heavy; first rotate it right.
            let ghost b0 = *r0.left.unwrap();
            let ghost x = opt_height(b0.right);
            let ghost y = opt_height(b0.left);
            proof {
                assert(b == c + 1 && a == c);
                assert(b == 1 + nat_max(y, x));
                assert(opt_balanced(b0.left) && opt_balanced(b0.right));
                assert(-1 <= y - x <= 1 && nat_max(y, x) == c);
            }
            let rchild = node.right.take().unwrap();
            let r_rot = rotate_right(rchild);
            proof {
                assert(opt_height(Some(r_rot)) == 1 + nat_max(y, 1 + nat_max(x, a)));
                assert(opt_height(Some(r_rot)) == c + 2);
                assert(opt_map(Some(r_rot)) == opt_map(orig.right));
                assert(opt_bst(Some(r_rot)));
            }
            node.right = Some(r_rot);
            proof {
                assert(opt_height(Some(node)) == 1 + nat_max(c, c + 2));
                assert(opt_bst(Some(node)));
                assert(opt_heights_ok(Some(node)));
                assert(opt_map(Some(node)) == m0);
            }
            let new_root = rotate_left(node);
            proof {
                let i2 = new_root.right.unwrap();
                let i3 = new_root.left.unwrap();
                assert(opt_height(Some(i2)) == 1 + nat_max(x, a));
                assert(opt_height(Some(i3)) == 1 + nat_max(c, y));
                assert(opt_balanced(new_root.right)) by {
                    assert(opt_balanced(i2.left) && opt_balanced(i2.right));
                }
                assert(opt_balanced(new_root.left)) by {
                    assert(opt_balanced(i3.left) && opt_balanced(i3.right));
                }
                assert(opt_balanced(Some(new_root)));
                assert(opt_height(Some(new_root)) == c + 2);
                assert(opt_height(Some(new_root)) + 1 == h0);
            }
            new_root
        } else {
            // RR: a single left rotation suffices.
            proof {
                assert(a == c + 1 && (b == c || b == c + 1));
            }
            let new_root = rotate_left(node);
            proof {
                let i3 = new_root.left.unwrap();
                assert(opt_height(Some(i3)) == 1 + nat_max(c, b));
                assert(opt_balanced(new_root.right));
                assert(opt_balanced(new_root.left)) by {
                    assert(opt_balanced(i3.left) && opt_balanced(i3.right));
                }
                assert(opt_balanced(Some(new_root)));
                assert(opt_height(Some(new_root)) == 1 + nat_max(1 + nat_max(c, b), a));
                assert(opt_height(Some(new_root)) == h0 || opt_height(Some(new_root)) + 1 == h0);
            }
            new_root
        }
    } else {
        // Already within the balance bound: hand the node back unchanged.
        proof {
            assert(opt_balanced(Some(node)));
        }
        node
    }
}

/// Take the minimum-keyed node out of a non-empty subtree.
///
/// Returns the remaining subtree and the extracted node, whose children are
/// detached (its cached height is left stale; the caller re-homes the node
/// and recomputes it). The remainder is rebuilt bottom-up with height
/// updates and rebalancing, so it is fully well-formed and at most one
/// level lower.
pub fn take_smallest<V>(root: Box<Node<V>>) -> (res: (Option<Box<Node<V>>>, Box<Node<V>>))
    requires
        opt_wf(Some(root)),
        opt_height(Some(root)) < usize::MAX,
    ensures
        opt_wf(res.0),
        res.1.left.is_none() && res.1.right.is_none(),
        opt_map(Some(root)).dom().contains(res.1.key),
        opt_map(Some(root))[res.1.key] == res.1.value,
        forall|k: i64| opt_map(Some(root)).dom().contains(k) ==> k >= res.1.key,
        opt_map(res.0) == opt_map(Some(root)).remove(res.1.key),
        opt_height(res.0) == opt_height(Some(root)) || opt_height(res.0) + 1 == opt_height(
            Some(root),
        ),
    decreases root,
{
    let ghost orig = *root;
    let ghost m0 = opt_map(Some(root));
    let ghost h0 = opt_height(Some(root));
    let ghost c = opt_height(orig.left);
    let ghost d = opt_height(orig.right);
    proof {
        assert(h0 == 1 + nat_max(c, d));
        assert(opt_heights_ok(orig.left) && opt_heights_ok(orig.right));
        assert(opt_bst(orig.left) && opt_bst(orig.right));
        assert(opt_balanced(orig.left) && opt_balanced(orig.right));
        assert(-1 <= c - d <= 1);
        assert(m0 == opt_map(orig.left).union_prefer_right(opt_map(orig.right)).insert(
            orig.key,
            orig.value,
        ));
    }
    let mut node = root;
    match node.left.take() {
        Some(top) => {
            let (rest, smallest) = take_smallest(top);
            let ghost c2 = opt_height(rest);
            node.left = rest;
            proof {
                assert(opt_map(node.left) == opt_map(orig.left).remove(smallest.key));
                assert(forall|k: i64| opt_map(node.left).dom().contains(k) ==> k < node.key);
                assert(opt_bst(Some(node)));
                assert(nat_max(c2, d) + 1 <= h0);
            }
            node.update_height();
            proof {
                assert(opt_heights_ok(Some(node)));
                assert(opt_height(Some(node)) == 1 + nat_max(c2, d));
                assert(opt_height(Some(node)) < usize::MAX);
                assert(opt_map(orig.left).dom().contains(smallest.key));
                assert(smallest.key < orig.key);
                assert(!opt_map(orig.right).dom().contains(smallest.key));
                assert(opt_map(Some(node)) =~= m0.remove(smallest.key));
            }
            let new_root = rebalance(node);
            proof {
                assert(opt_height(Some(new_root)) == h0 || opt_height(Some(new_root)) + 1 == h0)
                    by {
                    assert(c2 == c || c2 + 1 == c);
                    if -1 <= c2 - d <= 1 {
                        assert(opt_height(Some(new_root)) == 1 + nat_max(c2, d));
                    } else {
                        assert(c2 + 2 == d);
                    }
                }
                assert(forall|k: i64| m0.dom().contains(k) ==> k >= smallest.key);
            }
            (Some(new_root), smallest)
        },
        None => {
            let rest = node.right.take();
            proof {
                assert(opt_map(orig.left) =~= Map::<i64, V>::empty());
                assert(c == 0);
                assert(!opt_map(orig.right).dom().contains(orig.key));
                assert(opt_map(rest) =~= m0.remove(orig.key));
                assert(forall|k: i64| m0.dom().contains(k) ==> k >= orig.key);
                assert(opt_height(rest) + 1 == h0);
            }
            (rest, node)
        },
    }
}

/// Recompute a subtree's real height while checking the AVL balance bound,
/// ignoring the cached height fields entirely.
///
/// Returns `Some` of the subtree's true height when every node satisfies
/// the balance bound, `None` as soon as any node violates it.
pub fn is_avl<V>(root: &Option<Box<Node<V>>>) -> (r: Option<usize>)
    requires
        opt_height(*root) <= usize::MAX,
    ensures
        r.is_some() <==> opt_balanced(*root),
        r.is_some() ==> r.unwrap() == opt_height(*root),
    decreases root,
{
    match root {
        None => Some(0),
        Some(n) => {
            proof {
                assert(opt_height(*root) == 1 + nat_max(opt_height(n.left), opt_height(n.right)));
            }
            match is_avl(&n.left) {
                None => None,
                Some(lh) => match is_avl(&n.right) {
                    None => None,
                    Some(rh) => {
                        if lh <= rh + 1 && rh <= lh + 1 {
                            let m = if lh >= rh {
                                lh
                            } else {
                                rh
                            };
                            Some(m + 1)
                        } else {
                            None
                        }
                    },
                },
            }
        },
    }
}

/// Whether the whole tree satisfies the AVL balance bound, judged from the
/// structure alone (the cached heights are not consulted).
pub fn is_avl_tree<V>(tree: &Tree<V>) -> (r: bool)
    requires
        opt_height(tree.root) <= usize::MAX,
    ensures
        r == opt_balanced(tree.root),
{
    match is_avl(&tree.root) {
        Some(_) => true,
        None => false,
    }
}

impl<V> View for Tree<V> {
    type V = Map<i64, V>;

    open spec fn view(&self) -> Map<i64, V> {
        opt_map(self.root)
    }
}

impl<V> Tree<V> {
    /// The three structural invariants, at the root.
    pub open spec fn well_formed(self) -> bool {
        opt_wf(self.root)
    }

    /// The tree's true height.
    pub open spec fn spec_height(self) -> nat {
        opt_height(self.root)
    }

    /// An empty tree.
    pub fn new() -> (t: Tree<V>)
        ensures
            t.well_formed(),
            t@ == Map::<i64, V>::empty(),
            t.spec_height() == 0,
    {
        Tree { root: None }
    }

    /// The cached height of the root: 0 for an empty tree.
    pub fn height(&self) -> (h: usize)
        ensures
            h == stored_height(self.root),
            self.well_formed() ==> h == self.spec_height(),
    {
        height(&self.root)
    }

    /// Render the tree for a human reader: one line per node with its key
    /// and cached height, children connected by box-drawing rails. A pure
    /// read-only view of the current shape; little is promised of the text
    /// (an empty tree renders as nothing, any node renders as something),
    /// and no operation of the tree depends on it.
    pub fn pretty(&self) -> (r: String)
        ensures
            self.root is None ==> r@ == Seq::<char>::empty(),
            self.root is Some ==> r@.len() > 0,
    {
        self.pretty_node(&self.root, String::new(), String::new(), String::new())
    }

    /// Recursive step of `pretty`: `left`, `mid` and `right` are the rail
    /// prefixes for the left subtree's lines, this node's line and the right
    /// subtree's lines.
    fn pretty_node(
        &self,
        tree: &Option<Box<Node<V>>>,
        left: String,
        mid: String,
        right: String,
    ) -> (r: String)
        ensures
            tree is None ==> r@ == Seq::<char>::empty(),
            tree is Some ==> r@.len() > 0,
        decreases tree,
    {
        if let Some(root) = tree {
            let mut result = String::new();
            let mut child_left = left.clone();
            child_left.append("   ");
            let mut child_mid = left.clone();
            child_mid.append("  +");
            let mut child_right = left.clone();
            child_right.append("  |");
            let rendered_left = self.pretty_node(&root.left, child_left, child_mid, child_right);
            result.append(rendered_left.as_str());
            if root.left.is_some() {
                let mut rail = left.clone();
                rail.append("  |\n");
                result.append(rail.as_str());
            }
            let mut line = mid.clone();
            line.append("--+ key=");
            proof {
                reveal_strlit("--+ key=");
                assert(line@.len() > 0);
            }
            let key_text = root.key.to_string();
            line.append(key_text.as_str());
            line.append(" height=");
            let height_text = root.height.to_string();
            line.append(height_text.as_str());
            line.append("\n");
            result.append(line.as_str());
            if root.right.is_some() {
                let mut rail = right.clone();
                rail.append("  |\n");
                result.append(rail.as_str());
            }
            let mut child_left = right.clone();
            child_left.append("  |");
            let mut child_mid = right.clone();
            child_mid.append("  +");
            let mut child_right = right.clone();
            child_right.append("   ");
            let rendered_right = self.pretty_node(&root.right, child_left, child_mid, child_right);
            result.append(rendered_right.as_str());
            result
        } else {
            String::new()
        }
    }

    /// Store `value` under `key`. A key already present has its value
    /// overwritten (the documented duplicate policy); insertion never fails.
    /// Rotations may change the root, and cached heights change along the
    /// whole descent path; the tree grows by at most one level.
    ///
    /// The height bound in `requires` only keeps the height arithmetic
    /// within `usize`; any tree that fits in memory satisfies it.
    pub fn insert(&mut self, key: i64, value: V)
        requires
            old(self).well_formed(),
            old(self).spec_height() + 1 < usize::MAX,
        ensures
            final(self).well_formed(),
            final(self)@ == old(self)@.insert(key, value),
            old(self).spec_height() <= final(self).spec_height() <= old(self).spec_height() + 1,
    {
        let old_root = self.root.take();
        let new_root = Self::insert_node(old_root, key, value);
        self.root = Some(new_root);
    }

    /// Recursive step of `insert`: descend to the key's position, create or
    /// overwrite, then rebuild cached heights and rebalance on the way back
    /// up. Returns the possibly new subtree root.
    fn insert_node(root: Option<Box<Node<V>>>, key: i64, value: V) -> (r: Box<Node<V>>)
        requires
            opt_wf(root),
            opt_height(root) + 1 < usize::MAX,
        ensures
            opt_wf(Some(r)),
            opt_map(Some(r)) == opt_map(root).insert(key, value),
            opt_height(root) <= opt_height(Some(r)) <= opt_height(root) + 1,
        decreases root,
    {
        let ghost m0 = opt_map(root);
        let ghost h0 = opt_height(root);
        match root {
            None => {
                let r = Box::new(Node::new(key, value));
                proof {
                    assert(opt_map(Some(r)) =~= m0.insert(key, value));
                    assert(opt_height(Some(r)) == 1);
                }
                r
            },
            Some(node) => {
                let ghost orig = *node;
                let ghost c = opt_height(orig.left);
                let ghost d = opt_height(orig.right);
                proof {
                    assert(h0 == 1 + nat_max(c, d));
                    assert(opt_heights_ok(orig.left) && opt_heights_ok(orig.right));
                    assert(opt_bst(orig.left) && opt_bst(orig.right));
                    assert(opt_balanced(orig.left) && opt_balanced(orig.right));
                    assert(-1 <= c - d <= 1);
                    assert(m0 == opt_map(orig.left).union_prefer_right(opt_map(orig.right)).insert(
                        orig.key,
                        orig.value,
                    ));
                }
                let mut node = node;
                if key < node.key {
                    let l = node.left.take();
                    let new_left = Self::insert_node(l, key, value);
                    let ghost c2 = opt_height(Some(new_left));
                    node.left = Some(new_left);
                    proof {
                        assert(opt_map(node.left) == opt_map(orig.left).insert(key, value));
                        assert(forall|k: i64| opt_map(node.left).dom().contains(k) ==> k
                            < node.key);
                        assert(opt_bst(Some(node)));
                        assert(nat_max(c2, d) + 1 <= h0 + 1);
                    }
                    node.update_height();
                    proof {
                        assert(opt_heights_ok(Some(node)));
                        assert(opt_height(Some(node)) == 1 + nat_max(c2, d));
                        assert(opt_height(Some(node)) < usize::MAX);
                        assert(opt_map(Some(node)) =~= m0.insert(key, value));
                    }
                    let r = rebalance(node);
                    proof {
                        assert(h0 <= opt_height(Some(r)) <= h0 + 1) by {
                            assert(c2 == c || c2 == c + 1);
                            if -1 <= c2 - d <= 1 {
                                assert(opt_height(Some(r)) == 1 + nat_max(c2, d));
                            } else {
                                assert(c2 == c + 1 && d == c - 1);
                            }
                        }
                    }
                    r
                } else if key > node.key {
                    let rc = node.right.take();
                    let new_right = Self::insert_node(rc, key, value);
                    let ghost d2 = opt_height(Some(new_right));
                    node.right = Some(new_right);
                    proof {
                        assert(opt_map(node.right) == opt_map(orig.right).insert(key, value));
                        assert(forall|k: i64| opt_map(node.right).dom().contains(k) ==> k
                            > node.key);
                        assert(opt_bst(Some(node)));
                        assert(nat_max(c, d2) + 1 <= h0 + 1);
                    }
                    node.update_height();
                    proof {
                        assert(opt_heights_ok(Some(node)));
                        assert(opt_height(Some(node)) == 1 + nat_max(c, d2));
                        assert(opt_height(Some(node)) < usize::MAX);
                        assert(opt_map(Some(node)) =~= m0.insert(key, value));
                    }
                    let r = rebalance(node);
                    proof {
                        assert(h0 <= opt_height(Some(r)) <= h0 + 1) by {
                            assert(d2 == d || d2 == d + 1);
                            if -1 <= c - d2 <= 1 {
                                assert(opt_height(Some(r)) == 1 + nat_max(c, d2));
                            } else {
                                assert(d2 == d + 1 && c == d - 1);
                            }
                        }
                    }
                    r
                } else {
                    // Equal key: overwrite the stored value in place; the
                    // shape, heights and balance are untouched.
                    let mut node = node;
                    node.value = value;
                    proof {
                        assert(!opt_map(orig.left).dom().contains(key));
                        assert(!opt_map(orig.right).dom().contains(key));
                        assert(opt_map(Some(node)) =~= m0.insert(key, value));
                        assert(opt_bst(Some(node)));
                        assert(opt_heights_ok(Some(node)));
                        assert(opt_balanced(Some(node)));
                        assert(opt_height(Some(node)) == h0);
                    }
                    node
                }
            },
        }
    }

    /// Look up the value stored under `key`: a pure recursive descent with
    /// no mutation and no height or balance involvement. Absence is a valid
    /// negative answer, not an error: the result is `Some` exactly when the
    /// key is present.
    pub fn find(&self, key: i64) -> (r: Option<&V>)
        requires
            self.well_formed(),
        ensures
            match r {
                Some(v) => lookup(self@, key) == Some(*v),
                None => lookup(self@, key) is None,
            },
    {
        Self::find_node(&self.root, key)
    }

    /// Recursive step of `find`: compare at each node and descend left,
    /// descend right, or stop on a match.
    fn find_node<'a>(root: &'a Option<Box<Node<V>>>, key: i64) -> (r: Option<&'a V>)
        requires
            opt_bst(*root),
        ensures
            match r {
                Some(v) => lookup(opt_map(*root), key) == Some(*v),
                None => lookup(opt_map(*root), key) is None,
            },
        decreases root,
    {
        match root {
            None => None,
            Some(n) => {
                proof {
                    assert(opt_map(*root) == opt_map(n.left).union_prefer_right(
                        opt_map(n.right),
                    ).insert(n.key, n.value));
                }
                if key < n.key {
                    proof {
                        assert(!opt_map(n.right).dom().contains(key));
                        assert(lookup(opt_map(*root), key) == lookup(opt_map(n.left), key));
                    }
                    Self::find_node(&n.left, key)
                } else if key > n.key {
                    proof {
                        assert(!opt_map(n.left).dom().contains(key));
                        assert(lookup(opt_map(*root), key) == lookup(opt_map(n.right), key));
                    }
                    Self::find_node(&n.right, key)
                } else {
                    Some(&n.value)
                }
            },
        }
    }

    /// Remove the record stored under `key`.
    ///
    /// Succeeds exactly when the key is present; on `Error::NotFound` the
    /// tree is returned to its caller unchanged. Removal rebuilds cached
    /// heights and rebalances along the whole search path; the tree shrinks
    /// by at most one level and never grows. The height bound in `requires`
    /// only keeps the height arithmetic within `usize`.
    pub fn delete(&mut self, key: i64) -> (res: Result<(), Error>)
        requires
            old(self).well_formed(),
            old(self).spec_height() < usize::MAX,
        ensures
            final(self).well_formed(),
            match res {
                Ok(_) => old(self)@.dom().contains(key) && final(self)@ == old(self)@.remove(key),
                Err(e) => e == Error::NotFound && !old(self)@.dom().contains(key) && *final(self)
                    == *old(self),
            },
            final(self).spec_height() <= old(self).spec_height(),
    {
        let old_root = self.root.take();
        let (new_root, status) = Self::delete_node(old_root, key);
        self.root = new_root;
        status
    }

    /// Recursive step of `delete`: descend by comparison; an absent subtree
    /// reports `NotFound`, a matching node is removed structurally (the
    /// two-child case promotes the minimum of the right subtree), and each
    /// level on the way back up gets its height recomputed and is
    /// rebalanced. Returns the possibly new subtree beside the outcome.
    fn delete_node(root: Option<Box<Node<V>>>, key: i64) -> (res: (
        Option<Box<Node<V>>>,
        Result<(), Error>,
    ))
        requires
            opt_wf(root),
            opt_height(root) < usize::MAX,
        ensures
            opt_wf(res.0),
            match res.1 {
                Ok(_) => opt_map(root).dom().contains(key) && opt_map(res.0) == opt_map(
                    root,
                ).remove(key) && (opt_height(res.0) == opt_height(root) || opt_height(res.0) + 1
                    == opt_height(root)),
                Err(e) => e == Error::NotFound && !opt_map(root).dom().contains(key) && res.0
                    == root,
            },
        decreases root,
    {
        let ghost m0 = opt_map(root);
        let ghost h0 = opt_height(root);
        match root {
            None => {
                proof {
                    assert(m0 =~= Map::<i64, V>::empty());
                }
                (None, Err(Error::NotFound))
            },
            Some(node) => {
                let ghost orig = *node;
                let ghost c = opt_height(orig.left);
                let ghost d = opt_height(orig.right);
                proof {
                    assert(h0 == 1 + nat_max(c, d));
                    assert(opt_heights_ok(orig.left) && opt_heights_ok(orig.right));
                    assert(opt_bst(orig.left) && opt_bst(orig.right));
                    assert(opt_balanced(orig.left) && opt_balanced(orig.right));
                    assert(-1 <= c - d <= 1);
                    assert(m0 == opt_map(orig.left).union_prefer_right(opt_map(orig.right)).insert(
                        orig.key,
                        orig.value,
                    ));
                }
                let mut node = node;
                if key < node.key {
                    let l = node.left.take();
                    let (new_left, status) = Self::delete_node(l, key);
                    let ghost c2 = opt_height(new_left);
                    node.left = new_left;
                    match status {
                        Err(e) => {
                            proof {
                                assert(!m0.dom().contains(key));
                                assert(*node == orig);
                            }
                            (Some(node), Err(e))
                        },
                        Ok(_) => {
                            proof {
                                assert(opt_map(node.left) == opt_map(orig.left).remove(key));
                                assert(forall|k: i64|
                                    opt_map(node.left).dom().contains(k) ==> k < node.key);
                                assert(opt_bst(Some(node)));
                                assert(nat_max(c2, d) + 1 <= h0);
                            }
                            node.update_height();
                            proof {
                                assert(opt_heights_ok(Some(node)));
                                assert(opt_height(Some(node)) == 1 + nat_max(c2, d));
                                assert(opt_height(Some(node)) < usize::MAX);
                                assert(!opt_map(orig.right).dom().contains(key));
                                assert(key != orig.key);
                                assert(opt_map(Some(node)) =~= m0.remove(key));
                            }
                            let r = rebalance(node);
                            proof {
                                assert(opt_height(Some(r)) == h0 || opt_height(Some(r)) + 1 == h0)
                                    by {
                                    assert(c2 == c || c2 + 1 == c);
                                    if -1 <= c2 - d <= 1 {
                                        assert(opt_height(Some(r)) == 1 + nat_max(c2, d));
                                    } else {
                                        assert(c2 + 2 == d);
                                    }
                                }
                            }
                            (Some(r), Ok(()))
                        },
                    }
                } else if key > node.key {
                    let rc = node.right.take();
                    let (new_right, status) = Self::delete_node(rc, key);
                    let ghost d2 = opt_height(new_right);
                    node.right = new_right;
                    match status {
                        Err(e) => {
                            proof {
                                assert(!m0.dom().contains(key));
                                assert(*node == orig);
                            }
                            (Some(node), Err(e))
                        },
                        Ok(_) => {
                            proof {
                                assert(opt_map(node.right) == opt_map(orig.right).remove(key));
                                assert(forall|k: i64|
                                    opt_map(node.right).dom().contains(k) ==> k > node.key);
                                assert(opt_bst(Some(node)));
                                assert(nat_max(c, d2) + 1 <= h0);
                            }
                            node.update_height();
                            proof {
                                assert(opt_heights_ok(Some(node)));
                                assert(opt_height(Some(node)) == 1 + nat_max(c, d2));
                                assert(opt_height(Some(node)) < usize::MAX);
                                assert(!opt_map(orig.left).dom().contains(key));
                                assert(key != orig.key);
                                assert(opt_map(Some(node)) =~= m0.remove(key));
                            }
                            let r = rebalance(node);
                            proof {
                                assert(opt_height(Some(r)) == h0 || opt_height(Some(r)) + 1 == h0)
                                    by {
                                    assert(d2 == d || d2 + 1 == d);
                                    if -1 <= c - d2 <= 1 {
                                        assert(opt_height(Some(r)) == 1 + nat_max(c, d2));
                                    } else {
                                        assert(d2 + 2 == c);
                                    }
                                }
                            }
                            (Some(r), Ok(()))
                        },
                    }
                } else {
                    // The key is stored here: remove this node, by case on
                    // its children.
                    proof {
                        assert(m0.dom().contains(key));
                        assert(!opt_map(orig.left).dom().contains(key));
                        assert(!opt_map(orig.right).dom().contains(key));
                    }
                    let l = node.left.take();
                    let r = node.right.take();
                    match (l, r) {
                        (None, None) => {
                            proof {
                                assert(opt_map(None::<Box<Node<V>>>) =~= m0.remove(key));
                                assert(h0 == 1);
                            }
                            (None, Ok(()))
                        },
                        (None, Some(rchild)) => {
                            proof {
                                assert(opt_map(orig.left) =~= Map::<i64, V>::empty());
                                assert(c == 0);
                                assert(opt_map(Some(rchild)) =~= m0.remove(key));
                            }
                            (Some(rchild), Ok(()))
                        },
                        (Some(lchild), None) => {
                            proof {
                                assert(opt_map(orig.right) =~= Map::<i64, V>::empty());
                                assert(d == 0);
                                assert(opt_map(Some(lchild)) =~= m0.remove(key));
                            }
                            (Some(lchild), Ok(()))
                        },
                        (Some(lchild), Some(rchild)) => {
                            // Two children: promote the minimum of the right
                            // subtree to stand where the removed node stood.
                            let ghost mr = opt_map(Some(rchild));
                            let (rest, smallest) = take_smallest(rchild);
                            let ghost d2 = opt_height(rest);
                            let mut smallest = smallest;
                            smallest.left = Some(lchild);
                            smallest.right = rest;
                            proof {
                                assert(mr.dom().contains(smallest.key));
                                assert(smallest.key > orig.key);
                                assert(forall|k: i64|
                                    opt_map(smallest.left).dom().contains(k) ==> k
                                    < smallest.key);
                                assert(forall|k: i64|
                                    opt_map(smallest.right).dom().contains(k) ==> k
                                    > smallest.key);
                                assert(opt_bst(Some(smallest)));
                                assert(nat_max(c, d2) + 1 <= h0);
                            }
                            smallest.update_height();
                            proof {
                                assert(opt_heights_ok(Some(smallest)));
                                assert(opt_height(Some(smallest)) == 1 + nat_max(c, d2));
                                assert(opt_height(Some(smallest)) < usize::MAX);
                                assert(!opt_map(orig.left).dom().contains(smallest.key));
                                assert(opt_map(Some(smallest)) =~= m0.remove(key));
                            }
                            let new_root = rebalance(smallest);
                            proof {
                                assert(opt_height(Some(new_root)) == h0 || opt_height(
                                    Some(new_root),
                                ) + 1 == h0) by {
                                    assert(d2 == d || d2 + 1 == d);
                                    if -1 <= c - d2 <= 1 {
                                        assert(opt_height(Some(new_root)) == 1 + nat_max(c, d2));
                                    } else {
                                        assert(d2 + 2 == c);
                                    }
                                }
                            }
                            (Some(new_root), Ok(()))
                        },
                    }
                }
            },
        }
    }
}

} // verus!
