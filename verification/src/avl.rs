//! A height-balanced (AVL) binary search tree over `u32` keys.
//!
//! Every node caches its height; insertion descends recursively and, on the
//! way back up, recomputes heights and applies the classic four-case
//! rebalancing (collapsed into two compound checks on the balance factor,
//! height of the left subtree minus height of the right one).

use vstd::prelude::*;

verus! {

/// One node: a value, the two owned subtrees, and the cached height.
#[allow(non_camel_case_types)]
pub struct AVL_Tree_Node {
    pub value: u32,
    pub left: Option<Box<AVL_Tree_Node>>,
    pub right: Option<Box<AVL_Tree_Node>>,
    pub height: u64,
}

/// The tree itself: an optional owned root. A tree with no root is empty.
#[allow(non_camel_case_types)]
pub struct AVL_Tree {
    pub root: Option<Box<AVL_Tree_Node>>,
}

/// `k` occurs somewhere in the subtree `t`.
pub open spec fn tree_contains(t: Option<Box<AVL_Tree_Node>>, k: u32) -> bool
    decreases t,
{
    match t {
        None => false,
        Some(n) => k == n.value || tree_contains(n.left, k) || tree_contains(n.right, k),
    }
}

/// Binary-search-tree ordering: every value of `t` lies strictly between
/// `lo` and `hi`, and each node separates its subtrees.
pub open spec fn bst_between(t: Option<Box<AVL_Tree_Node>>, lo: int, hi: int) -> bool
    decreases t,
{
    match t {
        None => true,
        Some(n) => lo < n.value < hi
            && bst_between(n.left, lo, n.value as int)
            && bst_between(n.right, n.value as int, hi),
    }
}

/// The height computed structurally: an absent subtree has height 0, a node
/// one more than its taller subtree.
pub open spec fn true_height(t: Option<Box<AVL_Tree_Node>>) -> nat
    decreases t,
{
    match t {
        None => 0,
        Some(n) => 1 + if true_height(n.left) >= true_height(n.right) {
            true_height(n.left)
        } else {
            true_height(n.right)
        },
    }
}

/// Every cached height agrees with the structural one.
pub open spec fn heights_ok(t: Option<Box<AVL_Tree_Node>>) -> bool
    decreases t,
{
    match t {
        None => true,
        Some(n) => heights_ok(n.left) && heights_ok(n.right)
            && n.height == true_height(Some(n)),
    }
}

/// Every node's balance factor lies in `{-1, 0, 1}`.
pub open spec fn balanced(t: Option<Box<AVL_Tree_Node>>) -> bool
    decreases t,
{
    match t {
        None => true,
        Some(n) => balanced(n.left) && balanced(n.right)
            && -1 <= true_height(n.left) - true_height(n.right) <= 1,
    }
}

/// The full height-balance discipline: correct cached heights and bounded
/// balance factors, everywhere.
pub open spec fn avl_ok(t: Option<Box<AVL_Tree_Node>>) -> bool {
    heights_ok(t) && balanced(t)
}

/// Keys of `t` in left-to-right (ascending, under `bst_between`) order.
pub open spec fn in_order(t: Option<Box<AVL_Tree_Node>>) -> Seq<u32>
    decreases t,
{
    match t {
        None => Seq::empty(),
        Some(n) => in_order(n.left) + seq![n.value] + in_order(n.right),
    }
}

/// Number of nodes with no children; an empty tree has none.
pub open spec fn leaf_count_of(t: Option<Box<AVL_Tree_Node>>) -> nat
    decreases t,
{
    match t {
        None => 0,
        Some(n) => if n.left is None && n.right is None {
            1nat
        } else {
            leaf_count_of(n.left) + leaf_count_of(n.right)
        },
    }
}

/// Total number of nodes.
pub open spec fn size_of(t: Option<Box<AVL_Tree_Node>>) -> nat
    decreases t,
{
    match t {
        None => 0,
        Some(n) => 1 + size_of(n.left) + size_of(n.right),
    }
}

/// Every value of a subtree obeying `bst_between(t, lo, hi)` lies in `(lo, hi)`.
pub proof fn lemma_bst_keys_bounded(t: Option<Box<AVL_Tree_Node>>, lo: int, hi: int)
    requires
        bst_between(t, lo, hi),
    ensures
        forall|k: u32| tree_contains(t, k) ==> lo < k < hi,
    decreases t,
{
    assert forall|k: u32| tree_contains(t, k) implies lo < k < hi by {
        match t {
            None => {}
            Some(n) => {
                lemma_bst_keys_bounded(n.left, lo, n.value as int);
                lemma_bst_keys_bounded(n.right, n.value as int, hi);
                if k == n.value {
                } else if tree_contains(n.left, k) {
                    assert(lo < k < n.value);
                } else {
                    assert(tree_contains(n.right, k));
                }
            }
        }
    }
}

/// A subtree whose values all lie in `(lo, hi)` has at most `hi - lo - 1` nodes.
pub proof fn lemma_size_bound(t: Option<Box<AVL_Tree_Node>>, lo: int, hi: int)
    requires
        bst_between(t, lo, hi),
        lo < hi,
    ensures
        size_of(t) <= hi - lo - 1,
    decreases t,
{
    match t {
        None => {}
        Some(n) => {
            lemma_size_bound(n.left, lo, n.value as int);
            lemma_size_bound(n.right, n.value as int, hi);
        }
    }
}

/// Height never exceeds the node count.
pub proof fn lemma_height_le_size(t: Option<Box<AVL_Tree_Node>>)
    ensures
        true_height(t) <= size_of(t),
    decreases t,
{
    match t {
        None => {}
        Some(n) => {
            lemma_height_le_size(n.left);
            lemma_height_le_size(n.right);
        }
    }
}

/// Leaf count never exceeds the node count.
pub proof fn lemma_leaf_count_le_size(t: Option<Box<AVL_Tree_Node>>)
    ensures
        leaf_count_of(t) <= size_of(t),
    decreases t,
{
    match t {
        None => {}
        Some(n) => {
            lemma_leaf_count_le_size(n.left);
            lemma_leaf_count_le_size(n.right);
        }
    }
}

impl AVL_Tree_Node {
    /// A fresh unit-height leaf holding `value`.
    pub fn new(value: u32) -> (n: Box<AVL_Tree_Node>)
        ensures
            n.value == value,
            n.left is None,
            n.right is None,
            n.height == 1,
    {
        Box::new(AVL_Tree_Node { value, left: None, right: None, height: 1 })
    }
}

/// Cached height of a subtree: 0 when absent.
fn height_avl(node: &Option<Box<AVL_Tree_Node>>) -> (r: u64)
    requires
        heights_ok(*node),
    ensures
        r == true_height(*node),
{
    match node {
        None => 0,
        Some(n) => n.height,
    }
}

/// Recomputes and stores the node's height from its children's cached
/// heights. The children's structural heights must already fit their caches.
fn set_height_avl(node: &mut Box<AVL_Tree_Node>)
    requires
        heights_ok(old(node).left),
        heights_ok(old(node).right),
        true_height(old(node).left) < 0x1_0000_0000_0000,
        true_height(old(node).right) < 0x1_0000_0000_0000,
    ensures
        final(node).value == old(node).value,
        final(node).left == old(node).left,
        final(node).right == old(node).right,
        final(node).height == true_height(Some(*final(node))),
        heights_ok(Some(*final(node))),
{
    let hl = height_avl(&node.left);
    let hr = height_avl(&node.right);
    let h = if hl >= hr {
        hl
    } else {
        hr
    };
    node.height = h + 1;
}

/// Balance factor of a present node: left height minus right height.
fn get_balancing_factor(node: &Option<Box<AVL_Tree_Node>>) -> (r: i64)
    requires
        node is Some,
        heights_ok(node.unwrap().left),
        heights_ok(node.unwrap().right),
        true_height(node.unwrap().left) < 0x1_0000_0000,
        true_height(node.unwrap().right) < 0x1_0000_0000,
    ensures
        r == true_height(node.unwrap().left) - true_height(node.unwrap().right),
{
    let n = node.as_ref().unwrap();
    let hl = height_avl(&n.left);
    let hr = height_avl(&n.right);
    (hl as i64) - (hr as i64)
}

/// Standard right rotation with height upkeep: the left child rises, the
/// node descends to its right, and both rotated nodes store fresh heights
/// (child first, then the risen parent).
fn rotate_avl_right(node: Option<Box<AVL_Tree_Node>>) -> (r: Box<AVL_Tree_Node>)
    requires
        node is Some,
        node.unwrap().left is Some,
        heights_ok(node.unwrap().left.unwrap().left),
        heights_ok(node.unwrap().left.unwrap().right),
        heights_ok(node.unwrap().right),
        true_height(node.unwrap().left) < 0x1_0000_0000,
        true_height(node.unwrap().right) < 0x1_0000_0000,
    ensures
        r.value == node.unwrap().left.unwrap().value,
        r.left == node.unwrap().left.unwrap().left,
        r.right is Some,
        r.right.unwrap().value == node.unwrap().value,
        r.right.unwrap().left == node.unwrap().left.unwrap().right,
        r.right.unwrap().right == node.unwrap().right,
        heights_ok(Some(r)),
{
    let mut g = node.unwrap();
    let mut x = g.left.take().unwrap();
    g.left = x.right.take();
    set_height_avl(&mut g);
    x.right = Some(g);
    set_height_avl(&mut x);
    x
}

/// Mirror image of `rotate_avl_right`.
fn rotate_avl_left(node: Option<Box<AVL_Tree_Node>>) -> (r: Box<AVL_Tree_Node>)
    requires
        node is Some,
        node.unwrap().right is Some,
        heights_ok(node.unwrap().right.unwrap().left),
        heights_ok(node.unwrap().right.unwrap().right),
        heights_ok(node.unwrap().left),
        true_height(node.unwrap().left) < 0x1_0000_0000,
        true_height(node.unwrap().right) < 0x1_0000_0000,
    ensures
        r.value == node.unwrap().right.unwrap().value,
        r.right == node.unwrap().right.unwrap().right,
        r.left is Some,
        r.left.unwrap().value == node.unwrap().value,
        r.left.unwrap().right == node.unwrap().right.unwrap().left,
        r.left.unwrap().left == node.unwrap().left,
        heights_ok(Some(r)),
{
    let mut g = node.unwrap();
    let mut x = g.right.take().unwrap();
    g.right = x.left.take();
    set_height_avl(&mut g);
    x.left = Some(g);
    set_height_avl(&mut x);
    x
}

/// Rebalances a node whose subtrees are in balance but whose own balance
/// factor may have drifted to ±2 after an insertion below. Recomputes the
/// cached height, then applies the classic compound checks: a factor of −2
/// rotates left (preceded by a right rotation of the right child when that
/// child leans left), a factor of +2 mirrors this, anything else stands.
fn balance_node_avl(n: Box<AVL_Tree_Node>, Ghost(lo): Ghost<int>, Ghost(hi): Ghost<int>) -> (r: Box<
    AVL_Tree_Node,
>)
    requires
        avl_ok(n.left),
        avl_ok(n.right),
        -2 <= true_height(n.left) - true_height(n.right) <= 2,
        bst_between(n.left, lo, n.value as int),
        bst_between(n.right, n.value as int, hi),
        lo < n.value < hi,
        true_height(n.left) < 0x1_0000_0000,
        true_height(n.right) < 0x1_0000_0000,
    ensures
        bst_between(Some(r), lo, hi),
        avl_ok(Some(r)),
        forall|k: u32|
            tree_contains(Some(r), k) <==> k == n.value || tree_contains(n.left, k)
                || tree_contains(n.right, k),
        ({
            let big = if true_height(n.left) >= true_height(n.right) {
                true_height(n.left) as int
            } else {
                true_height(n.right) as int
            };
            (true_height(Some(r)) == big + 1 || true_height(Some(r)) == big)
                && (-1 <= true_height(n.left) - true_height(n.right) <= 1
                    ==> true_height(Some(r)) == big + 1)
        }),
        // a node already in balance keeps its structure: only the cached
        // height is refreshed
        -1 <= true_height(n.left) - true_height(n.right) <= 1 ==> r.value == n.value
            && r.left == n.left && r.right == n.right,
        // right-heavy, right child not leaning left: one left rotation
        // lifts the right child
        ({
            let rv = n.right.unwrap();
            (true_height(n.left) - true_height(n.right) == -2 && true_height(rv.left)
                <= true_height(rv.right)) ==> r.value == rv.value && r.right == rv.right
                && r.left is Some && r.left.unwrap().value == n.value
                && r.left.unwrap().left == n.left && r.left.unwrap().right == rv.left
        }),
        // right-heavy, right child leaning left: the right child is first
        // rotated right and reattached, then one left rotation lifts the
        // risen grandchild
        ({
            let rv = n.right.unwrap();
            let cv = rv.left.unwrap();
            (true_height(n.left) - true_height(n.right) == -2 && true_height(rv.left)
                > true_height(rv.right)) ==> r.value == cv.value && r.left is Some
                && r.left.unwrap().value == n.value && r.left.unwrap().left == n.left
                && r.left.unwrap().right == cv.left && r.right is Some
                && r.right.unwrap().value == rv.value && r.right.unwrap().left == cv.right
                && r.right.unwrap().right == rv.right
        }),
        // left-heavy, left child not leaning right: one right rotation
        // lifts the left child
        ({
            let lv = n.left.unwrap();
            (true_height(n.left) - true_height(n.right) == 2 && true_height(lv.right)
                <= true_height(lv.left)) ==> r.value == lv.value && r.left == lv.left
                && r.right is Some && r.right.unwrap().value == n.value
                && r.right.unwrap().right == n.right && r.right.unwrap().left == lv.right
        }),
        // left-heavy, left child leaning right: the left child is first
        // rotated left and reattached, then one right rotation lifts the
        // risen grandchild
        ({
            let lv = n.left.unwrap();
            let cv = lv.right.unwrap();
            (true_height(n.left) - true_height(n.right) == 2 && true_height(lv.right)
                > true_height(lv.left)) ==> r.value == cv.value && r.right is Some
                && r.right.unwrap().value == n.value && r.right.unwrap().right == n.right
                && r.right.unwrap().left == cv.right && r.left is Some
                && r.left.unwrap().value == lv.value && r.left.unwrap().left == lv.left
                && r.left.unwrap().right == cv.left
        }),
{
    let mut n = n;
    let ghost n0 = n;
    set_height_avl(&mut n);
    let hl = height_avl(&n.left);
    let hr = height_avl(&n.right);
    let bf = (hl as i64) - (hr as i64);
    if bf == -2 {
        if get_balancing_factor(&n.right) > 0 {
            let right = n.right.take();
            let ghost rv = right.unwrap();
            proof {
                // the right child leans left, so its left child exists and
                // carries the surplus height
                assert(heights_ok(rv.left) && balanced(rv.left));
                assert(true_height(rv.left) == true_height(rv.right) + 1);
                assert(rv.left is Some);
                assert(heights_ok(rv.left.unwrap().left));
                assert(heights_ok(rv.left.unwrap().right));
                assert(bst_between(rv.left, n0.value as int, rv.value as int));
            }
            let r2 = rotate_avl_right(right);
            proof {
                let cv = rv.left.unwrap();
                assert(r2.value == cv.value && r2.left == cv.left);
                let inner = r2.right.unwrap();
                assert(inner.value == rv.value && inner.left == cv.right
                    && inner.right == rv.right);
                assert(true_height(cv.left) <= true_height(rv.right)
                    && true_height(cv.right) <= true_height(rv.right));
                assert(true_height(r2.right) == true_height(rv.right) + 1);
                assert(true_height(Some(r2)) == true_height(n0.right));
                assert(bst_between(Some(cv), n0.value as int, rv.value as int));
                assert(bst_between(r2.right, cv.value as int, hi));
                assert(bst_between(Some(r2), n0.value as int, hi));
            }
            n.right = Some(r2);
            let out = rotate_avl_left(Some(n));
            proof {
                let cv = rv.left.unwrap();
                let outl = out.left.unwrap();
                // out lifts cv's key; below it stand n0's node over
                // (n0.left, cv.left) and rv's node over (cv.right, rv.right)
                assert(outl.value == n0.value && outl.left == n0.left);
                assert(true_height(outl.right) <= true_height(n0.left));
                assert(true_height(out.left) == true_height(n0.left) + 1);
                assert(true_height(out.right) == true_height(n0.left) + 1);
                assert(balanced(out.left) && balanced(out.right));
                assert(balanced(Some(out)));
                assert(bst_between(n0.left, lo, n0.value as int));
                assert(bst_between(Some(outl), lo, cv.value as int));
                assert(bst_between(Some(out), lo, hi));
                assert(avl_ok(Some(out)));
                assert forall|k: u32|
                    tree_contains(Some(out), k) <==> k == n0.value || tree_contains(
                        n0.left, k) || tree_contains(n0.right, k) by {
                    let lifted = out.left.unwrap();
                    assert(tree_contains(Some(out), k) == (k == out.value
                        || tree_contains(out.left, k) || tree_contains(out.right, k)));
                    assert(tree_contains(out.left, k) == (k == lifted.value
                        || tree_contains(lifted.left, k) || tree_contains(lifted.right, k)));
                    assert(tree_contains(Some(r2), k) == (k == r2.value
                        || tree_contains(r2.left, k) || tree_contains(r2.right, k)));
                    assert(tree_contains(r2.right, k) == (k == rv.value
                        || tree_contains(rv.left.unwrap().right, k) || tree_contains(
                        rv.right, k)));
                    assert(tree_contains(n0.right, k) == (k == rv.value
                        || tree_contains(rv.left, k) || tree_contains(rv.right, k)));
                    assert(tree_contains(rv.left, k) == (k == rv.left.unwrap().value
                        || tree_contains(rv.left.unwrap().left, k) || tree_contains(
                        rv.left.unwrap().right, k)));
                }
            }
            out
        } else {
            let out = rotate_avl_left(Some(n));
            proof {
                let rv = n0.right.unwrap();
                let outl = out.left.unwrap();
                // out lifts rv's key; n0's node descends over
                // (n0.left, rv.left), rv.right stays in place
                assert(outl.value == n0.value && outl.left == n0.left
                    && outl.right == rv.left);
                assert(true_height(rv.right) == true_height(n0.left) + 1);
                assert(true_height(rv.left) <= true_height(n0.left) + 1);
                assert(balanced(out.left) && balanced(out.right));
                assert(balanced(Some(out)));
                assert(bst_between(n0.left, lo, n0.value as int));
                assert(bst_between(rv.left, n0.value as int, rv.value as int));
                assert(bst_between(Some(outl), lo, rv.value as int));
                assert(bst_between(Some(out), lo, hi));
                assert(avl_ok(Some(out)));
                assert forall|k: u32|
                    tree_contains(Some(out), k) <==> k == n0.value || tree_contains(
                        n0.left, k) || tree_contains(n0.right, k) by {
                    let lifted = out.left.unwrap();
                    assert(tree_contains(Some(out), k) == (k == out.value
                        || tree_contains(out.left, k) || tree_contains(out.right, k)));
                    assert(tree_contains(out.left, k) == (k == lifted.value
                        || tree_contains(lifted.left, k) || tree_contains(lifted.right, k)));
                    assert(tree_contains(n0.right, k) == (k == rv.value
                        || tree_contains(rv.left, k) || tree_contains(rv.right, k)));
                }
            }
            out
        }
    } else if bf == 2 {
        if get_balancing_factor(&n.left) < 0 {
            let left = n.left.take();
            let ghost lv = left.unwrap();
            proof {
                // the left child leans right, so its right child exists and
                // carries the surplus height
                assert(heights_ok(lv.right) && balanced(lv.right));
                assert(true_height(lv.right) == true_height(lv.left) + 1);
                assert(lv.right is Some);
                assert(heights_ok(lv.right.unwrap().left));
                assert(heights_ok(lv.right.unwrap().right));
                assert(bst_between(lv.right, lv.value as int, n0.value as int));
            }
            let l2 = rotate_avl_left(left);
            proof {
                let cv = lv.right.unwrap();
                assert(l2.value == cv.value && l2.right == cv.right);
                let inner = l2.left.unwrap();
                assert(inner.value == lv.value && inner.right == cv.left
                    && inner.left == lv.left);
                assert(true_height(cv.left) <= true_height(lv.left)
                    && true_height(cv.right) <= true_height(lv.left));
                assert(true_height(l2.left) == true_height(lv.left) + 1);
                assert(true_height(Some(l2)) == true_height(n0.left));
                assert(bst_between(Some(cv), lv.value as int, n0.value as int));
                assert(bst_between(l2.left, lo, cv.value as int));
                assert(bst_between(Some(l2), lo, n0.value as int));
            }
            n.left = Some(l2);
            let out = rotate_avl_right(Some(n));
            proof {
                let cv = lv.right.unwrap();
                let outr = out.right.unwrap();
                // out lifts cv's key; below it stand lv's node over
                // (lv.left, cv.left) and n0's node over (cv.right, n0.right)
                assert(outr.value == n0.value && outr.right == n0.right);
                assert(true_height(outr.left) <= true_height(n0.right));
                assert(true_height(out.right) == true_height(n0.right) + 1);
                assert(true_height(out.left) == true_height(n0.right) + 1);
                assert(balanced(out.left) && balanced(out.right));
                assert(balanced(Some(out)));
                assert(bst_between(n0.right, n0.value as int, hi));
                assert(bst_between(Some(outr), cv.value as int, hi));
                assert(bst_between(Some(out), lo, hi));
                assert(avl_ok(Some(out)));
                assert forall|k: u32|
                    tree_contains(Some(out), k) <==> k == n0.value || tree_contains(
                        n0.left, k) || tree_contains(n0.right, k) by {
                    let sunk = out.right.unwrap();
                    assert(tree_contains(Some(out), k) == (k == out.value
                        || tree_contains(out.left, k) || tree_contains(out.right, k)));
                    assert(tree_contains(out.right, k) == (k == sunk.value
                        || tree_contains(sunk.left, k) || tree_contains(sunk.right, k)));
                    assert(tree_contains(Some(l2), k) == (k == l2.value
                        || tree_contains(l2.left, k) || tree_contains(l2.right, k)));
                    assert(tree_contains(l2.left, k) == (k == lv.value
                        || tree_contains(lv.left, k) || tree_contains(
                        lv.right.unwrap().left, k)));
                    assert(tree_contains(n0.left, k) == (k == lv.value
                        || tree_contains(lv.left, k) || tree_contains(lv.right, k)));
                    assert(tree_contains(lv.right, k) == (k == lv.right.unwrap().value
                        || tree_contains(lv.right.unwrap().left, k) || tree_contains(
                        lv.right.unwrap().right, k)));
                }
            }
            out
        } else {
            let out = rotate_avl_right(Some(n));
            proof {
                let lv = n0.left.unwrap();
                let outr = out.right.unwrap();
                // out lifts lv's key; n0's node descends over
                // (lv.right, n0.right), lv.left stays in place
                assert(outr.value == n0.value && outr.right == n0.right
                    && outr.left == lv.right);
                assert(true_height(lv.left) == true_height(n0.right) + 1);
                assert(true_height(lv.right) <= true_height(n0.right) + 1);
                assert(balanced(out.left) && balanced(out.right));
                assert(balanced(Some(out)));
                assert(bst_between(n0.right, n0.value as int, hi));
                assert(bst_between(lv.right, lv.value as int, n0.value as int));
                assert(bst_between(Some(outr), lv.value as int, hi));
                assert(bst_between(Some(out), lo, hi));
                assert(avl_ok(Some(out)));
                assert forall|k: u32|
                    tree_contains(Some(out), k) <==> k == n0.value || tree_contains(
                        n0.left, k) || tree_contains(n0.right, k) by {
                    let sunk = out.right.unwrap();
                    assert(tree_contains(Some(out), k) == (k == out.value
                        || tree_contains(out.left, k) || tree_contains(out.right, k)));
                    assert(tree_contains(out.right, k) == (k == sunk.value
                        || tree_contains(sunk.left, k) || tree_contains(sunk.right, k)));
                    assert(tree_contains(n0.left, k) == (k == lv.value
                        || tree_contains(lv.left, k) || tree_contains(lv.right, k)));
                }
            }
            out
        }
    } else {
        n
    }
}

/// Recursive insertion: descend by comparison, place a unit-height leaf at
/// the first empty position, and rebalance every frame on the way back up.
/// A value already present leaves the subtree unchanged. The subtree's
/// height grows by at most one.
fn ins_avl(t: Option<Box<AVL_Tree_Node>>, value: u32, Ghost(lo): Ghost<int>, Ghost(hi): Ghost<int>) -> (r: Box<
    AVL_Tree_Node,
>)
    requires
        bst_between(t, lo, hi),
        avl_ok(t),
        lo < value < hi,
        -1 <= lo,
        hi <= 0x1_0000_0000,
    ensures
        bst_between(Some(r), lo, hi),
        avl_ok(Some(r)),
        forall|k: u32| tree_contains(Some(r), k) <==> tree_contains(t, k) || k == value,
        true_height(Some(r)) == true_height(t) || true_height(Some(r)) == true_height(t)
            + 1,
        tree_contains(t, value) ==> t == Some(r),
    decreases t,
{
    match t {
        None => {
            let n = AVL_Tree_Node::new(value);
            proof {
                assert(bst_between(n.left, lo, value as int));
                assert(bst_between(n.right, value as int, hi));
                assert(heights_ok(n.left) && heights_ok(n.right));
                assert(balanced(n.left) && balanced(n.right));
                assert(true_height(Some(n)) == 1);
                assert forall|k: u32|
                    tree_contains(Some(n), k) <==> tree_contains(t, k) || k == value by {
                    assert(!tree_contains(n.left, k) && !tree_contains(n.right, k));
                }
            }
            n
        }
        Some(n) => {
            let mut n = n;
            let ghost n0 = n;
            if value < n.value {
                proof {
                    lemma_size_bound(n.left, lo, n.value as int);
                    lemma_height_le_size(n.left);
                    lemma_size_bound(n.right, n.value as int, hi);
                    lemma_height_le_size(n.right);
                    lemma_bst_keys_bounded(n.right, n.value as int, hi);
                }
                let l2 = ins_avl(n.left.take(), value, Ghost(lo), Ghost(n.value as int));
                n.left = Some(l2);
                let out = balance_node_avl(n, Ghost(lo), Ghost(hi));
                proof {
                    assert forall|k: u32|
                        tree_contains(Some(out), k) <==> tree_contains(Some(n0), k) || k
                            == value by {
                        assert(tree_contains(Some(n0), k) == (k == n0.value
                            || tree_contains(n0.left, k) || tree_contains(n0.right, k)));
                    }
                    if tree_contains(Some(n0), value) {
                        // the value was already below on the left, so every
                        // frame handed its subtree back unchanged
                        assert(tree_contains(Some(n0), value) == (value == n0.value
                            || tree_contains(n0.left, value) || tree_contains(
                            n0.right, value)));
                        assert(tree_contains(n0.left, value));
                        assert(n0.left == Some(l2));
                        assert(n == n0);
                        assert(out.value == n0.value && out.left == n0.left
                            && out.right == n0.right);
                        assert(true_height(Some(out)) == true_height(Some(n0)));
                        assert(out.height == n0.height);
                        assert(out == n0);
                    }
                }
                out
            } else if value > n.value {
                proof {
                    lemma_size_bound(n.left, lo, n.value as int);
                    lemma_height_le_size(n.left);
                    lemma_size_bound(n.right, n.value as int, hi);
                    lemma_height_le_size(n.right);
                    lemma_bst_keys_bounded(n.left, lo, n.value as int);
                }
                let r2 = ins_avl(n.right.take(), value, Ghost(n.value as int), Ghost(hi));
                n.right = Some(r2);
                let out = balance_node_avl(n, Ghost(lo), Ghost(hi));
                proof {
                    assert forall|k: u32|
                        tree_contains(Some(out), k) <==> tree_contains(Some(n0), k) || k
                            == value by {
                        assert(tree_contains(Some(n0), k) == (k == n0.value
                            || tree_contains(n0.left, k) || tree_contains(n0.right, k)));
                    }
                    if tree_contains(Some(n0), value) {
                        // the value was already below on the right, so every
                        // frame handed its subtree back unchanged
                        assert(tree_contains(Some(n0), value) == (value == n0.value
                            || tree_contains(n0.left, value) || tree_contains(
                            n0.right, value)));
                        assert(tree_contains(n0.right, value));
                        assert(n0.right == Some(r2));
                        assert(n == n0);
                        assert(out.value == n0.value && out.left == n0.left
                            && out.right == n0.right);
                        assert(true_height(Some(out)) == true_height(Some(n0)));
                        assert(out.height == n0.height);
                        assert(out == n0);
                    }
                }
                out
            } else {
                // The value is already present: the tree is left as it is.
                proof {
                    assert(tree_contains(Some(n0), value));
                }
                n
            }
        }
    }
}

impl AVL_Tree {
    /// All invariants of a tree in service: search ordering over the full
    /// key range and the height-balance discipline.
    pub open spec fn wf(self) -> bool {
        &&& bst_between(self.root, -1, 0x1_0000_0000)
        &&& avl_ok(self.root)
    }

    /// The key `k` is held by the tree.
    pub open spec fn contains_key(self, k: u32) -> bool {
        tree_contains(self.root, k)
    }

    /// The tree's keys in ascending order.
    pub open spec fn in_order_spec(self) -> Seq<u32> {
        in_order(self.root)
    }

    /// Creates the empty tree.
    pub fn new() -> (t: Self)
        ensures
            t.wf(),
            t.root is None,
    {
        AVL_Tree { root: None }
    }

    /// Inserts `value`, rebalancing as needed; a value already present
    /// leaves the tree unchanged.
    pub fn insert_val_avl(&mut self, value: u32)
        requires
            old(self).wf(),
        ensures
            final(self).wf(),
            forall|k: u32|
                final(self).contains_key(k) <==> old(self).contains_key(k) || k == value,
            old(self).contains_key(value) ==> *final(self) == *old(self),
    {
        let root = self.root.take();
        let r = ins_avl(root, value, Ghost(-1), Ghost(0x1_0000_0000));
        self.root = Some(r);
    }

    /// Standard binary search, guided by the ordering invariant.
    pub fn is_node_exists_avl(&self, value: u32) -> (r: bool)
        requires
            self.wf(),
        ensures
            r == self.contains_key(value),
    {
        contains_rec(&self.root, value, Ghost(-1), Ghost(0x1_0000_0000))
    }

    /// Counts the nodes that have no children.
    pub fn count_leaves_avl(&self) -> (r: u64)
        requires
            self.wf(),
        ensures
            r == leaf_count_of(self.root),
    {
        proof {
            lemma_size_bound(self.root, -1, 0x1_0000_0000);
        }
        count_leaves_rec(&self.root)
    }

    /// Length of the longest root-to-leaf path, in nodes, computed by
    /// structural recursion rather than from the cached heights.
    pub fn height_of_tree_avl(&self) -> (r: u64)
        requires
            self.wf(),
        ensures
            r == true_height(self.root),
    {
        proof {
            lemma_size_bound(self.root, -1, 0x1_0000_0000);
            lemma_height_le_size(self.root);
        }
        height_rec(&self.root)
    }

    /// The tree is empty exactly when it has no root.
    pub fn is_tree_empty_avl(&self) -> (r: bool)
        ensures
            r == (self.root is None),
    {
        self.root.is_none()
    }

    /// The keys in ascending order, smallest first.
    pub fn in_order_traversal_avl(&self) -> (v: Vec<u32>)
        ensures
            v@ == self.in_order_spec(),
    {
        let mut v: Vec<u32> = Vec::new();
        in_order_rec(&self.root, &mut v);
        v
    }

    /// A structural listing for rendering: each node before its subtrees,
    /// left before right, each entry carrying its value and its depth below
    /// the root.
    pub fn structure_avl(&self) -> (v: Vec<(u32, u64)>)
        requires
            self.wf(),
        ensures
            v@ == structure_of(self.root, 0),
    {
        proof {
            lemma_size_bound(self.root, -1, 0x1_0000_0000);
            lemma_height_le_size(self.root);
        }
        let mut v: Vec<(u32, u64)> = Vec::new();
        structure_rec(&self.root, 0, &mut v);
        v
    }
}

/// Recursive binary search within the bounds `(lo, hi)`.
fn contains_rec(t: &Option<Box<AVL_Tree_Node>>, value: u32, Ghost(lo): Ghost<int>, Ghost(hi): Ghost<int>) -> (r: bool)
    requires
        bst_between(*t, lo, hi),
    ensures
        r == tree_contains(*t, value),
    decreases *t,
{
    match t {
        None => false,
        Some(n) => {
            if value == n.value {
                true
            } else if value > n.value {
                proof {
                    lemma_bst_keys_bounded(n.left, lo, n.value as int);
                    assert(!tree_contains(n.left, value));
                }
                contains_rec(&n.right, value, Ghost(n.value as int), Ghost(hi))
            } else {
                proof {
                    lemma_bst_keys_bounded(n.right, n.value as int, hi);
                    assert(!tree_contains(n.right, value));
                }
                contains_rec(&n.left, value, Ghost(lo), Ghost(n.value as int))
            }
        }
    }
}

/// Recursive leaf count; the size bound keeps the sum well inside `u64`.
fn count_leaves_rec(t: &Option<Box<AVL_Tree_Node>>) -> (r: u64)
    requires
        size_of(*t) < 0x1_0000_0000_0000,
    ensures
        r == leaf_count_of(*t),
    decreases *t,
{
    match t {
        None => 0,
        Some(n) => {
            if n.left.is_none() && n.right.is_none() {
                1
            } else {
                proof {
                    lemma_leaf_count_le_size(n.left);
                    lemma_leaf_count_le_size(n.right);
                }
                count_leaves_rec(&n.left) + count_leaves_rec(&n.right)
            }
        }
    }
}

/// Recursive height; the size bound keeps the count well inside `u64`.
fn height_rec(t: &Option<Box<AVL_Tree_Node>>) -> (r: u64)
    requires
        true_height(*t) < 0x1_0000_0000_0000,
    ensures
        r == true_height(*t),
    decreases *t,
{
    match t {
        None => 0,
        Some(n) => {
            let hl = height_rec(&n.left);
            let hr = height_rec(&n.right);
            if hl >= hr {
                hl + 1
            } else {
                hr + 1
            }
        }
    }
}

/// In-order walk appending to `out`.
fn in_order_rec(t: &Option<Box<AVL_Tree_Node>>, out: &mut Vec<u32>)
    ensures
        final(out)@ == old(out)@ + in_order(*t),
    decreases *t,
{
    match t {
        None => {
            proof {
                assert(out@ =~= old(out)@ + in_order(*t));
            }
        }
        Some(n) => {
            in_order_rec(&n.left, out);
            out.push(n.value);
            in_order_rec(&n.right, out);
            proof {
                assert(out@ =~= old(out)@ + in_order(*t));
            }
        }
    }
}

/// The structural listing of `t` when its root stands at depth `d`: the
/// node first, then the left subtree, then the right one.
pub open spec fn structure_of(t: Option<Box<AVL_Tree_Node>>, d: int) -> Seq<(u32, u64)>
    decreases t,
{
    match t {
        None => Seq::empty(),
        Some(n) => seq![(n.value, d as u64)] + structure_of(n.left, d + 1)
            + structure_of(n.right, d + 1),
    }
}

/// Pre-order walk with depths, appending to `out`.
fn structure_rec(t: &Option<Box<AVL_Tree_Node>>, depth: u64, out: &mut Vec<(u32, u64)>)
    requires
        depth + true_height(*t) < 0x1_0000_0000_0000,
    ensures
        final(out)@ == old(out)@ + structure_of(*t, depth as int),
    decreases *t,
{
    match t {
        None => {
            proof {
                assert(out@ =~= old(out)@ + structure_of(*t, depth as int));
            }
        }
        Some(n) => {
            out.push((n.value, depth));
            structure_rec(&n.left, depth + 1, out);
            structure_rec(&n.right, depth + 1, out);
            proof {
                assert(out@ =~= old(out)@ + structure_of(*t, depth as int));
            }
        }
    }
}

/// Under the search ordering, the in-order listing is strictly ascending and
/// every listed key lies in `(lo, hi)`.
pub proof fn lemma_in_order_sorted(t: Option<Box<AVL_Tree_Node>>, lo: int, hi: int)
    ensures
        bst_between(t, lo, hi) ==> crate::order::sorted_strict(in_order(t))
            && (forall|i: int|
                0 <= i < in_order(t).len() ==> lo < #[trigger] in_order(t)[i] < hi),
    decreases t,
{
    if bst_between(t, lo, hi) {
        match t {
            None => {}
            Some(n) => {
                lemma_in_order_sorted(n.left, lo, n.value as int);
                lemma_in_order_sorted(n.right, n.value as int, hi);
                crate::order::lemma_sorted_concat(
                    in_order(n.left),
                    n.value,
                    in_order(n.right),
                );
                assert forall|i: int|
                    0 <= i < in_order(t).len() implies lo < #[trigger] in_order(t)[i]
                    < hi by {
                    let a = in_order(n.left);
                    let b = in_order(n.right);
                    if i < a.len() {
                        assert(in_order(t)[i] == a[i]);
                    } else if i == a.len() {
                        assert(in_order(t)[i] == n.value);
                    } else {
                        assert(in_order(t)[i] == b[i - a.len() - 1]);
                    }
                }
            }
        }
    }
}

/// The fewest nodes a balanced tree of height `h` can hold: one subtree
/// must reach height `h - 1` and, by the balance bound, the other at least
/// `h - 2`.
pub open spec fn min_avl_size(h: nat) -> nat
    decreases h,
{
    if h == 0 {
        0
    } else if h == 1 {
        1
    } else {
        1 + min_avl_size((h - 1) as nat) + min_avl_size((h - 2) as nat)
    }
}

/// The minimum size grows with the height.
proof fn lemma_min_avl_size_mono(a: nat, b: nat)
    requires
        a <= b,
    ensures
        min_avl_size(a) <= min_avl_size(b),
    decreases b,
{
    if a < b {
        lemma_min_avl_size_mono(a, (b - 1) as nat);
        if b >= 2 {
            assert(min_avl_size(b) == 1 + min_avl_size((b - 1) as nat) + min_avl_size(
                (b - 2) as nat));
        }
    }
}

/// A subtree obeying the height-balance discipline holds at least
/// `min_avl_size` of its height in nodes.
pub proof fn lemma_avl_size_bound(t: Option<Box<AVL_Tree_Node>>)
    requires
        avl_ok(t),
    ensures
        size_of(t) >= min_avl_size(true_height(t)),
    decreases t,
{
    match t {
        None => {}
        Some(n) => {
            lemma_avl_size_bound(n.left);
            lemma_avl_size_bound(n.right);
            let h = true_height(t);
            if h >= 2 {
                if true_height(n.left) >= true_height(n.right) {
                    assert(true_height(n.left) == h - 1);
                    assert(true_height(n.right) >= h - 2);
                    lemma_min_avl_size_mono(((h - 2) as nat), true_height(n.right));
                } else {
                    assert(true_height(n.right) == h - 1);
                    assert(true_height(n.left) >= h - 2);
                    lemma_min_avl_size_mono(((h - 2) as nat), true_height(n.left));
                }
            }
        }
    }
}

/// The minimum size of a balanced tree is exponential in the height: the
/// height is logarithmic in the size.
pub proof fn lemma_min_avl_size_pow2(h: nat)
    ensures
        min_avl_size(h) + 1 >= crate::order::pow2(h / 2),
    decreases h,
{
    if h >= 2 {
        lemma_min_avl_size_pow2((h - 2) as nat);
        lemma_min_avl_size_mono((h - 2) as nat, (h - 1) as nat);
        assert(crate::order::pow2(h / 2) == 2 * crate::order::pow2((h / 2 - 1) as nat));
        assert((h - 2) as nat / 2 == h / 2 - 1);
    }
}

/// The two bounds together: the height of a balanced tree is logarithmic
/// in its size.
pub proof fn lemma_avl_height_logarithmic(t: Option<Box<AVL_Tree_Node>>)
    requires
        avl_ok(t),
    ensures
        crate::order::pow2(true_height(t) / 2) <= size_of(t) + 1,
{
    lemma_avl_size_bound(t);
    lemma_min_avl_size_pow2(true_height(t));
}

/// A key is listed by the in-order traversal exactly when the tree holds it.
pub proof fn lemma_in_order_contains(t: Option<Box<AVL_Tree_Node>>, k: u32)
    ensures
        in_order(t).contains(k) <==> tree_contains(t, k),
    decreases t,
{
    match t {
        None => {
            assert(!in_order(t).contains(k));
        }
        Some(n) => {
            lemma_in_order_contains(n.left, k);
            lemma_in_order_contains(n.right, k);
            let s = in_order(t);
            let a = in_order(n.left);
            let b = in_order(n.right);
            if tree_contains(t, k) {
                if k == n.value {
                    assert(s[a.len() as int] == k);
                } else if tree_contains(n.left, k) {
                    let i = choose|i: int| 0 <= i < a.len() && a[i] == k;
                    assert(s[i] == k);
                } else {
                    let i = choose|i: int| 0 <= i < b.len() && b[i] == k;
                    assert(s[a.len() + 1 + i] == k);
                }
                assert(s.contains(k));
            }
            if s.contains(k) {
                let i = choose|i: int| 0 <= i < s.len() && s[i] == k;
                if i < a.len() {
                    assert(a[i] == k);
                } else if i == a.len() {
                } else {
                    assert(b[i - a.len() - 1] == k);
                }
                assert(tree_contains(t, k));
            }
        }
    }
}

/// A well-formed AVL tree always lists its keys in strictly ascending order.
pub proof fn lemma_wf_traversal_sorted(t: AVL_Tree)
    requires
        t.wf(),
    ensures
        crate::order::sorted_strict(t.in_order_spec()),
{
    lemma_in_order_sorted(t.root, -1, 0x1_0000_0000);
}

/// Two well-formed trees holding the same values list them identically: the
/// in-order traversal is determined by membership alone, whatever shape the
/// rebalancing produced.
pub proof fn lemma_traversal_determined(t1: AVL_Tree, t2: AVL_Tree)
    requires
        t1.wf(),
        t2.wf(),
        forall|k: u32| t1.contains_key(k) <==> t2.contains_key(k),
    ensures
        t1.in_order_spec() == t2.in_order_spec(),
{
    lemma_wf_traversal_sorted(t1);
    lemma_wf_traversal_sorted(t2);
    assert forall|k: u32|
        t1.in_order_spec().contains(k) <==> t2.in_order_spec().contains(k) by {
        lemma_in_order_contains(t1.root, k);
        lemma_in_order_contains(t2.root, k);
        assert(t1.contains_key(k) <==> t2.contains_key(k));
    }
    crate::order::lemma_sorted_unique(t1.in_order_spec(), t2.in_order_spec());
}

/// An empty tree holds no key at all.
pub proof fn lemma_empty_contains_nothing(t: AVL_Tree, k: u32)
    requires
        t.root is None,
    ensures
        !t.contains_key(k),
{
}

/// Inserting a value and then looking it up always answers yes: any tree
/// standing in `insert_val_avl`'s relation to a predecessor holds the new
/// value.
pub proof fn lemma_insert_then_contains(pre: AVL_Tree, post: AVL_Tree, value: u32)
    requires
        forall|k: u32| post.contains_key(k) <==> pre.contains_key(k) || k == value,
    ensures
        post.contains_key(value),
{
}

} // verus!
