//! A red-black tree over `u32` keys.
//!
//! Insertion descends recursively, places a new `Red` leaf, and repairs the
//! colouring on the way back up: each recursion frame reports to its caller
//! whether its subtree root and one of that root's children are both red, and
//! the caller — the conflicting pair's grandparent — either rotates (when the
//! pair's sibling, the "uncle", is black or absent) or recolours and lets the
//! conflict travel further up (when the uncle is red).

use vstd::prelude::*;

verus! {

/// The colour carried by every node.
#[derive(Clone, Copy, PartialEq, Eq, Structural)]
pub enum Color {
    Red,
    Black,
}

/// One node: a key, its colour, and the two owned subtrees.
pub struct RbNode {
    pub key: u32,
    pub color: Color,
    pub left: Option<Box<RbNode>>,
    pub right: Option<Box<RbNode>>,
}

/// The tree itself: an optional owned root. A tree with no root is empty.
pub struct RedBlackTree {
    pub root: Option<Box<RbNode>>,
}

/// `k` occurs somewhere in the subtree `t`.
pub open spec fn tree_contains(t: Option<Box<RbNode>>, k: u32) -> bool
    decreases t,
{
    match t {
        None => false,
        Some(n) => k == n.key || tree_contains(n.left, k) || tree_contains(n.right, k),
    }
}

/// Binary-search-tree ordering: every key of `t` lies strictly between
/// `lo` and `hi`, and each node separates its subtrees.
pub open spec fn bst_between(t: Option<Box<RbNode>>, lo: int, hi: int) -> bool
    decreases t,
{
    match t {
        None => true,
        Some(n) => lo < n.key < hi
            && bst_between(n.left, lo, n.key as int)
            && bst_between(n.right, n.key as int, hi),
    }
}

/// The subtree is present and its root is red.
pub open spec fn is_red(t: Option<Box<RbNode>>) -> bool {
    match t {
        None => false,
        Some(n) => n.color == Color::Red,
    }
}

/// Number of black nodes on the path from the root of `t` down its left
/// spine to an empty position. Under `rb_ok` every path counts the same.
pub open spec fn black_height(t: Option<Box<RbNode>>) -> nat
    decreases t,
{
    match t {
        None => 0,
        Some(n) => black_height(n.left) + if n.color == Color::Black { 1nat } else { 0nat },
    }
}

/// The red-black colouring discipline: no red node has a red child, and the
/// two subtrees of every node have equal black height. (That the root itself
/// is black is stated separately, at the tree level.)
pub open spec fn rb_ok(t: Option<Box<RbNode>>) -> bool
    decreases t,
{
    match t {
        None => true,
        Some(n) => rb_ok(n.left) && rb_ok(n.right)
            && black_height(n.left) == black_height(n.right)
            && (n.color == Color::Red ==> !is_red(n.left) && !is_red(n.right)),
    }
}

/// Keys of `t` in left-to-right (ascending, under `bst_between`) order.
pub open spec fn in_order(t: Option<Box<RbNode>>) -> Seq<u32>
    decreases t,
{
    match t {
        None => Seq::empty(),
        Some(n) => in_order(n.left) + seq![n.key] + in_order(n.right),
    }
}

/// Number of nodes with no children; an empty tree has none.
pub open spec fn leaf_count_of(t: Option<Box<RbNode>>) -> nat
    decreases t,
{
    match t {
        None => 0,
        Some(n) => if n.left is None && n.right is None {
            1nat
        } else {
            leaf_count_of(n.left) + leaf_count_of(n.right)
        },
    }
}

/// Length of the longest path, in nodes: empty is 0, a lone node is 1.
pub open spec fn height_of(t: Option<Box<RbNode>>) -> nat
    decreases t,
{
    match t {
        None => 0,
        Some(n) => 1 + if height_of(n.left) >= height_of(n.right) {
            height_of(n.left)
        } else {
            height_of(n.right)
        },
    }
}

/// Total number of nodes.
pub open spec fn size_of(t: Option<Box<RbNode>>) -> nat
    decreases t,
{
    match t {
        None => 0,
        Some(n) => 1 + size_of(n.left) + size_of(n.right),
    }
}

/// Every key of a subtree obeying `bst_between(t, lo, hi)` lies in `(lo, hi)`.
pub proof fn lemma_bst_keys_bounded(t: Option<Box<RbNode>>, lo: int, hi: int)
    requires
        bst_between(t, lo, hi),
    ensures
        forall|k: u32| tree_contains(t, k) ==> lo < k < hi,
    decreases t,
{
    assert forall|k: u32| tree_contains(t, k) implies lo < k < hi by {
        match t {
            None => {}
            Some(n) => {
                lemma_bst_keys_bounded(n.left, lo, n.key as int);
                lemma_bst_keys_bounded(n.right, n.key as int, hi);
                if k == n.key {
                } else if tree_contains(n.left, k) {
                    assert(lo < k < n.key);
                } else {
                    assert(tree_contains(n.right, k));
                }
            }
        }
    }
}

/// A subtree whose keys all lie in `(lo, hi)` has at most `hi - lo - 1` nodes.
pub proof fn lemma_size_bound(t: Option<Box<RbNode>>, lo: int, hi: int)
    requires
        bst_between(t, lo, hi),
        lo < hi,
    ensures
        size_of(t) <= hi - lo - 1,
    decreases t,
{
    match t {
        None => {}
        Some(n) => {
            lemma_size_bound(n.left, lo, n.key as int);
            lemma_size_bound(n.right, n.key as int, hi);
        }
    }
}

/// Height never exceeds the node count.
pub proof fn lemma_height_le_size(t: Option<Box<RbNode>>)
    ensures
        height_of(t) <= size_of(t),
    decreases t,
{
    match t {
        None => {}
        Some(n) => {
            lemma_height_le_size(n.left);
            lemma_height_le_size(n.right);
        }
    }
}

/// Leaf count never exceeds the node count.
pub proof fn lemma_leaf_count_le_size(t: Option<Box<RbNode>>)
    ensures
        leaf_count_of(t) <= size_of(t),
    decreases t,
{
    match t {
        None => {}
        Some(n) => {
            lemma_leaf_count_le_size(n.left);
            lemma_leaf_count_le_size(n.right);
        }
    }
}

/// A subtree whose root and exactly one of that root's children are red,
/// but which otherwise obeys the colouring discipline. This is the shape a
/// recursion frame hands back to its caller when it detects a red-red
/// conflict it cannot repair itself: the caller owns the conflicting pair's
/// grandparent and performs the repair there.
pub open spec fn conflict_shape(n: Box<RbNode>) -> bool {
    &&& n.color == Color::Red
    &&& rb_ok(n.left)
    &&& rb_ok(n.right)
    &&& black_height(n.left) == black_height(n.right)
    &&& (is_red(n.left) <==> !is_red(n.right))
}

/// The repair step at a grandparent with a right-side conflict, as a
/// mathematical function on trees. Mirrors `fix_right`: red uncle means
/// recolouring only (the root keeps its colour at the tree root), black or
/// absent uncle means one or two rotations with the risen node black and
/// the descended grandparent red.
pub open spec fn fix_right_model(g: Box<RbNode>, is_root: bool) -> Box<RbNode> {
    let x = g.right.unwrap();
    if is_red(g.left) {
        let u = g.left.unwrap();
        Box::new(RbNode {
            key: g.key,
            color: if is_root { g.color } else { Color::Red },
            left: Some(Box::new(RbNode { key: u.key, color: Color::Black, left: u.left, right: u.right })),
            right: Some(Box::new(RbNode { key: x.key, color: Color::Black, left: x.left, right: x.right })),
        })
    } else if is_red(x.left) {
        let c = x.left.unwrap();
        Box::new(RbNode {
            key: c.key,
            color: Color::Black,
            left: Some(Box::new(RbNode { key: g.key, color: Color::Red, left: g.left, right: c.left })),
            right: Some(Box::new(RbNode { key: x.key, color: x.color, left: c.right, right: x.right })),
        })
    } else {
        Box::new(RbNode {
            key: x.key,
            color: Color::Black,
            left: Some(Box::new(RbNode { key: g.key, color: Color::Red, left: g.left, right: x.left })),
            right: x.right,
        })
    }
}

/// Mirror image of `fix_right_model`, for a left-side conflict.
pub open spec fn fix_left_model(g: Box<RbNode>, is_root: bool) -> Box<RbNode> {
    let x = g.left.unwrap();
    if is_red(g.right) {
        let u = g.right.unwrap();
        Box::new(RbNode {
            key: g.key,
            color: if is_root { g.color } else { Color::Red },
            right: Some(Box::new(RbNode { key: u.key, color: Color::Black, left: u.left, right: u.right })),
            left: Some(Box::new(RbNode { key: x.key, color: Color::Black, left: x.left, right: x.right })),
        })
    } else if is_red(x.right) {
        let c = x.right.unwrap();
        Box::new(RbNode {
            key: c.key,
            color: Color::Black,
            right: Some(Box::new(RbNode { key: g.key, color: Color::Red, right: g.right, left: c.right })),
            left: Some(Box::new(RbNode { key: x.key, color: x.color, right: c.left, left: x.left })),
        })
    } else {
        Box::new(RbNode {
            key: x.key,
            color: Color::Black,
            right: Some(Box::new(RbNode { key: g.key, color: Color::Red, right: g.right, left: x.right })),
            left: x.left,
        })
    }
}

/// One recursion frame of the insertion, as a mathematical function: the
/// new subtree paired with the conflict report for the caller. This is the
/// exact value `rb_ins` computes.
pub open spec fn rb_ins_model(n: Box<RbNode>, key: u32, is_root: bool) -> (Box<RbNode>, bool)
    decreases n,
{
    if key > n.key {
        let stepped = match n.right {
            None => Box::new(RbNode {
                key: n.key,
                color: n.color,
                left: n.left,
                right: Some(Box::new(RbNode { key, color: Color::Red, left: None, right: None })),
            }),
            Some(r) => {
                let rec = rb_ins_model(r, key, false);
                let attached = Box::new(RbNode {
                    key: n.key,
                    color: n.color,
                    left: n.left,
                    right: Some(rec.0),
                });
                if rec.1 {
                    fix_right_model(attached, is_root)
                } else {
                    attached
                }
            }
        };
        (stepped, stepped.color == Color::Red && is_red(stepped.right))
    } else if key < n.key {
        let stepped = match n.left {
            None => Box::new(RbNode {
                key: n.key,
                color: n.color,
                right: n.right,
                left: Some(Box::new(RbNode { key, color: Color::Red, left: None, right: None })),
            }),
            Some(l) => {
                let rec = rb_ins_model(l, key, false);
                let attached = Box::new(RbNode {
                    key: n.key,
                    color: n.color,
                    right: n.right,
                    left: Some(rec.0),
                });
                if rec.1 {
                    fix_left_model(attached, is_root)
                } else {
                    attached
                }
            }
        };
        (stepped, stepped.color == Color::Red && is_red(stepped.left))
    } else {
        (n, false)
    }
}

/// What inserting `key` does to a whole tree: a black root when the tree
/// was empty, otherwise the root frame of the recursive insertion.
pub open spec fn insert_model(t: Option<Box<RbNode>>, key: u32) -> Option<Box<RbNode>> {
    match t {
        None => Some(Box::new(RbNode { key, color: Color::Black, left: None, right: None })),
        Some(n) => Some(rb_ins_model(n, key, true).0),
    }
}

/// Whether the root of `t` is red, decided at run time.
fn is_red_exec(t: &Option<Box<RbNode>>) -> (r: bool)
    ensures
        r == is_red(*t),
{
    match t {
        None => false,
        Some(n) => n.color == Color::Red,
    }
}

/// Standard left rotation: the right child takes the node's place, the node
/// becomes its left child, and the right child's former left subtree becomes
/// the node's new right subtree. Colours travel with their nodes.
fn rotate_left(g: Box<RbNode>) -> (r: Box<RbNode>)
    requires
        g.right is Some,
    ensures
        r.key == g.right.unwrap().key,
        r.color == g.right.unwrap().color,
        r.right == g.right.unwrap().right,
        r.left is Some,
        r.left.unwrap().key == g.key,
        r.left.unwrap().color == g.color,
        r.left.unwrap().left == g.left,
        r.left.unwrap().right == g.right.unwrap().left,
{
    let mut g = g;
    let mut x = g.right.take().unwrap();
    g.right = x.left.take();
    x.left = Some(g);
    x
}

/// Mirror image of `rotate_left`.
fn rotate_right(g: Box<RbNode>) -> (r: Box<RbNode>)
    requires
        g.left is Some,
    ensures
        r.key == g.left.unwrap().key,
        r.color == g.left.unwrap().color,
        r.left == g.left.unwrap().left,
        r.right is Some,
        r.right.unwrap().key == g.key,
        r.right.unwrap().color == g.color,
        r.right.unwrap().right == g.right,
        r.right.unwrap().left == g.left.unwrap().right,
{
    let mut g = g;
    let mut x = g.left.take().unwrap();
    g.left = x.right.take();
    x.right = Some(g);
    x
}

/// Changing only the colour of a root node disturbs neither the search
/// ordering nor the keys held.
proof fn lemma_recolor(a: Option<Box<RbNode>>, b: Option<Box<RbNode>>, lo: int, hi: int)
    requires
        a is Some,
        b is Some,
        a.unwrap().key == b.unwrap().key,
        a.unwrap().left == b.unwrap().left,
        a.unwrap().right == b.unwrap().right,
        bst_between(a, lo, hi),
    ensures
        bst_between(b, lo, hi),
        forall|k: u32| tree_contains(b, k) == tree_contains(a, k),
{
    assert forall|k: u32| tree_contains(b, k) == tree_contains(a, k) by {
        assert(tree_contains(b, k) == (k == b.unwrap().key || tree_contains(b.unwrap().left, k)
            || tree_contains(b.unwrap().right, k)));
        assert(tree_contains(a, k) == (k == a.unwrap().key || tree_contains(a.unwrap().left, k)
            || tree_contains(a.unwrap().right, k)));
    }
}

/// Repairs a red-red conflict inside `g`'s right subtree. `g` is the
/// grandparent of the conflicting pair: its right child and one of that
/// child's children are both red. When the uncle (`g`'s left child) is red,
/// only colours change and the conflict may travel upward as a red `g`; when
/// the uncle is black or absent, one or two rotations at `g` settle the
/// conflict for good. At the tree root the recolouring keeps `g` black.
fn fix_right(g: Box<RbNode>, is_root: bool, Ghost(lo): Ghost<int>, Ghost(hi): Ghost<int>) -> (r: Box<RbNode>)
    requires
        g.color == Color::Black,
        g.right is Some,
        conflict_shape(g.right.unwrap()),
        rb_ok(g.left),
        black_height(g.left) == black_height(g.right),
        bst_between(Some(g), lo, hi),
    ensures
        bst_between(Some(r), lo, hi),
        forall|k: u32| tree_contains(Some(r), k) <==> tree_contains(Some(g), k),
        rb_ok(Some(r)),
        !is_root ==> black_height(Some(r)) == black_height(Some(g)),
        black_height(Some(r)) == black_height(Some(g))
            || black_height(Some(r)) == black_height(Some(g)) + 1,
        is_root ==> r.color == Color::Black,
        r == fix_right_model(g, is_root),
{
    let mut g = g;
    let ghost g0 = g;
    if is_red_exec(&g.left) {
        // Red uncle: recolour uncle and child black; unless `g` is the tree
        // root, it turns red and the conflict propagates upward.
        let mut u = g.left.take().unwrap();
        u.color = Color::Black;
        g.left = Some(u);
        let mut x = g.right.take().unwrap();
        x.color = Color::Black;
        g.right = Some(x);
        if !is_root {
            g.color = Color::Red;
        }
        proof {
            let uv = g0.left.unwrap();
            let xv = g0.right.unwrap();
            lemma_recolor(g0.left, g.left, lo, g0.key as int);
            lemma_recolor(g0.right, g.right, g0.key as int, hi);
            assert(bst_between(Some(g), lo, hi));
            assert(rb_ok(g.left) && black_height(g.left) == black_height(uv.left) + 1);
            assert(rb_ok(g.right) && black_height(g.right) == black_height(xv.left) + 1);
            assert(black_height(g0.left) == black_height(uv.left));
            assert(black_height(g0.right) == black_height(xv.left));
            assert(rb_ok(Some(g)));
            assert(black_height(Some(g0)) == black_height(g0.left) + 1);
            assert forall|k: u32|
                tree_contains(Some(g), k) == tree_contains(Some(g0), k) by {
                assert(tree_contains(Some(g), k) == (k == g.key
                    || tree_contains(g.left, k) || tree_contains(g.right, k)));
                assert(tree_contains(Some(g0), k) == (k == g0.key
                    || tree_contains(g0.left, k) || tree_contains(g0.right, k)));
            }
            assert(g == fix_right_model(g0, is_root));
        }
        g
    } else {
        let x_left_red = is_red_exec(&g.right.as_ref().unwrap().left);
        if x_left_red {
            // Right-left chain: rotate the right child right, reattach, then
            // rotate `g` left; the risen grandchild turns black, `g` red.
            let x = g.right.take().unwrap();
            let x2 = rotate_right(x);
            g.right = Some(x2);
            let mut r = rotate_left(g);
            r.color = Color::Black;
            let mut gl = r.left.take().unwrap();
            gl.color = Color::Red;
            r.left = Some(gl);
            proof {
                let xv = g0.right.unwrap();
                let cv = xv.left.unwrap();
                // After both rotations: r holds cv's key; its left child is
                // g0's node over (g0.left, cv.left), turned red; its right
                // child is xv's node over (cv.right, xv.right).
                assert(bst_between(Some(xv), g0.key as int, hi));
                assert(bst_between(Some(cv), g0.key as int, xv.key as int));
                assert(gl.key == g0.key && gl.left == g0.left && gl.right == cv.left);
                assert(r.key == cv.key && r.left == Some(gl));
                let rr = r.right.unwrap();
                assert(rr.key == xv.key && rr.left == cv.right && rr.right == xv.right);
                assert(bst_between(Some(gl), lo, cv.key as int));
                assert(bst_between(r.right, cv.key as int, hi));
                assert(bst_between(Some(r), lo, hi));
                // colouring: gl and rr are red with black subtrees of equal
                // black height, r is black on top of them
                assert(rb_ok(Some(cv)));
                assert(black_height(Some(cv)) == black_height(cv.left));
                assert(black_height(g0.right) == black_height(Some(cv)));
                assert(rb_ok(Some(gl)) && black_height(Some(gl)) == black_height(g0.left));
                assert(rb_ok(r.right) && black_height(r.right) == black_height(cv.right));
                assert(rb_ok(Some(r)));
                assert(black_height(Some(r)) == black_height(Some(gl)) + 1);
                assert(black_height(Some(g0)) == black_height(g0.left) + 1);
                assert forall|k: u32|
                    tree_contains(Some(r), k) == tree_contains(Some(g0), k) by {
                    assert(tree_contains(Some(r), k) == (k == r.key
                        || tree_contains(r.left, k) || tree_contains(r.right, k)));
                    assert(tree_contains(Some(gl), k) == (k == gl.key
                        || tree_contains(gl.left, k) || tree_contains(gl.right, k)));
                    assert(tree_contains(r.right, k) == (k == rr.key
                        || tree_contains(rr.left, k) || tree_contains(rr.right, k)));
                    assert(tree_contains(Some(g0), k) == (k == g0.key
                        || tree_contains(g0.left, k) || tree_contains(g0.right, k)));
                    assert(tree_contains(g0.right, k) == (k == xv.key
                        || tree_contains(xv.left, k) || tree_contains(xv.right, k)));
                    assert(tree_contains(xv.left, k) == (k == cv.key
                        || tree_contains(cv.left, k) || tree_contains(cv.right, k)));
                }
                assert(r == fix_right_model(g0, is_root));
            }
            r
        } else {
            // Right-right chain: rotate `g` left; the risen child turns
            // black, `g` red.
            let mut r = rotate_left(g);
            r.color = Color::Black;
            let mut gl = r.left.take().unwrap();
            gl.color = Color::Red;
            r.left = Some(gl);
            proof {
                let xv = g0.right.unwrap();
                // After the rotation: r holds xv's key; its left child is
                // g0's node over (g0.left, xv.left), turned red; its right
                // child is xv.right.
                assert(bst_between(Some(xv), g0.key as int, hi));
                assert(gl.key == g0.key && gl.left == g0.left && gl.right == xv.left);
                assert(r.key == xv.key && r.left == Some(gl) && r.right == xv.right);
                assert(bst_between(Some(gl), lo, xv.key as int));
                assert(bst_between(Some(r), lo, hi));
                // colouring: gl is red over the black uncle and xv's former
                // left subtree, r is black over gl and the red grandchild
                assert(black_height(g0.right) == black_height(xv.left));
                assert(rb_ok(Some(gl)) && black_height(Some(gl)) == black_height(g0.left));
                assert(rb_ok(Some(r)));
                assert(black_height(Some(r)) == black_height(Some(gl)) + 1);
                assert(black_height(Some(g0)) == black_height(g0.left) + 1);
                assert forall|k: u32|
                    tree_contains(Some(r), k) == tree_contains(Some(g0), k) by {
                    assert(tree_contains(Some(r), k) == (k == r.key
                        || tree_contains(r.left, k) || tree_contains(r.right, k)));
                    assert(tree_contains(Some(gl), k) == (k == gl.key
                        || tree_contains(gl.left, k) || tree_contains(gl.right, k)));
                    assert(tree_contains(Some(g0), k) == (k == g0.key
                        || tree_contains(g0.left, k) || tree_contains(g0.right, k)));
                    assert(tree_contains(g0.right, k) == (k == xv.key
                        || tree_contains(xv.left, k) || tree_contains(xv.right, k)));
                }
                assert(r == fix_right_model(g0, is_root));
            }
            r
        }
    }
}

/// Mirror image of `fix_right`: repairs a red-red conflict inside `g`'s
/// left subtree, with the uncle at `g`'s right.
fn fix_left(g: Box<RbNode>, is_root: bool, Ghost(lo): Ghost<int>, Ghost(hi): Ghost<int>) -> (r: Box<RbNode>)
    requires
        g.color == Color::Black,
        g.left is Some,
        conflict_shape(g.left.unwrap()),
        rb_ok(g.right),
        black_height(g.left) == black_height(g.right),
        bst_between(Some(g), lo, hi),
    ensures
        bst_between(Some(r), lo, hi),
        forall|k: u32| tree_contains(Some(r), k) <==> tree_contains(Some(g), k),
        rb_ok(Some(r)),
        !is_root ==> black_height(Some(r)) == black_height(Some(g)),
        black_height(Some(r)) == black_height(Some(g))
            || black_height(Some(r)) == black_height(Some(g)) + 1,
        is_root ==> r.color == Color::Black,
        r == fix_left_model(g, is_root),
{
    let mut g = g;
    let ghost g0 = g;
    if is_red_exec(&g.right) {
        // Red uncle: recolour uncle and child black; unless `g` is the tree
        // root, it turns red and the conflict propagates upward.
        let mut u = g.right.take().unwrap();
        u.color = Color::Black;
        g.right = Some(u);
        let mut x = g.left.take().unwrap();
        x.color = Color::Black;
        g.left = Some(x);
        if !is_root {
            g.color = Color::Red;
        }
        proof {
            let uv = g0.right.unwrap();
            let xv = g0.left.unwrap();
            lemma_recolor(g0.right, g.right, g0.key as int, hi);
            lemma_recolor(g0.left, g.left, lo, g0.key as int);
            assert(bst_between(Some(g), lo, hi));
            assert(rb_ok(g.right) && black_height(g.right) == black_height(uv.left) + 1);
            assert(rb_ok(g.left) && black_height(g.left) == black_height(xv.left) + 1);
            assert(black_height(g0.right) == black_height(uv.left));
            assert(black_height(g0.left) == black_height(xv.left));
            assert(rb_ok(Some(g)));
            assert(black_height(Some(g0)) == black_height(g0.left) + 1);
            assert forall|k: u32|
                tree_contains(Some(g), k) == tree_contains(Some(g0), k) by {
                assert(tree_contains(Some(g), k) == (k == g.key
                    || tree_contains(g.left, k) || tree_contains(g.right, k)));
                assert(tree_contains(Some(g0), k) == (k == g0.key
                    || tree_contains(g0.left, k) || tree_contains(g0.right, k)));
            }
            assert(g == fix_left_model(g0, is_root));
        }
        g
    } else {
        let x_right_red = is_red_exec(&g.left.as_ref().unwrap().right);
        if x_right_red {
            // Left-right chain: rotate the left child left, reattach, then
            // rotate `g` right; the risen grandchild turns black, `g` red.
            let x = g.left.take().unwrap();
            let x2 = rotate_left(x);
            g.left = Some(x2);
            let mut r = rotate_right(g);
            r.color = Color::Black;
            let mut gr = r.right.take().unwrap();
            gr.color = Color::Red;
            r.right = Some(gr);
            proof {
                let xv = g0.left.unwrap();
                let cv = xv.right.unwrap();
                // After both rotations: r holds cv's key; its right child is
                // g0's node over (cv.right, g0.right), turned red; its left
                // child is xv's node over (xv.left, cv.left).
                assert(bst_between(Some(xv), lo, g0.key as int));
                assert(bst_between(Some(cv), xv.key as int, g0.key as int));
                assert(gr.key == g0.key && gr.right == g0.right && gr.left == cv.right);
                assert(r.key == cv.key && r.right == Some(gr));
                let rl = r.left.unwrap();
                assert(rl.key == xv.key && rl.right == cv.left && rl.left == xv.left);
                assert(bst_between(Some(gr), cv.key as int, hi));
                assert(bst_between(r.left, lo, cv.key as int));
                assert(bst_between(Some(r), lo, hi));
                // colouring: rl and gr are red with black subtrees of equal
                // black height, r is black on top of them
                assert(rb_ok(Some(cv)));
                assert(black_height(Some(cv)) == black_height(cv.left));
                assert(black_height(g0.left) == black_height(Some(cv)));
                assert(rb_ok(Some(gr)) && black_height(Some(gr)) == black_height(g0.right));
                assert(rb_ok(r.left) && black_height(r.left) == black_height(cv.left));
                assert(rb_ok(Some(r)));
                assert(black_height(Some(r)) == black_height(Some(gr)) + 1);
                assert(black_height(Some(g0)) == black_height(g0.right) + 1);
                assert forall|k: u32|
                    tree_contains(Some(r), k) == tree_contains(Some(g0), k) by {
                    assert(tree_contains(Some(r), k) == (k == r.key
                        || tree_contains(r.left, k) || tree_contains(r.right, k)));
                    assert(tree_contains(Some(gr), k) == (k == gr.key
                        || tree_contains(gr.left, k) || tree_contains(gr.right, k)));
                    assert(tree_contains(r.left, k) == (k == rl.key
                        || tree_contains(rl.left, k) || tree_contains(rl.right, k)));
                    assert(tree_contains(Some(g0), k) == (k == g0.key
                        || tree_contains(g0.left, k) || tree_contains(g0.right, k)));
                    assert(tree_contains(g0.left, k) == (k == xv.key
                        || tree_contains(xv.left, k) || tree_contains(xv.right, k)));
                    assert(tree_contains(xv.right, k) == (k == cv.key
                        || tree_contains(cv.left, k) || tree_contains(cv.right, k)));
                }
                assert(r == fix_left_model(g0, is_root));
            }
            r
        } else {
            // Left-left chain: rotate `g` right; the risen child turns
            // black, `g` red.
            let mut r = rotate_right(g);
            r.color = Color::Black;
            let mut gr = r.right.take().unwrap();
            gr.color = Color::Red;
            r.right = Some(gr);
            proof {
                let xv = g0.left.unwrap();
                // After the rotation: r holds xv's key; its right child is
                // g0's node over (xv.right, g0.right), turned red; its left
                // child is xv.left.
                assert(bst_between(Some(xv), lo, g0.key as int));
                assert(gr.key == g0.key && gr.right == g0.right && gr.left == xv.right);
                assert(r.key == xv.key && r.right == Some(gr) && r.left == xv.left);
                assert(bst_between(Some(gr), xv.key as int, hi));
                assert(bst_between(Some(r), lo, hi));
                // colouring: gr is red over xv's former right subtree and the
                // black uncle, r is black over the red grandchild and gr
                assert(black_height(g0.left) == black_height(xv.left));
                assert(rb_ok(Some(gr)) && black_height(Some(gr)) == black_height(g0.right));
                assert(rb_ok(Some(r)));
                assert(black_height(Some(r)) == black_height(Some(gr)) + 1);
                assert(black_height(Some(g0)) == black_height(g0.right) + 1);
                assert forall|k: u32|
                    tree_contains(Some(r), k) == tree_contains(Some(g0), k) by {
                    assert(tree_contains(Some(r), k) == (k == r.key
                        || tree_contains(r.left, k) || tree_contains(r.right, k)));
                    assert(tree_contains(Some(gr), k) == (k == gr.key
                        || tree_contains(gr.left, k) || tree_contains(gr.right, k)));
                    assert(tree_contains(Some(g0), k) == (k == g0.key
                        || tree_contains(g0.left, k) || tree_contains(g0.right, k)));
                    assert(tree_contains(g0.left, k) == (k == xv.key
                        || tree_contains(xv.left, k) || tree_contains(xv.right, k)));
                }
                assert(r == fix_left_model(g0, is_root));
            }
            r
        }
    }
}

/// Recursive insertion with repair on the way back up. Returns the new
/// subtree root together with the conflict report for the caller: `true`
/// exactly when the returned root and the child on the descent side are both
/// red, a violation the caller must repair (`fix_left` / `fix_right`). A key
/// already present leaves the subtree unchanged. At the root frame
/// (`is_root`) no conflict report escapes and the root stays black.
fn rb_ins(n: Box<RbNode>, key: u32, is_root: bool, Ghost(lo): Ghost<int>, Ghost(hi): Ghost<int>) -> (res: (
    Box<RbNode>,
    bool,
))
    requires
        bst_between(Some(n), lo, hi),
        rb_ok(Some(n)),
        lo < key < hi,
        is_root ==> n.color == Color::Black,
    ensures
        bst_between(Some(res.0), lo, hi),
        forall|k: u32|
            tree_contains(Some(res.0), k) <==> tree_contains(Some(n), k) || k == key,
        !res.1 ==> rb_ok(Some(res.0)),
        res.1 ==> n.color == Color::Red && res.0.color == Color::Red
            && conflict_shape(res.0),
        !is_root ==> black_height(Some(res.0)) == black_height(Some(n)),
        black_height(Some(res.0)) == black_height(Some(n))
            || black_height(Some(res.0)) == black_height(Some(n)) + 1,
        is_root ==> res.0.color == Color::Black && !res.1,
        tree_contains(Some(n), key) ==> res.0 == n && !res.1,
        res == rb_ins_model(n, key, is_root),
    decreases n,
{
    let mut n = n;
    let ghost n0 = n;
    let mut conflict = false;
    if key > n.key {
        proof {
            // a key on the right side cannot be hiding in the left subtree
            lemma_bst_keys_bounded(n.left, lo, n.key as int);
        }
        match n.right.take() {
            None => {
                n.right = Some(Box::new(RbNode {
                    key,
                    color: Color::Red,
                    left: None,
                    right: None,
                }));
                proof {
                    let leaf = n.right.unwrap();
                    assert(leaf.key == key && leaf.left is None && leaf.right is None);
                    assert(bst_between(leaf.left, n0.key as int, key as int));
                    assert(bst_between(leaf.right, key as int, hi));
                    assert(bst_between(n.right, n0.key as int, hi));
                    assert(bst_between(Some(n), lo, hi));
                    assert(rb_ok(leaf.left) && rb_ok(leaf.right));
                    assert(rb_ok(n.right) && black_height(n.right) == 0);
                    assert(black_height(n0.right) == 0);
                    assert forall|k: u32|
                        tree_contains(Some(n), k) <==> tree_contains(Some(n0), k) || k
                            == key by {
                        assert(tree_contains(Some(n), k) == (k == n.key
                            || tree_contains(n.left, k) || tree_contains(n.right, k)));
                        assert(tree_contains(Some(n0), k) == (k == n0.key
                            || tree_contains(n0.left, k) || tree_contains(n0.right, k)));
                        assert(!tree_contains(leaf.left, k) && !tree_contains(leaf.right, k));
                        assert(tree_contains(n.right, k) == (k == key));
                    }
                    assert(tree_contains(Some(n0), key) == (key == n0.key
                        || tree_contains(n0.left, key) || tree_contains(n0.right, key)));
                    assert(!tree_contains(Some(n0), key));
                }
            }
            Some(r) => {
                let ghost rv = r;
                let (r2, cflag) = rb_ins(r, key, false, Ghost(n.key as int), Ghost(hi));
                n.right = Some(r2);
                proof {
                    assert(bst_between(Some(n), lo, hi));
                    assert(tree_contains(Some(n0), key) == (key == n0.key
                        || tree_contains(n0.left, key) || tree_contains(n0.right, key)));
                    if tree_contains(Some(n0), key) {
                        assert(tree_contains(n0.right, key));
                        assert(r2 == rv && !cflag);
                        assert(n == n0);
                    }
                    assert forall|k: u32|
                        tree_contains(Some(n), k) <==> tree_contains(Some(n0), k) || k
                            == key by {
                        assert(tree_contains(Some(n), k) == (k == n.key
                            || tree_contains(n.left, k) || tree_contains(n.right, k)));
                        assert(tree_contains(Some(n0), k) == (k == n0.key
                            || tree_contains(n0.left, k) || tree_contains(n0.right, k)));
                    }
                }
                if cflag {
                    let ghost gpre = n;
                    proof {
                        // the returned child is red, so this node is black,
                        // and the black heights on both sides still agree
                        assert(black_height(n.right) == black_height(n.right.unwrap().left));
                        assert(black_height(Some(rv)) == black_height(rv.left));
                        assert(black_height(n.right) == black_height(Some(rv)));
                    }
                    n = fix_right(n, is_root, Ghost(lo), Ghost(hi));
                    proof {
                        assert forall|k: u32|
                            tree_contains(Some(n), k) <==> tree_contains(Some(n0), k) || k
                                == key by {
                            assert(tree_contains(Some(n), k) == tree_contains(
                                Some(gpre), k));
                        }
                    }
                }
            }
        }
        if n.color == Color::Red && is_red_exec(&n.right) {
            conflict = true;
        }
    } else if key < n.key {
        proof {
            // a key on the left side cannot be hiding in the right subtree
            lemma_bst_keys_bounded(n.right, n.key as int, hi);
        }
        match n.left.take() {
            None => {
                n.left = Some(Box::new(RbNode {
                    key,
                    color: Color::Red,
                    left: None,
                    right: None,
                }));
                proof {
                    let leaf = n.left.unwrap();
                    assert(leaf.key == key && leaf.left is None && leaf.right is None);
                    assert(bst_between(leaf.left, lo, key as int));
                    assert(bst_between(leaf.right, key as int, n0.key as int));
                    assert(bst_between(n.left, lo, n0.key as int));
                    assert(bst_between(Some(n), lo, hi));
                    assert(rb_ok(leaf.left) && rb_ok(leaf.right));
                    assert(rb_ok(n.left) && black_height(n.left) == 0);
                    assert(black_height(n0.left) == 0);
                    assert forall|k: u32|
                        tree_contains(Some(n), k) <==> tree_contains(Some(n0), k) || k
                            == key by {
                        assert(tree_contains(Some(n), k) == (k == n.key
                            || tree_contains(n.left, k) || tree_contains(n.right, k)));
                        assert(tree_contains(Some(n0), k) == (k == n0.key
                            || tree_contains(n0.left, k) || tree_contains(n0.right, k)));
                        assert(!tree_contains(leaf.left, k) && !tree_contains(leaf.right, k));
                        assert(tree_contains(n.left, k) == (k == key));
                    }
                    assert(tree_contains(Some(n0), key) == (key == n0.key
                        || tree_contains(n0.left, key) || tree_contains(n0.right, key)));
                    assert(!tree_contains(Some(n0), key));
                }
            }
            Some(l) => {
                let ghost lv = l;
                let (l2, cflag) = rb_ins(l, key, false, Ghost(lo), Ghost(n.key as int));
                n.left = Some(l2);
                proof {
                    assert(bst_between(Some(n), lo, hi));
                    assert(tree_contains(Some(n0), key) == (key == n0.key
                        || tree_contains(n0.left, key) || tree_contains(n0.right, key)));
                    if tree_contains(Some(n0), key) {
                        assert(tree_contains(n0.left, key));
                        assert(l2 == lv && !cflag);
                        assert(n == n0);
                    }
                    assert forall|k: u32|
                        tree_contains(Some(n), k) <==> tree_contains(Some(n0), k) || k
                            == key by {
                        assert(tree_contains(Some(n), k) == (k == n.key
                            || tree_contains(n.left, k) || tree_contains(n.right, k)));
                        assert(tree_contains(Some(n0), k) == (k == n0.key
                            || tree_contains(n0.left, k) || tree_contains(n0.right, k)));
                    }
                }
                if cflag {
                    let ghost gpre = n;
                    proof {
                        assert(black_height(n.left) == black_height(n.left.unwrap().left));
                        assert(black_height(Some(lv)) == black_height(lv.left));
                        assert(black_height(n.left) == black_height(Some(lv)));
                    }
                    n = fix_left(n, is_root, Ghost(lo), Ghost(hi));
                    proof {
                        assert forall|k: u32|
                            tree_contains(Some(n), k) <==> tree_contains(Some(n0), k) || k
                                == key by {
                            assert(tree_contains(Some(n), k) == tree_contains(
                                Some(gpre), k));
                        }
                    }
                }
            }
        }
        if n.color == Color::Red && is_red_exec(&n.left) {
            conflict = true;
        }
    } else {
        // The key is already present: the tree is left as it is.
        proof {
            assert(tree_contains(Some(n0), key));
        }
    }
    proof {
        assert((n, conflict) == rb_ins_model(n0, key, is_root));
    }
    (n, conflict)
}

impl RedBlackTree {
    /// All invariants of a tree in service: search ordering over the full key
    /// range, the red-black colouring discipline, and a non-red root.
    pub open spec fn wf(self) -> bool {
        &&& bst_between(self.root, -1, 0x1_0000_0000)
        &&& rb_ok(self.root)
        &&& !is_red(self.root)
    }

    /// Creates the empty tree.
    pub fn new() -> (t: Self)
        ensures
            t.wf(),
            t.root is None,
    {
        RedBlackTree { root: None }
    }

    /// The tree is empty exactly when it has no root.
    pub fn is_tree_empty(&self) -> (r: bool)
        ensures
            r == (self.root is None),
    {
        self.root.is_none()
    }

    /// The key `k` is held by the tree.
    pub open spec fn contains_key(self, k: u32) -> bool {
        tree_contains(self.root, k)
    }

    /// The tree's keys in ascending order.
    pub open spec fn in_order_spec(self) -> Seq<u32> {
        in_order(self.root)
    }

    /// Inserts `key`, rebalancing as needed; a key already present leaves
    /// the tree unchanged. The root may change through rotations but is
    /// black again when the call returns; the exact resulting tree,
    /// colours included, is `insert_model` of the old one.
    pub fn insert_node(&mut self, key: u32)
        requires
            old(self).wf(),
        ensures
            final(self).wf(),
            forall|k: u32|
                final(self).contains_key(k) <==> old(self).contains_key(k) || k == key,
            old(self).contains_key(key) ==> *final(self) == *old(self),
            final(self).root == insert_model(old(self).root, key),
    {
        let ghost pre = *self;
        match self.root.take() {
            None => {
                self.root = Some(Box::new(RbNode {
                    key,
                    color: Color::Black,
                    left: None,
                    right: None,
                }));
                proof {
                    let leaf = self.root.unwrap();
                    assert(bst_between(leaf.left, -1, key as int));
                    assert(bst_between(leaf.right, key as int, 0x1_0000_0000));
                    assert(bst_between(self.root, -1, 0x1_0000_0000));
                    assert(rb_ok(leaf.left) && rb_ok(leaf.right));
                    assert(rb_ok(self.root));
                    assert forall|k: u32|
                        final(self).contains_key(k) <==> pre.contains_key(k) || k == key by {
                        assert(!tree_contains(leaf.left, k) && !tree_contains(leaf.right, k));
                        assert(tree_contains(self.root, k) == (k == key));
                    }
                }
            }
            Some(r) => {
                let (r2, _) = rb_ins(r, key, true, Ghost(-1), Ghost(0x1_0000_0000));
                self.root = Some(r2);
            }
        }
    }

    /// Standard binary search, guided by the ordering invariant.
    pub fn is_node_exists(&self, key: u32) -> (r: bool)
        requires
            self.wf(),
        ensures
            r == self.contains_key(key),
    {
        contains_rec(&self.root, key, Ghost(-1), Ghost(0x1_0000_0000))
    }

    /// Counts the nodes that have no children.
    pub fn count_leaves(&self) -> (r: u64)
        requires
            self.wf(),
        ensures
            r == leaf_count_of(self.root),
    {
        proof {
            lemma_size_bound(self.root, -1, 0x1_0000_0000);
        }
        count_leaves_rec(&self.root)
    }

    /// Length of the longest root-to-leaf path, in nodes.
    pub fn get_tree_height(&self) -> (r: u64)
        requires
            self.wf(),
        ensures
            r == height_of(self.root),
    {
        proof {
            lemma_size_bound(self.root, -1, 0x1_0000_0000);
            lemma_height_le_size(self.root);
        }
        height_rec(&self.root)
    }

    /// The keys in ascending order, smallest first.
    pub fn in_order_traversal(&self) -> (v: Vec<u32>)
        ensures
            v@ == self.in_order_spec(),
    {
        let mut v: Vec<u32> = Vec::new();
        in_order_rec(&self.root, &mut v);
        v
    }

    /// A structural listing for rendering: right subtree first, then the
    /// node, then the left subtree, each entry carrying its key, its depth
    /// below the root, and whether it is red.
    pub fn structure(&self) -> (v: Vec<(u32, u64, bool)>)
        requires
            self.wf(),
        ensures
            v@ == structure_of(self.root, 0),
    {
        proof {
            lemma_size_bound(self.root, -1, 0x1_0000_0000);
            lemma_height_le_size(self.root);
        }
        let mut v: Vec<(u32, u64, bool)> = Vec::new();
        structure_rec(&self.root, 0, &mut v);
        v
    }
}

/// Recursive binary search within the bounds `(lo, hi)`.
fn contains_rec(t: &Option<Box<RbNode>>, key: u32, Ghost(lo): Ghost<int>, Ghost(hi): Ghost<int>) -> (r: bool)
    requires
        bst_between(*t, lo, hi),
    ensures
        r == tree_contains(*t, key),
    decreases *t,
{
    match t {
        None => false,
        Some(n) => {
            if key == n.key {
                true
            } else if key > n.key {
                proof {
                    lemma_bst_keys_bounded(n.left, lo, n.key as int);
                    assert(!tree_contains(n.left, key));
                }
                contains_rec(&n.right, key, Ghost(n.key as int), Ghost(hi))
            } else {
                proof {
                    lemma_bst_keys_bounded(n.right, n.key as int, hi);
                    assert(!tree_contains(n.right, key));
                }
                contains_rec(&n.left, key, Ghost(lo), Ghost(n.key as int))
            }
        }
    }
}

/// Recursive leaf count; the size bound keeps the sum well inside `u64`.
fn count_leaves_rec(t: &Option<Box<RbNode>>) -> (r: u64)
    requires
        size_of(*t) < 0x1_0000_0000_0000,
    ensures
        r == leaf_count_of(*t),
    decreases *t,
{
    match t {
        None => 0,
        Some(n) => {
            if n.left.is_none() && n.right.is_none() {
                1
            } else {
                proof {
                    lemma_leaf_count_le_size(n.left);
                    lemma_leaf_count_le_size(n.right);
                }
                count_leaves_rec(&n.left) + count_leaves_rec(&n.right)
            }
        }
    }
}

/// Recursive height; the size bound keeps the count well inside `u64`.
fn height_rec(t: &Option<Box<RbNode>>) -> (r: u64)
    requires
        height_of(*t) < 0x1_0000_0000_0000,
    ensures
        r == height_of(*t),
    decreases *t,
{
    match t {
        None => 0,
        Some(n) => {
            let hl = height_rec(&n.left);
            let hr = height_rec(&n.right);
            if hl >= hr {
                hl + 1
            } else {
                hr + 1
            }
        }
    }
}

/// In-order walk appending to `out`.
fn in_order_rec(t: &Option<Box<RbNode>>, out: &mut Vec<u32>)
    ensures
        final(out)@ == old(out)@ + in_order(*t),
    decreases *t,
{
    match t {
        None => {
            proof {
                assert(out@ =~= old(out)@ + in_order(*t));
            }
        }
        Some(n) => {
            in_order_rec(&n.left, out);
            out.push(n.key);
            in_order_rec(&n.right, out);
            proof {
                assert(out@ =~= old(out)@ + in_order(*t));
            }
        }
    }
}

/// The structural listing of `t` when its root stands at depth `d`:
/// right subtree above, node in the middle, left subtree below.
pub open spec fn structure_of(t: Option<Box<RbNode>>, d: int) -> Seq<(u32, u64, bool)>
    decreases t,
{
    match t {
        None => Seq::empty(),
        Some(n) => structure_of(n.right, d + 1)
            + seq![(n.key, d as u64, n.color == Color::Red)]
            + structure_of(n.left, d + 1),
    }
}

/// Reverse-in-order walk with depths, appending to `out`.
fn structure_rec(t: &Option<Box<RbNode>>, depth: u64, out: &mut Vec<(u32, u64, bool)>)
    requires
        depth + height_of(*t) < 0x1_0000_0000_0000,
    ensures
        final(out)@ == old(out)@ + structure_of(*t, depth as int),
    decreases *t,
{
    match t {
        None => {
            proof {
                assert(out@ =~= old(out)@ + structure_of(*t, depth as int));
            }
        }
        Some(n) => {
            structure_rec(&n.right, depth + 1, out);
            out.push((n.key, depth, n.color == Color::Red));
            structure_rec(&n.left, depth + 1, out);
            proof {
                assert(out@ =~= old(out)@ + structure_of(*t, depth as int));
            }
        }
    }
}

/// Under the search ordering, the in-order listing is strictly ascending and
/// every listed key lies in `(lo, hi)`.
pub proof fn lemma_in_order_sorted(t: Option<Box<RbNode>>, lo: int, hi: int)
    ensures
        bst_between(t, lo, hi) ==> crate::order::sorted_strict(in_order(t))
            && (forall|i: int|
                0 <= i < in_order(t).len() ==> lo < #[trigger] in_order(t)[i] < hi),
    decreases t,
{
    if bst_between(t, lo, hi) {
        match t {
            None => {}
            Some(n) => {
                lemma_in_order_sorted(n.left, lo, n.key as int);
                lemma_in_order_sorted(n.right, n.key as int, hi);
                crate::order::lemma_sorted_concat(in_order(n.left), n.key, in_order(n.right));
                assert forall|i: int|
                    0 <= i < in_order(t).len() implies lo < #[trigger] in_order(t)[i]
                    < hi by {
                    let a = in_order(n.left);
                    let b = in_order(n.right);
                    if i < a.len() {
                        assert(in_order(t)[i] == a[i]);
                    } else if i == a.len() {
                        assert(in_order(t)[i] == n.key);
                    } else {
                        assert(in_order(t)[i] == b[i - a.len() - 1]);
                    }
                }
            }
        }
    }
}

/// A path from a subtree's root toward an empty position: each step goes to
/// the right child on `true` and to the left child on `false`, and the path
/// ends exactly where the tree has no node.
pub open spec fn path_to_empty(t: Option<Box<RbNode>>, p: Seq<bool>) -> bool
    decreases p.len(),
{
    if p.len() == 0 {
        t is None
    } else {
        match t {
            None => false,
            Some(n) => path_to_empty(if p[0] { n.right } else { n.left }, p.drop_first()),
        }
    }
}

/// Number of black nodes passed on the way down `p`.
pub open spec fn blacks_on_path(t: Option<Box<RbNode>>, p: Seq<bool>) -> nat
    decreases p.len(),
{
    if p.len() == 0 {
        0
    } else {
        match t {
            None => 0,
            Some(n) => (if n.color == Color::Black { 1nat } else { 0nat })
                + blacks_on_path(if p[0] { n.right } else { n.left }, p.drop_first()),
        }
    }
}

/// Under the colouring discipline, every path from a subtree's root to any
/// empty position passes the same number of black nodes: the subtree's black
/// height.
pub proof fn lemma_uniform_black_count(t: Option<Box<RbNode>>, p: Seq<bool>)
    requires
        rb_ok(t),
        path_to_empty(t, p),
    ensures
        blacks_on_path(t, p) == black_height(t),
    decreases p.len(),
{
    if p.len() == 0 {
    } else {
        match t {
            None => {}
            Some(n) => {
                lemma_uniform_black_count(
                    if p[0] {
                        n.right
                    } else {
                        n.left
                    },
                    p.drop_first(),
                );
            }
        }
    }
}

/// A key is listed by the in-order traversal exactly when the tree holds it.
pub proof fn lemma_in_order_contains(t: Option<Box<RbNode>>, k: u32)
    ensures
        in_order(t).contains(k) <==> tree_contains(t, k),
    decreases t,
{
    match t {
        None => {
            assert(!in_order(t).contains(k));
        }
        Some(n) => {
            lemma_in_order_contains(n.left, k);
            lemma_in_order_contains(n.right, k);
            let s = in_order(t);
            let a = in_order(n.left);
            let b = in_order(n.right);
            if tree_contains(t, k) {
                if k == n.key {
                    assert(s[a.len() as int] == k);
                } else if tree_contains(n.left, k) {
                    let i = choose|i: int| 0 <= i < a.len() && a[i] == k;
                    assert(s[i] == k);
                } else {
                    let i = choose|i: int| 0 <= i < b.len() && b[i] == k;
                    assert(s[a.len() + 1 + i] == k);
                }
                assert(s.contains(k));
            }
            if s.contains(k) {
                let i = choose|i: int| 0 <= i < s.len() && s[i] == k;
                if i < a.len() {
                    assert(a[i] == k);
                } else if i == a.len() {
                } else {
                    assert(b[i - a.len() - 1] == k);
                }
                assert(tree_contains(t, k));
            }
        }
    }
}

/// The colouring discipline bounds the height: at most every second node on
/// a path is red, so no path is longer than twice the black height, plus one
/// when the subtree's root is itself red.
pub proof fn lemma_rb_height_bound(t: Option<Box<RbNode>>)
    requires
        rb_ok(t),
    ensures
        height_of(t) <= 2 * black_height(t) + if is_red(t) {
            1int
        } else {
            0int
        },
    decreases t,
{
    match t {
        None => {}
        Some(n) => {
            lemma_rb_height_bound(n.left);
            lemma_rb_height_bound(n.right);
        }
    }
}

/// A well-formed red-black tree always lists its keys in strictly ascending
/// order.
pub proof fn lemma_wf_traversal_sorted(t: RedBlackTree)
    requires
        t.wf(),
    ensures
        crate::order::sorted_strict(t.in_order_spec()),
{
    lemma_in_order_sorted(t.root, -1, 0x1_0000_0000);
}

/// Two well-formed trees holding the same keys list them identically: the
/// in-order traversal is determined by membership alone, whatever shape the
/// rebalancing produced.
pub proof fn lemma_traversal_determined(t1: RedBlackTree, t2: RedBlackTree)
    requires
        t1.wf(),
        t2.wf(),
        forall|k: u32| t1.contains_key(k) <==> t2.contains_key(k),
    ensures
        t1.in_order_spec() == t2.in_order_spec(),
{
    lemma_wf_traversal_sorted(t1);
    lemma_wf_traversal_sorted(t2);
    assert forall|k: u32|
        t1.in_order_spec().contains(k) <==> t2.in_order_spec().contains(k) by {
        lemma_in_order_contains(t1.root, k);
        lemma_in_order_contains(t2.root, k);
        assert(t1.contains_key(k) <==> t2.contains_key(k));
    }
    crate::order::lemma_sorted_unique(t1.in_order_spec(), t2.in_order_spec());
}

/// An empty tree holds no key at all.
pub proof fn lemma_empty_contains_nothing(t: RedBlackTree, k: u32)
    requires
        t.root is None,
    ensures
        !t.contains_key(k),
{
}

/// Inserting a key and then looking it up always answers yes: any tree
/// standing in `insert_node`'s relation to a predecessor holds the new key.
pub proof fn lemma_insert_then_contains(pre: RedBlackTree, post: RedBlackTree, key: u32)
    requires
        forall|k: u32| post.contains_key(k) <==> pre.contains_key(k) || k == key,
    ensures
        post.contains_key(key),
{
}



/// A subtree obeying the colouring discipline holds at least `2^bh - 1`
/// nodes: the black height is logarithmic in the size.
pub proof fn lemma_rb_size_bound(t: Option<Box<RbNode>>)
    requires
        rb_ok(t),
    ensures
        size_of(t) + 1 >= crate::order::pow2(black_height(t)),
    decreases t,
{
    match t {
        None => {}
        Some(n) => {
            lemma_rb_size_bound(n.left);
            lemma_rb_size_bound(n.right);
            if n.color == Color::Black {
                assert(crate::order::pow2(black_height(t)) == 2 * crate::order::pow2(
                    black_height(n.left)));
            }
        }
    }
}

/// The two bounds together: the height of a red-black subtree is
/// logarithmic in its size.
pub proof fn lemma_rb_height_logarithmic(t: Option<Box<RbNode>>)
    requires
        rb_ok(t),
        !is_red(t),
    ensures
        crate::order::pow2((height_of(t) / 2) as nat) <= size_of(t) + 1,
{
    lemma_rb_height_bound(t);
    lemma_rb_size_bound(t);
    crate::order::lemma_pow2_mono((height_of(t) / 2) as nat, black_height(t));
}

/// The ascending triple scenario: inserting 10, then 20, then 30 into the
/// empty tree ends in a single left rotation at the root, leaving 20 black
/// on top with 10 and 30 as red leaf children. Together with
/// `insert_node`'s ensures clause `final(self).root ==
/// insert_model(old(self).root, key)`, this pins the colours of the tree
/// those three calls build.
pub proof fn lemma_ascending_triple_scenario()
    ensures
        ({
            let t = insert_model(insert_model(insert_model(None, 10), 20), 30);
            &&& t is Some
            &&& t.unwrap().key == 20
            &&& t.unwrap().color == Color::Black
            &&& t.unwrap().left == Some(
                Box::new(RbNode { key: 10u32, color: Color::Red, left: None, right: None }),
            )
            &&& t.unwrap().right == Some(
                Box::new(RbNode { key: 30u32, color: Color::Red, left: None, right: None }),
            )
        }),
{
    let t1 = insert_model(None, 10);
    let n1 = t1.unwrap();
    assert(n1.key == 10 && n1.color == Color::Black && n1.left is None && n1.right is None);
    // 20 goes to the right of the black root: a red leaf, no conflict
    let step2 = rb_ins_model(n1, 20, true);
    let n2 = step2.0;
    let t2 = insert_model(t1, 20);
    assert(t2 == Some(n2));
    assert(n2.key == 10 && n2.color == Color::Black && n2.left is None);
    let r20 = n2.right.unwrap();
    assert(r20.key == 20 && r20.color == Color::Red && r20.left is None && r20.right is None);
    // 30 lands below the red 20: the frame of 20 reports the conflict and
    // the root frame repairs it with one left rotation
    let inner = rb_ins_model(r20, 30, false);
    assert(inner.0.key == 20 && inner.0.color == Color::Red && inner.0.left is None);
    assert(inner.0.right == Some(
        Box::new(RbNode { key: 30u32, color: Color::Red, left: None, right: None }),
    ));
    assert(inner.1);
    let step3 = rb_ins_model(n2, 30, true);
    let attached = Box::new(RbNode {
        key: 10u32,
        color: Color::Black,
        left: None,
        right: Some(inner.0),
    });
    assert(step3.0 == fix_right_model(attached, true));
    assert(!is_red(attached.left) && !is_red(inner.0.left));
    assert(step3.0.key == 20 && step3.0.color == Color::Black);
    assert(step3.0.left == Some(
        Box::new(RbNode { key: 10u32, color: Color::Red, left: None, right: None }),
    ));
    assert(step3.0.right == Some(
        Box::new(RbNode { key: 30u32, color: Color::Red, left: None, right: None }),
    ));
    assert(insert_model(t2, 30) == Some(step3.0));
}

} // verus!
