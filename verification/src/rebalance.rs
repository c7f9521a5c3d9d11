//! Insertion into a subtree, stated on values: which tree comes out, and why it
//! is again a red-black tree.

use crate::node::{HasColour, Subtree, TreeNode};
use crate::order::{less, strict_order};
use crate::shape::{
    all_greater, all_less, balanced, black_height, contents, no_red_red, ordered, red_black, valid,
};
use std::rc::Rc;
use vstd::prelude::*;

verus! {

/// A red root with a red child: the one violation that an insertion into a
/// subtree may leave behind, for the parent to resolve.
pub open spec fn double_red<K: Ord + Copy, V: Copy>(t: &Subtree<K, V>) -> bool {
    t matches Some(n) && n.is_red && (n.left.red() || n.right.red())
}

/// The same subtree with a black root.
pub open spec fn blackened<K: Ord + Copy, V: Copy>(t: &Subtree<K, V>) -> Subtree<K, V> {
    match t {
        None => None,
        Some(n) => n.with(false, &n.left, &n.right),
    }
}

/// Node `p` after an insertion has turned its left subtree into `l`.
///
/// Where `p` is black and `l` is a double red, `p` resolves it: with a red
/// right child by recolouring (`p` red, both children black), otherwise by a
/// single rotation when the red grandchild is on the left of `l`, and by a
/// double rotation when it is on the right. In every other case `p` keeps its
/// colour and only takes `l` as its left child.
pub open spec fn rebuilt_left<K: Ord + Copy, V: Copy>(
    p: &TreeNode<K, V>,
    l: &Subtree<K, V>,
) -> Subtree<K, V> {
    if !p.is_red && double_red(l) {
        let c = l.unwrap();
        if p.right.red() {
            p.with(true, &blackened(l), &blackened(&p.right))
        } else if c.left.red() {
            c.with(false, &c.left, &p.with(true, &c.right, &p.right))
        } else {
            let g = c.right.unwrap();
            g.with(false, &c.with(true, &c.left, &g.left), &p.with(true, &g.right, &p.right))
        }
    } else {
        p.with(p.is_red, l, &p.right)
    }
}

/// Node `p` after an insertion has turned its right subtree into `r`: the
/// mirror image of [`rebuilt_left`].
pub open spec fn rebuilt_right<K: Ord + Copy, V: Copy>(
    p: &TreeNode<K, V>,
    r: &Subtree<K, V>,
) -> Subtree<K, V> {
    if !p.is_red && double_red(r) {
        let c = r.unwrap();
        if p.left.red() {
            p.with(true, &blackened(&p.left), &blackened(r))
        } else if c.right.red() {
            c.with(false, &p.with(true, &p.left, &c.left), &c.right)
        } else {
            let g = c.left.unwrap();
            g.with(false, &p.with(true, &p.left, &g.left), &c.with(true, &g.right, &c.right))
        }
    } else {
        p.with(p.is_red, &p.left, r)
    }
}

/// The subtree `t` with the entry `(key, val)` added as a red leaf and every
/// node on the way down rebuilt. Its root may be red, and may be a double red
/// where the root of `t` is red. A subtree that holds `key` already is returned
/// as it is.
pub open spec fn grown<K: Ord + Copy, V: Copy>(t: &Subtree<K, V>, key: K, val: V) -> Subtree<K, V>
    decreases t,
{
    match t {
        None => Some(
            TreeNode { is_red: true, key, val, left: Rc::new(None), right: Rc::new(None) },
        ),
        Some(n) => if less(key, n.key) {
            rebuilt_left(n, &grown(&n.left, key, val))
        } else if less(n.key, key) {
            rebuilt_right(n, &grown(&n.right, key, val))
        } else {
            *t
        },
    }
}

/// The tree that an insertion of `(key, val)` into the tree `t` gives: the
/// grown tree with its root made black.
pub open spec fn inserted<K: Ord + Copy, V: Copy>(
    t: &Subtree<K, V>,
    key: K,
    val: V,
) -> Subtree<K, V> {
    blackened(&grown(t, key, val))
}

/// A subtree in which only the root may break the colour rule, and only by
/// being red with exactly one red child.
pub open spec fn nearly_no_red_red<K: Ord + Copy, V: Copy>(t: &Subtree<K, V>) -> bool {
    match t {
        None => true,
        Some(n) => {
            &&& no_red_red(&n.left)
            &&& no_red_red(&n.right)
            &&& n.is_red ==> !(n.left.red() && n.right.red())
        },
    }
}

/// `now` holds the entries of `before` and `(key, val)`, in search-tree order.
pub open spec fn holds_one_more<K: Ord + Copy, V: Copy>(
    now: &Subtree<K, V>,
    before: &Subtree<K, V>,
    key: K,
    val: V,
) -> bool {
    &&& contents(now) == contents(before).insert(key, val)
    &&& ordered(now)
}

/// `now` can stand where `before` stood: it is balanced and as high, and it
/// keeps the colour rule but, at most, for a double red at its root, which
/// occurs only where the root of `before` was red.
pub open spec fn stands_for<K: Ord + Copy, V: Copy>(
    now: &Subtree<K, V>,
    before: &Subtree<K, V>,
) -> bool {
    &&& now is Some
    &&& balanced(now)
    &&& black_height(now) == black_height(before)
    &&& nearly_no_red_red(now)
    &&& !before.red() ==> no_red_red(now)
}

/// What the shape functions say of a node built from its parts, one step of
/// each definition.
proof fn lemma_built<K: Ord + Copy, V: Copy>(
    p: &TreeNode<K, V>,
    is_red: bool,
    l: &Subtree<K, V>,
    r: &Subtree<K, V>,
)
    ensures
        contents(&p.with(is_red, l, r)) == contents(l).union_prefer_right(contents(r)).insert(
            p.key,
            p.val,
        ),
        ordered(&p.with(is_red, l, r)) == (ordered(l) && ordered(r) && all_less(l, p.key)
            && all_greater(r, p.key)),
        no_red_red(&p.with(is_red, l, r)) == (no_red_red(l) && no_red_red(r) && (is_red ==> !l.red()
            && !r.red())),
        black_height(&p.with(is_red, l, r)) == black_height(l) + (if is_red { 0nat } else { 1nat }),
        balanced(&p.with(is_red, l, r)) == (balanced(l) && balanced(r) && black_height(l)
            == black_height(r)),
        p.with(is_red, l, r).red() == is_red,
{
}

/// Making the root black keeps the entries, the order and the balance, adds
/// one to the black height of a red root, and mends a double red.
proof fn lemma_blackened<K: Ord + Copy, V: Copy>(t: &Subtree<K, V>)
    ensures
        contents(&blackened(t)) == contents(t),
        ordered(&blackened(t)) == ordered(t),
        balanced(&blackened(t)) == balanced(t),
        black_height(&blackened(t)) == black_height(t) + (if t.red() { 1nat } else { 0nat }),
        nearly_no_red_red(t) ==> no_red_red(&blackened(t)),
        no_red_red(t) ==> no_red_red(&blackened(t)),
        !blackened(t).red(),
        !t.red() ==> blackened(t) == *t,
        (t is Some) == (blackened(t) is Some),
{
}

/// The colours and heights after a node has taken a new left subtree.
proof fn lemma_rebuilt_left_stands<K: Ord + Copy, V: Copy>(p: &TreeNode<K, V>, l: &Subtree<K, V>)
    requires
        no_red_red(&Some(*p)),
        balanced(&Some(*p)),
        stands_for(l, &p.left),
    ensures
        stands_for(&rebuilt_left(p, l), &Some(*p)),
{
    if !p.is_red && double_red(l) {
        let c = l.unwrap();
        if p.right.red() {
            lemma_blackened(l);
            lemma_blackened(&p.right);
            lemma_built(p, true, &blackened(l), &blackened(&p.right));
        } else if c.left.red() {
            lemma_built(p, true, &c.right, &p.right);
            lemma_built(&c, false, &c.left, &p.with(true, &c.right, &p.right));
        } else if let Some(g) = &*c.right {
            // `g` lies two levels down: one more step of the two definitions
            assert(balanced(&c.right) && no_red_red(&c.right));
            lemma_built(&c, true, &c.left, &g.left);
            lemma_built(p, true, &g.right, &p.right);
            lemma_built(
                g,
                false,
                &c.with(true, &c.left, &g.left),
                &p.with(true, &g.right, &p.right),
            );
        }
    } else {
        lemma_built(p, p.is_red, l, &p.right);
    }
}

/// The colours and heights after a node has taken a new right subtree.
proof fn lemma_rebuilt_right_stands<K: Ord + Copy, V: Copy>(p: &TreeNode<K, V>, r: &Subtree<K, V>)
    requires
        no_red_red(&Some(*p)),
        balanced(&Some(*p)),
        stands_for(r, &p.right),
    ensures
        stands_for(&rebuilt_right(p, r), &Some(*p)),
{
    if !p.is_red && double_red(r) {
        let c = r.unwrap();
        if p.left.red() {
            lemma_blackened(r);
            lemma_blackened(&p.left);
            lemma_built(p, true, &blackened(&p.left), &blackened(r));
        } else if c.right.red() {
            lemma_built(p, true, &p.left, &c.left);
            lemma_built(&c, false, &p.with(true, &p.left, &c.left), &c.right);
        } else if let Some(g) = &*c.left {
            // `g` lies two levels down: one more step of the two definitions
            assert(balanced(&c.left) && no_red_red(&c.left));
            lemma_built(p, true, &p.left, &g.left);
            lemma_built(&c, true, &g.right, &c.right);
            lemma_built(
                g,
                false,
                &p.with(true, &p.left, &g.left),
                &c.with(true, &g.right, &c.right),
            );
        }
    } else {
        lemma_built(p, p.is_red, &p.left, r);
    }
}

/// The bounds of a node built from its parts.
proof fn lemma_bounds_built<K: Ord + Copy, V: Copy>(
    p: &TreeNode<K, V>,
    is_red: bool,
    l: &Subtree<K, V>,
    r: &Subtree<K, V>,
    bound: K,
)
    ensures
        all_less(&p.with(is_red, l, r), bound) == (all_less(l, bound) && all_less(r, bound) && less(
            p.key,
            bound,
        )),
        all_greater(&p.with(is_red, l, r), bound) == (all_greater(l, bound) && all_greater(r, bound)
            && less(bound, p.key)),
{
    let t = p.with(is_red, l, r);
    assert(contents(&t) == contents(l).union_prefer_right(contents(r)).insert(p.key, p.val));
    assert(contents(&t).contains_key(p.key));
    if all_less(&t, bound) {
        assert forall|x: K| #[trigger] contents(l).contains_key(x) implies less(x, bound) by {
            assert(contents(&t).contains_key(x));
        }
        assert forall|x: K| #[trigger] contents(r).contains_key(x) implies less(x, bound) by {
            assert(contents(&t).contains_key(x));
        }
    }
    if all_greater(&t, bound) {
        assert forall|x: K| #[trigger] contents(l).contains_key(x) implies less(bound, x) by {
            assert(contents(&t).contains_key(x));
        }
        assert forall|x: K| #[trigger] contents(r).contains_key(x) implies less(bound, x) by {
            assert(contents(&t).contains_key(x));
        }
    }
}

/// A bound may be moved away from the keys.
proof fn lemma_bound_moved<K: Ord + Copy, V: Copy>(t: &Subtree<K, V>, a: K, b: K)
    requires
        strict_order::<K>(),
        less(a, b),
    ensures
        all_less(t, a) ==> all_less(t, b),
        all_greater(t, b) ==> all_greater(t, a),
{
    if all_less(t, a) {
        assert forall|x: K| #[trigger] contents(t).contains_key(x) implies less(x, b) by {
            assert(less(x, a) && less(a, b));
        }
    }
    if all_greater(t, b) {
        assert forall|x: K| #[trigger] contents(t).contains_key(x) implies less(a, x) by {
            assert(less(a, b) && less(b, x));
        }
    }
}

/// A rotation keeps the order and the entries. The two trees hold `c` and
/// `p` with the subtrees `a`, `b`, `r` from left to right: in the first `p`
/// is the root and `c` its left child, in the second `c` is the root and `p`
/// its right child. The colours are free.
proof fn lemma_rotation<K: Ord + Copy, V: Copy>(
    p: &TreeNode<K, V>,
    c: &TreeNode<K, V>,
    a: &Subtree<K, V>,
    b: &Subtree<K, V>,
    r: &Subtree<K, V>,
    p_above: bool,
    c_below: bool,
    c_above: bool,
    p_below: bool,
)
    requires
        strict_order::<K>(),
    ensures
        ordered(&p.with(p_above, &c.with(c_below, a, b), r)) == ordered(
            &c.with(c_above, a, &p.with(p_below, b, r)),
        ),
        ordered(&p.with(p_above, &c.with(c_below, a, b), r)) ==> contents(
            &p.with(p_above, &c.with(c_below, a, b), r),
        ) == contents(&c.with(c_above, a, &p.with(p_below, b, r))),
{
    let low_c = c.with(c_below, a, b);
    let low_p = p.with(p_below, b, r);
    lemma_built(p, p_above, &low_c, r);
    lemma_built(c, c_above, a, &low_p);
    lemma_bounds_built(c, c_below, a, b, p.key);
    lemma_bounds_built(p, p_below, b, r, c.key);
    if less(c.key, p.key) {
        // what sorts before `c` sorts before `p`, what sorts after `p` sorts after `c`
        lemma_bound_moved(a, c.key, p.key);
        lemma_bound_moved(r, c.key, p.key);
    }
    if ordered(&p.with(p_above, &low_c, r)) {
        // `c` is not in `r`: the only key that the two trees could disagree on
        assert(!contents(r).contains_key(c.key));
        assert(contents(&p.with(p_above, &low_c, r)) =~= contents(&c.with(c_above, a, &low_p)));
    }
}

/// A node that takes a left subtree with one entry more, below its own key,
/// holds one entry more.
proof fn lemma_left_replaced<K: Ord + Copy, V: Copy>(
    p: &TreeNode<K, V>,
    is_red: bool,
    l: &Subtree<K, V>,
    key: K,
    val: V,
)
    requires
        strict_order::<K>(),
        ordered(&Some(*p)),
        less(key, p.key),
        holds_one_more(l, &p.left, key, val),
    ensures
        holds_one_more(&p.with(is_red, l, &p.right), &Some(*p), key, val),
{
    // the key is not on the right, where every key sorts after that of `p`
    assert(!contents(&p.right).contains_key(key));
    assert(contents(&p.with(is_red, l, &p.right)) =~= contents(&Some(*p)).insert(key, val));
}

/// A node that takes a right subtree with one entry more, above its own key,
/// holds one entry more.
proof fn lemma_right_replaced<K: Ord + Copy, V: Copy>(
    p: &TreeNode<K, V>,
    is_red: bool,
    r: &Subtree<K, V>,
    key: K,
    val: V,
)
    requires
        strict_order::<K>(),
        ordered(&Some(*p)),
        less(p.key, key),
        holds_one_more(r, &p.right, key, val),
    ensures
        holds_one_more(&p.with(is_red, &p.left, r), &Some(*p), key, val),
{
    // the key is not on the left, where every key sorts before that of `p`
    assert(!contents(&p.left).contains_key(key));
    assert(contents(&p.with(is_red, &p.left, r)) =~= contents(&Some(*p)).insert(key, val));
}

/// The entries and their order after a node has taken a new left subtree.
proof fn lemma_rebuilt_left_holds<K: Ord + Copy, V: Copy>(
    p: &TreeNode<K, V>,
    l: &Subtree<K, V>,
    key: K,
    val: V,
)
    requires
        strict_order::<K>(),
        ordered(&Some(*p)),
        less(key, p.key),
        holds_one_more(l, &p.left, key, val),
    ensures
        holds_one_more(&rebuilt_left(p, l), &Some(*p), key, val),
{
    if !p.is_red && double_red(l) {
        let c = l.unwrap();
        if p.right.red() {
            lemma_left_replaced(p, true, l, key, val);
            lemma_blackened(l);
            lemma_blackened(&p.right);
            lemma_built(p, true, l, &p.right);
            lemma_built(p, true, &blackened(l), &blackened(&p.right));
        } else if c.left.red() {
            lemma_left_replaced(p, true, l, key, val);
            lemma_rotation(p, &c, &c.left, &c.right, &p.right, true, true, false, true);
        } else if let Some(g) = &*c.right {
            // two rotations: first `g` comes above `c`, then above `p`
            lemma_rotation(g, &c, &c.left, &g.left, &g.right, true, true, true, g.is_red);
            let turned = c.with(true, &c.left, &g.left);
            lemma_left_replaced(p, true, &g.with(true, &turned, &g.right), key, val);
            lemma_rotation(p, g, &turned, &g.right, &p.right, true, true, false, true);
        }
    } else {
        lemma_left_replaced(p, p.is_red, l, key, val);
    }
}

/// The entries and their order after a node has taken a new right subtree.
proof fn lemma_rebuilt_right_holds<K: Ord + Copy, V: Copy>(
    p: &TreeNode<K, V>,
    r: &Subtree<K, V>,
    key: K,
    val: V,
)
    requires
        strict_order::<K>(),
        ordered(&Some(*p)),
        less(p.key, key),
        holds_one_more(r, &p.right, key, val),
    ensures
        holds_one_more(&rebuilt_right(p, r), &Some(*p), key, val),
{
    if !p.is_red && double_red(r) {
        let c = r.unwrap();
        if p.left.red() {
            lemma_right_replaced(p, true, r, key, val);
            lemma_blackened(r);
            lemma_blackened(&p.left);
            lemma_built(p, true, &p.left, r);
            lemma_built(p, true, &blackened(&p.left), &blackened(r));
        } else if c.right.red() {
            lemma_right_replaced(p, true, r, key, val);
            lemma_rotation(&c, p, &p.left, &c.left, &c.right, false, true, true, true);
        } else if let Some(g) = &*c.left {
            // two rotations: first `g` comes above `c`, then above `p`
            lemma_rotation(&c, g, &g.left, &g.right, &c.right, true, g.is_red, true, true);
            let turned = c.with(true, &g.right, &c.right);
            lemma_right_replaced(p, true, &g.with(true, &g.left, &turned), key, val);
            lemma_rotation(g, p, &p.left, &g.left, &turned, false, true, true, true);
        }
    } else {
        lemma_right_replaced(p, p.is_red, r, key, val);
    }
}

/// Growing a valid subtree by a key that it does not hold gives a subtree with
/// that one entry more, in order, balanced and as high as before, whose
/// colours are right but, at most, for a double red at the root.
pub proof fn lemma_grown<K: Ord + Copy, V: Copy>(t: &Subtree<K, V>, key: K, val: V)
    requires
        strict_order::<K>(),
        valid(t),
        !contents(t).contains_key(key),
    ensures
        holds_one_more(&grown(t, key, val), t, key, val),
        stands_for(&grown(t, key, val), t),
    decreases t,
{
    match t {
        None => {
            assert(contents(&grown(t, key, val)) =~= contents(t).insert(key, val));
        },
        Some(n) => {
            if less(key, n.key) {
                lemma_grown(&n.left, key, val);
                lemma_rebuilt_left_holds(n, &grown(&n.left, key, val), key, val);
                lemma_rebuilt_left_stands(n, &grown(&n.left, key, val));
            } else {
                // the key is not that of `n`, which the subtree holds
                assert(contents(t).contains_key(n.key));
                lemma_grown(&n.right, key, val);
                lemma_rebuilt_right_holds(n, &grown(&n.right, key, val), key, val);
                lemma_rebuilt_right_stands(n, &grown(&n.right, key, val));
            }
        },
    }
}

/// Inserting a key that a red-black tree does not hold gives a red-black tree
/// with that one entry more.
pub proof fn lemma_inserted<K: Ord + Copy, V: Copy>(t: &Subtree<K, V>, key: K, val: V)
    requires
        strict_order::<K>(),
        red_black(t),
        !contents(t).contains_key(key),
    ensures
        red_black(&inserted(t, key, val)),
        inserted(t, key, val) is Some,
        contents(&inserted(t, key, val)) == contents(t).insert(key, val),
{
    lemma_grown(t, key, val);
    lemma_blackened(&grown(t, key, val));
}

} // verus!
