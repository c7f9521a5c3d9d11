//! What a subtree holds, and the invariants of a red-black tree.

use crate::node::{HasColour, Subtree, TreeNode};
use crate::order::{less, strict_order};
use vstd::prelude::*;

verus! {

/// The entries of a subtree, as a map from key to value.
pub open spec fn contents<K: Ord + Copy, V: Copy>(t: &Subtree<K, V>) -> Map<K, V>
    decreases t,
{
    match t {
        None => Map::empty(),
        Some(n) => contents(&n.left).union_prefer_right(contents(&n.right)).insert(n.key, n.val),
    }
}

/// Every key of the subtree sorts before `bound`.
pub open spec fn all_less<K: Ord + Copy, V: Copy>(t: &Subtree<K, V>, bound: K) -> bool {
    forall|x: K| #[trigger] contents(t).contains_key(x) ==> less(x, bound)
}

/// Every key of the subtree sorts after `bound`.
pub open spec fn all_greater<K: Ord + Copy, V: Copy>(t: &Subtree<K, V>, bound: K) -> bool {
    forall|x: K| #[trigger] contents(t).contains_key(x) ==> less(bound, x)
}

/// Search-tree order: at every node, the keys on the left sort before the
/// node's key and the keys on the right sort after it.
pub open spec fn ordered<K: Ord + Copy, V: Copy>(t: &Subtree<K, V>) -> bool
    decreases t,
{
    match t {
        None => true,
        Some(n) => {
            &&& ordered(&n.left)
            &&& ordered(&n.right)
            &&& all_less(&n.left, n.key)
            &&& all_greater(&n.right, n.key)
        },
    }
}

/// No red node has a red child.
pub open spec fn no_red_red<K: Ord + Copy, V: Copy>(t: &Subtree<K, V>) -> bool
    decreases t,
{
    match t {
        None => true,
        Some(n) => {
            &&& no_red_red(&n.left)
            &&& no_red_red(&n.right)
            &&& n.is_red ==> !n.left.red() && !n.right.red()
        },
    }
}

/// The number of black nodes on the leftmost path from the root of the subtree
/// down to an empty subtree. In a balanced subtree every such path has this
/// many.
pub open spec fn black_height<K: Ord + Copy, V: Copy>(t: &Subtree<K, V>) -> nat
    decreases t,
{
    match t {
        None => 0,
        Some(n) => if n.is_red {
            black_height(&n.left)
        } else {
            black_height(&n.left) + 1
        },
    }
}

/// Every path from a node down to an empty subtree passes the same number of
/// black nodes.
pub open spec fn balanced<K: Ord + Copy, V: Copy>(t: &Subtree<K, V>) -> bool
    decreases t,
{
    match t {
        None => true,
        Some(n) => {
            &&& balanced(&n.left)
            &&& balanced(&n.right)
            &&& black_height(&n.left) == black_height(&n.right)
        },
    }
}

/// The invariants that hold of every subtree of a red-black tree: search-tree
/// order, no red node with a red child, and equal black height on all paths.
pub open spec fn valid<K: Ord + Copy, V: Copy>(t: &Subtree<K, V>) -> bool {
    &&& ordered(t)
    &&& no_red_red(t)
    &&& balanced(t)
}

/// A red-black tree: a valid subtree with a black root.
pub open spec fn red_black<K: Ord + Copy, V: Copy>(t: &Subtree<K, V>) -> bool {
    &&& valid(t)
    &&& !t.red()
}

/// One step of a search: in an ordered subtree, a key that sorts before the
/// root's key is found in the left subtree or nowhere, and one that sorts after
/// it in the right subtree or nowhere.
pub proof fn lemma_search_step<K: Ord + Copy, V: Copy>(n: &TreeNode<K, V>, key: K)
    requires
        strict_order::<K>(),
        ordered(&Some(*n)),
    ensures
        contents(&Some(*n)).contains_key(n.key),
        contents(&Some(*n))[n.key] == n.val,
        less(key, n.key) ==> contents(&Some(*n)).contains_key(key) == contents(&n.left).contains_key(
            key,
        ),
        less(key, n.key) && contents(&n.left).contains_key(key) ==> contents(&Some(*n))[key]
            == contents(&n.left)[key],
        less(n.key, key) ==> contents(&Some(*n)).contains_key(key) == contents(
            &n.right,
        ).contains_key(key),
        less(n.key, key) && contents(&n.right).contains_key(key) ==> contents(&Some(*n))[key]
            == contents(&n.right)[key],
{
    if less(key, n.key) {
        assert(!contents(&n.right).contains_key(key));
    }
    if less(n.key, key) {
        assert(!contents(&n.left).contains_key(key));
    }
}

} // verus!
