//! The persistent map: lookup and insertion.

use crate::node::{HasColour, Link, Subtree, TreeNode};
use crate::order::strict_order;
use crate::rebalance::{blackened, double_red, grown, inserted, lemma_grown, lemma_inserted};
use crate::shape::{contents, lemma_search_step, ordered, red_black, valid};
use std::cmp::Ordering;
use std::rc::Rc;
use vstd::pervasive::unreached;
use vstd::prelude::*;

verus! {

/// A persistent red-black tree that maps keys to values. A tree is never
/// changed: `insert` returns a new tree, which shares with this one every
/// subtree that the insertion did not touch.
#[derive(Debug)]
pub struct Tree<K, V> where K: Ord + Copy, V: Copy {
    pub root: Link<K, V>,
}

/// Why an insertion was refused.
#[derive(Debug, Clone, Copy, PartialEq, Eq)]
pub enum InsertError {
    /// The tree holds the key already.
    DuplicateKey,
}

/// What the insertion into a subtree hands up to the node above.
enum InsertionResultRecursion<K, V> where K: Ord + Copy, V: Copy {
    /// The key is already present.
    Failure,
    /// The new subtree; nothing is left to resolve.
    Standard(Link<K, V>),
    /// The new subtree has a red root whose left child is red too.
    DoubleRedLeft(Link<K, V>),
    /// The new subtree has a red root whose right child is red too.
    DoubleRedRight(Link<K, V>),
}

impl<K, V> InsertionResultRecursion<K, V> where K: Ord + Copy, V: Copy {
    /// This is what an insertion of `(key, val)` into the subtree `t` hands up.
    spec fn comes_of(&self, t: &Subtree<K, V>, key: K, val: V) -> bool {
        match self {
            InsertionResultRecursion::Failure => contents(t).contains_key(key),
            InsertionResultRecursion::Standard(now) => {
                &&& !contents(t).contains_key(key)
                &&& **now == grown(t, key, val)
                &&& !double_red(now)
            },
            InsertionResultRecursion::DoubleRedLeft(now) => {
                &&& !contents(t).contains_key(key)
                &&& **now == grown(t, key, val)
                &&& now.red()
                &&& now.unwrap().left.red()
            },
            InsertionResultRecursion::DoubleRedRight(now) => {
                &&& !contents(t).contains_key(key)
                &&& **now == grown(t, key, val)
                &&& now.red()
                &&& !now.unwrap().left.red()
                &&& now.unwrap().right.red()
            },
        }
    }
}

impl<K, V> View for Tree<K, V> where K: Ord + Copy, V: Copy {
    type V = Map<K, V>;

    /// The entries of the tree.
    open spec fn view(&self) -> Map<K, V> {
        contents(&self.root)
    }
}

impl<K, V> Tree<K, V> where K: Ord + Copy, V: Copy {
    /// The tree is a red-black tree: its keys are in search-tree order, no red
    /// node has a red child, every path from the root to an empty subtree
    /// passes the same number of black nodes, and the root is black.
    pub open spec fn wf(&self) -> bool {
        red_black(&self.root)
    }

    /// The tree that `insert` returns for a key that this tree does not hold.
    pub open spec fn inserting(&self, key: K, val: V) -> Tree<K, V> {
        Tree { root: Rc::new(inserted(&self.root, key, val)) }
    }

    /// The empty tree.
    pub fn new() -> (t: Tree<K, V>)
        ensures
            t.wf(),
            t@ == Map::<K, V>::empty(),
            t.root.is_none(),
    {
        Tree { root: Rc::new(None) }
    }

    /// Inserts `(key, val)`. A tree that holds `key` already is left as it is
    /// and the insertion is refused; otherwise the result is a new red-black
    /// tree with that one entry more.
    pub fn insert(&self, key: K, val: V) -> (r: Result<Tree<K, V>, InsertError>)
        requires
            strict_order::<K>(),
            self.wf(),
        ensures
            match r {
                Ok(t) => {
                    &&& !self@.contains_key(key)
                    &&& t == self.inserting(key, val)
                    &&& t.wf()
                    &&& t@ == self@.insert(key, val)
                },
                Err(e) => self@.contains_key(key) && e == InsertError::DuplicateKey,
            },
    {
        proof {
            if !self@.contains_key(key) {
                lemma_grown(&self.root, key, val);
                lemma_inserted(&self.root, key, val);
            }
        }
        match Self::rec_insert(key, val, &self.root) {
            InsertionResultRecursion::Failure => Err(InsertError::DuplicateKey),
            InsertionResultRecursion::Standard(root) => Ok(Tree { root: Self::blacken(&root) }),
            _ => unreached(),
        }
    }

    /// The subtree behind `link` with a black root: `link` itself where the
    /// root is black already, else a black node with the same entry and the
    /// same two children.
    fn blacken(link: &Link<K, V>) -> (r: Link<K, V>)
        ensures
            *r == blackened(link),
    {
        match &**link {
            None => link.clone(),
            Some(node) => {
                if node.is_red() {
                    node.recolour(false, node.left.clone(), node.right.clone())
                } else {
                    link.clone()
                }
            },
        }
    }

    /// Inserts into the subtree `current` and tells the node above what came of
    /// it: the key was there, or the new subtree, with a plain tag or, where
    /// its root is red and has a red child, with the side of that child. A
    /// black node that is handed such a double red from below resolves it at
    /// once: by recolouring where its other child is red, by a rotation where
    /// it is black.
    fn rec_insert(key: K, val: V, current: &Link<K, V>) -> (r: InsertionResultRecursion<K, V>)
        requires
            strict_order::<K>(),
            valid(current),
        ensures
            r.comes_of(current, key, val),
        decreases current,
    {
        match &**current {
            None => {
                // insert here
                InsertionResultRecursion::Standard(
                    Rc::new(
                        Some(
                            TreeNode {
                                is_red: true,
                                key: key,
                                val: val,
                                left: Rc::new(None),
                                right: Rc::new(None),
                            },
                        ),
                    ),
                )
            },
            Some(node) => {
                proof {
                    lemma_search_step(node, key);
                }
                match key.cmp(&node.key) {
                    Ordering::Less => {
                        proof {
                            if !contents(&node.left).contains_key(key) {
                                lemma_grown(&node.left, key, val);
                            }
                        }
                        match Self::rec_insert(key, val, &node.left) {
                            InsertionResultRecursion::Failure => InsertionResultRecursion::Failure,
                            InsertionResultRecursion::Standard(left_child) => {
                                if node.is_red() && left_child.is_red() {
                                    let rebuilt = node.recolour(true, left_child, node.right.clone());
                                    InsertionResultRecursion::DoubleRedLeft(rebuilt)
                                } else {
                                    let rebuilt = node.recolour(
                                        node.is_red,
                                        left_child,
                                        node.right.clone(),
                                    );
                                    InsertionResultRecursion::Standard(rebuilt)
                                }
                            },
                            InsertionResultRecursion::DoubleRedLeft(left_child) => {
                                if node.is_red() {
                                    unreached()
                                } else if node.right.is_red() {
                                    //       B (self)         R
                                    //      / \              / \
                                    //     R   R     =>     B   B
                                    //    /                /
                                    //   R                R
                                    let new_left = Self::blacken(&left_child);
                                    let new_right = Self::blacken(&node.right);
                                    let rebuilt = node.recolour(true, new_left, new_right);
                                    InsertionResultRecursion::Standard(rebuilt)
                                } else {
                                    //       B (self)         B
                                    //      / \              / \
                                    //     R   B     =>     R   R (self)
                                    //    /                      \
                                    //   R                        B
                                    let old_left = (*left_child).as_ref().unwrap();
                                    let new_right = node.recolour(
                                        true,
                                        old_left.right.clone(),
                                        node.right.clone(),
                                    );
                                    let rebuilt = old_left.recolour(
                                        false,
                                        old_left.left.clone(),
                                        new_right,
                                    );
                                    InsertionResultRecursion::Standard(rebuilt)
                                }
                            },
                            InsertionResultRecursion::DoubleRedRight(left_child) => {
                                if node.is_red() {
                                    unreached()
                                } else if node.right.is_red() {
                                    //     B (self)         R
                                    //    / \              / \
                                    //   R   R     =>     B   B
                                    //    \                \
                                    //     R                R
                                    let new_left = Self::blacken(&left_child);
                                    let new_right = Self::blacken(&node.right);
                                    let rebuilt = node.recolour(true, new_left, new_right);
                                    InsertionResultRecursion::Standard(rebuilt)
                                } else {
                                    //     B (self)         B
                                    //    / \              / \
                                    //   R   B     =>     R   R (self)
                                    //    \                    \
                                    //     R                    B
                                    //
                                    // the lower red node comes to the top
                                    let old_left = (*left_child).as_ref().unwrap();
                                    let old_grandchild = (*old_left.right).as_ref().unwrap();
                                    let new_left = old_left.recolour(
                                        true,
                                        old_left.left.clone(),
                                        old_grandchild.left.clone(),
                                    );
                                    let new_right = node.recolour(
                                        true,
                                        old_grandchild.right.clone(),
                                        node.right.clone(),
                                    );
                                    let rebuilt = old_grandchild.recolour(false, new_left, new_right);
                                    InsertionResultRecursion::Standard(rebuilt)
                                }
                            },
                        }
                    },
                    Ordering::Greater => {
                        proof {
                            if !contents(&node.right).contains_key(key) {
                                lemma_grown(&node.right, key, val);
                            }
                        }
                        match Self::rec_insert(key, val, &node.right) {
                            InsertionResultRecursion::Failure => InsertionResultRecursion::Failure,
                            InsertionResultRecursion::Standard(right_child) => {
                                if node.is_red() && right_child.is_red() {
                                    let rebuilt = node.recolour(true, node.left.clone(), right_child);
                                    InsertionResultRecursion::DoubleRedRight(rebuilt)
                                } else {
                                    let rebuilt = node.recolour(
                                        node.is_red,
                                        node.left.clone(),
                                        right_child,
                                    );
                                    InsertionResultRecursion::Standard(rebuilt)
                                }
                            },
                            InsertionResultRecursion::DoubleRedLeft(right_child) => {
                                if node.is_red() {
                                    unreached()
                                } else if node.left.is_red() {
                                    //   B (self)         R
                                    //  / \              / \
                                    // R   R     =>     B   B
                                    //    /                /
                                    //   R                R
                                    let new_left = Self::blacken(&node.left);
                                    let new_right = Self::blacken(&right_child);
                                    let rebuilt = node.recolour(true, new_left, new_right);
                                    InsertionResultRecursion::Standard(rebuilt)
                                } else {
                                    //   B (self)              B
                                    //  / \                   / \
                                    // B   R     =>  (self) R   R
                                    //    /                /
                                    //   R                B
                                    //
                                    // the lower red node comes to the top
                                    let old_right = (*right_child).as_ref().unwrap();
                                    let old_grandchild = (*old_right.left).as_ref().unwrap();
                                    let new_left = node.recolour(
                                        true,
                                        node.left.clone(),
                                        old_grandchild.left.clone(),
                                    );
                                    let new_right = old_right.recolour(
                                        true,
                                        old_grandchild.right.clone(),
                                        old_right.right.clone(),
                                    );
                                    let rebuilt = old_grandchild.recolour(false, new_left, new_right);
                                    InsertionResultRecursion::Standard(rebuilt)
                                }
                            },
                            InsertionResultRecursion::DoubleRedRight(right_child) => {
                                if node.is_red() {
                                    unreached()
                                } else if node.left.is_red() {
                                    //   B (self)         R
                                    //  / \              / \
                                    // R   R     =>     B   B
                                    //      \                \
                                    //       R                R
                                    let new_left = Self::blacken(&node.left);
                                    let new_right = Self::blacken(&right_child);
                                    let rebuilt = node.recolour(true, new_left, new_right);
                                    InsertionResultRecursion::Standard(rebuilt)
                                } else {
                                    //   B (self)              B
                                    //  / \                   / \
                                    // B   R     =>  (self) R   R
                                    //      \              /
                                    //       R            B
                                    let old_right = (*right_child).as_ref().unwrap();
                                    let new_left = node.recolour(
                                        true,
                                        node.left.clone(),
                                        old_right.left.clone(),
                                    );
                                    let rebuilt = old_right.recolour(
                                        false,
                                        new_left,
                                        old_right.right.clone(),
                                    );
                                    InsertionResultRecursion::Standard(rebuilt)
                                }
                            },
                        }
                    },
                    Ordering::Equal => InsertionResultRecursion::Failure,
                }
            },
        }
    }

    /// Looks `search_key` up: walks down from the root, to the left where the
    /// key sorts before the node's key and to the right where it sorts after
    /// it, and stops at the node that holds it or at an empty subtree. Of the
    /// invariants of the tree the search needs the order of the keys only.
    pub fn find(&self, search_key: K) -> (r: Option<&V>)
        requires
            strict_order::<K>(),
            ordered(&self.root),
        ensures
            match r {
                Some(v) => self@.contains_key(search_key) && *v == self@[search_key],
                None => !self@.contains_key(search_key),
            },
    {
        let mut current: &Subtree<K, V> = &*self.root;
        loop
            invariant
                strict_order::<K>(),
                ordered(current),
                self@.contains_key(search_key) == contents(current).contains_key(search_key),
                contents(current).contains_key(search_key) ==> self@[search_key] == contents(
                    current,
                )[search_key],
            decreases current,
        {
            match current {
                None => {
                    return None;
                },
                Some(node) => {
                    proof {
                        lemma_search_step(node, search_key);
                    }
                    match search_key.cmp(&node.key) {
                        Ordering::Less => {
                            current = &*node.left;
                        },
                        Ordering::Greater => {
                            current = &*node.right;
                        },
                        Ordering::Equal => {
                            return Some(&node.val);
                        },
                    }
                },
            }
        }
    }
}

} // verus!
