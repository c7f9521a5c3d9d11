//! The node of the tree and its colour.

use std::rc::Rc;
use vstd::prelude::*;

verus! {

/// One immutable node. Its children are shared handles: a node may belong to
/// several trees at once.
#[derive(Debug)]
pub struct TreeNode<K, V> where K: Ord + Copy, V: Copy {
    pub is_red: bool,
    pub key: K,
    pub val: V,
    pub left: Link<K, V>,
    pub right: Link<K, V>,
}

/// A subtree: empty, or a node with the two subtrees below it.
pub type Subtree<K, V> = Option<TreeNode<K, V>>;

/// A shared handle to a subtree.
pub type Link<K, V> = Rc<Subtree<K, V>>;

/// The colour of a node or of a subtree. An empty subtree is black.
pub trait HasColour {
    spec fn red(&self) -> bool;

    fn is_red(&self) -> (r: bool)
        ensures
            r == self.red(),
    ;
}

impl<K, V> HasColour for Subtree<K, V> where K: Ord + Copy, V: Copy {
    open spec fn red(&self) -> bool {
        match self {
            None => false,
            Some(node) => node.is_red,
        }
    }

    fn is_red(&self) -> (r: bool) {
        match self {
            None => false,
            Some(node) => node.is_red,
        }
    }
}

impl<K, V> HasColour for TreeNode<K, V> where K: Ord + Copy, V: Copy {
    open spec fn red(&self) -> bool {
        self.is_red
    }

    fn is_red(&self) -> (r: bool) {
        self.is_red
    }
}

impl<K, V> TreeNode<K, V> where K: Ord + Copy, V: Copy {
    /// The node with this node's key and value, and the colour and children given.
    pub open spec fn with(
        &self,
        is_red: bool,
        left: &Subtree<K, V>,
        right: &Subtree<K, V>,
    ) -> Subtree<K, V> {
        Some(
            TreeNode {
                is_red,
                key: self.key,
                val: self.val,
                left: Rc::new(*left),
                right: Rc::new(*right),
            },
        )
    }

    /// Builds a fresh node that keeps this node's key and value and takes the
    /// colour and the two children given. The children are moved in, not copied.
    pub fn recolour(&self, is_red: bool, left: Link<K, V>, right: Link<K, V>) -> (r: Link<K, V>)
        ensures
            *r == self.with(is_red, &left, &right),
    {
        Rc::new(
            Some(TreeNode { is_red: is_red, key: self.key, val: self.val, left: left, right: right }),
        )
    }
}

} // verus!
