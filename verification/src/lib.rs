//! A persistent red-black map: every insertion returns a new tree that shares
//! the untouched subtrees with the tree it was made from.

pub mod laws;
pub mod node;
pub mod order;
pub mod rcstr;
pub mod rebalance;
pub mod shape;
pub mod tree;

pub use node::{HasColour, Link, Subtree, TreeNode};
pub use rcstr::RcSliceableString;
pub use tree::{InsertError, Tree};
