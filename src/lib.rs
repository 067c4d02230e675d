//! Tree edit distance between ordered, labeled trees (Zhang and Shasha).
//!
//! A [`TreeNode`] is built by hand; [`Tree::new`] numbers it in post-order and
//! derives the left-most-leaf table and the key roots; the distance between
//! two such indexes comes from [`Tree::weighted_tree_edit_distance`].

use vstd::prelude::*;

pub mod edit;
pub mod index;
pub mod node;

pub use index::Tree;
pub use node::TreeNode;

verus! {

} // verus!
