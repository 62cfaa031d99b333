//! Splay-tree nodes kept in an arena.
//!
//! A [`forest::Forest`] owns every node; a [`node::NodeId`] is the handle by
//! which a node is addressed.  Nodes are linked into binary trees through
//! child slots and tagged parent back-references.  The tree-shape operations
//! (attach, detach, rotate, splay, find) keep cached subtree aggregates
//! (size, depth and a caller-defined one) consistent with the shape.

use vstd::prelude::*;

pub mod attach;
pub mod cache;
pub mod children;
pub mod climb;
pub mod detach;
pub mod find;
pub mod forest;
pub mod helper;
pub mod laws;
pub mod layout;
pub mod links;
pub mod node;
pub mod parent;
pub mod rotate;
pub mod shape;
pub mod splay;
pub mod text;
pub mod values;
pub mod wrapper;

pub use helper::DefaultHelper as SplayTreeDefaultHelper;
pub use helper::Helper as SplayTreeHelper;
pub use wrapper::Wrapper as SplayTreeNode;

verus! {

/// Creates a node holding `value` in `forest`: no parent, no children,
/// size 1 and depth 1.
pub fn new_splaytree_node<T, H: helper::Helper<T>>(
    forest: &mut forest::Forest<T, H>,
    value: T,
) -> (id: node::NodeId)
    requires
        old(forest).wf(),
    ensures
        final(forest).wf(),
        final(forest).added_from(*old(forest), id, value),
{
    forest.new_node(value)
}

} // verus!
