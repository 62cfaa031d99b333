//! The back-reference from a child to its parent, tagged with the side the
//! child hangs on.

use vstd::prelude::*;
use crate::node::NodeId;

verus! {

/// A direction as an index: 0 for left, 1 for right.
pub open spec fn side_of(dir: usize) -> int {
    dir as int
}

/// A link from a child up to its parent: `L` when the child is the left
/// child (direction 0), `R` when it is the right child (direction 1).
#[derive(Debug, Clone, Copy, PartialEq, Eq, Structural)]
pub enum Parent {
    L(NodeId),
    R(NodeId),
}

impl Parent {
    /// The parent this link leads to.
    pub open spec fn holder(self) -> NodeId {
        match self {
            Parent::L(parent) => parent,
            Parent::R(parent) => parent,
        }
    }

    /// The direction of the child under its parent: 0 for left, 1 for right.
    pub open spec fn side(self) -> int {
        match self {
            Parent::L(_) => 0,
            Parent::R(_) => 1,
        }
    }

    /// The link of the child of `parent` in direction `dir`.
    pub open spec fn link(parent: NodeId, dir: int) -> Parent {
        if dir == 0 {
            Parent::L(parent)
        } else {
            Parent::R(parent)
        }
    }

    /// The link of the left child of `parent`.
    pub fn left(parent: &NodeId) -> (link: Self)
        ensures
            link == Parent::L(*parent),
    {
        Parent::L(*parent)
    }

    /// The link of the right child of `parent`.
    pub fn right(parent: &NodeId) -> (link: Self)
        ensures
            link == Parent::R(*parent),
    {
        Parent::R(*parent)
    }

    /// The link of the child of `parent` in direction `dir`.
    pub fn of(parent: &NodeId, dir: usize) -> (link: Self)
        requires
            dir < 2,
        ensures
            link == Parent::link(*parent, dir as int),
            link.holder() == *parent,
            link.side() == dir,
    {
        if dir == 0 {
            Self::left(parent)
        } else {
            Self::right(parent)
        }
    }

    /// The parent that the link leads to.
    pub fn get(&self) -> (parent: NodeId)
        ensures
            parent == self.holder(),
    {
        match self {
            Parent::L(parent) => *parent,
            Parent::R(parent) => *parent,
        }
    }

    /// The direction of the child under its parent: 0 for left, 1 for
    /// right.
    pub fn dir(&self) -> (dir: usize)
        ensures
            dir == self.side(),
            dir < 2,
    {
        match self {
            Parent::L(_) => 0,
            Parent::R(_) => 1,
        }
    }
}

} // verus!
