//! A node and the handle that names it.

use vstd::prelude::*;
use crate::parent::Parent;

verus! {

/// The handle of a node: its index in the forest that owns it.
#[derive(Debug, Clone, Copy, PartialEq, Eq, Structural, Hash)]
pub struct NodeId(pub usize);

/// The handle behind an optional borrowed handle.
pub open spec fn target(link: Option<&NodeId>) -> Option<NodeId> {
    match link {
        Some(id) => Some(*id),
        None => None,
    }
}

/// The link behind an optional borrowed parent link.
pub open spec fn uplink(link: Option<&Parent>) -> Option<Parent> {
    match link {
        Some(parent) => Some(*parent),
        None => None,
    }
}

/// One node: a value, the links to its neighbours and the cached aggregates
/// of the subtree below it.
#[derive(Clone)]
pub struct Node<T> {
    pub parent: Option<Parent>,
    pub children: [Option<NodeId>; 2],
    pub size: usize,
    pub depth: usize,
    pub value: T,
}

impl<T> Node<T> {
    /// A node of its own: no parent, no children, size 1 and depth 1.
    pub fn new(value: T) -> (node: Self)
        ensures
            node.parent is None,
            node.children[0] is None,
            node.children[1] is None,
            node.size == 1,
            node.depth == 1,
            node.value == value,
    {
        Node { parent: None, children: [None, None], size: 1, depth: 1, value }
    }

    /// The child in direction `dir`: 0 for left, 1 for right.
    pub fn child(&self, dir: usize) -> (child: Option<&NodeId>)
        requires
            dir < 2,
        ensures
            target(child) == self.children[dir as int],
    {
        self.children[dir].as_ref()
    }

    /// The child slot in direction `dir`, to write to.
    pub fn child_mut(&mut self, dir: usize) -> (child: &mut Option<NodeId>)
        requires
            dir < 2,
        ensures
            *child == old(self).children[dir as int],
            final(self).children@ == old(self).children@.update(dir as int, *final(child)),
            final(self).parent == old(self).parent,
            final(self).size == old(self).size,
            final(self).depth == old(self).depth,
            final(self).value == old(self).value,
    {
        &mut self.children[dir]
    }

    /// The link to the parent.
    pub fn parent(&self) -> (parent: Option<&Parent>)
        ensures
            uplink(parent) == self.parent,
    {
        self.parent.as_ref()
    }

    /// The link to the parent, to write to.
    pub fn parent_mut(&mut self) -> (parent: &mut Option<Parent>)
        ensures
            *parent == old(self).parent,
            *final(self) == (Node { parent: *final(parent), ..*old(self) }),
    {
        &mut self.parent
    }

    /// The cached size of the subtree.
    pub fn size(&self) -> (size: usize)
        ensures
            size == self.size,
    {
        self.size
    }

    /// The cached size of the subtree, to write to.
    pub fn size_mut(&mut self) -> (size: &mut usize)
        ensures
            *size == old(self).size,
            *final(self) == (Node { size: *final(size), ..*old(self) }),
    {
        &mut self.size
    }

    /// The cached depth of the subtree.
    pub fn depth(&self) -> (depth: usize)
        ensures
            depth == self.depth,
    {
        self.depth
    }

    /// The cached depth of the subtree, to write to.
    pub fn depth_mut(&mut self) -> (depth: &mut usize)
        ensures
            *depth == old(self).depth,
            *final(self) == (Node { depth: *final(depth), ..*old(self) }),
    {
        &mut self.depth
    }

    /// The value.
    pub fn value(&self) -> (value: &T)
        ensures
            *value == self.value,
    {
        &self.value
    }

    /// The value, to write to.
    pub fn value_mut(&mut self) -> (value: &mut T)
        ensures
            *value == old(self).value,
            *final(self) == (Node { value: *final(value), ..*old(self) }),
    {
        &mut self.value
    }
}

} // verus!
