//! The operations of a forest as methods of what names a node: a handle, or
//! the link of a child to its parent.

use vstd::prelude::*;
use std::cmp::Ordering;
use crate::forest::Forest;
use crate::helper::Helper;
use crate::node::{Node, NodeId};
use crate::parent::{side_of, Parent};
use crate::shape::rotate_shape;

verus! {

/// Something that names a node of a forest.
pub trait Wrapper<T, H: Helper<T>>: Sized {
    /// The node that is named.
    spec fn id(&self) -> NodeId;

    /// The handle of the node that is named.
    fn as_rnode(&self) -> (id: NodeId)
        ensures
            id == self.id(),
    ;

    /// Adds a node that holds `value` and stands alone.
    fn new(forest: &mut Forest<T, H>, value: T) -> (id: NodeId)
        requires
            old(forest).wf(),
        ensures
            final(forest).wf(),
            final(forest).added_from(*old(forest), id, value),
    {
        forest.new_node(value)
    }

    /// The node itself.
    fn node<'a>(&self, forest: &'a Forest<T, H>) -> (node: &'a Node<T>)
        requires
            forest.wf(),
            forest.contains(self.id()),
        ensures
            *node == forest.node(self.id()),
    {
        forest.get(self.as_rnode())
    }

    /// Whether the node has no parent.
    fn is_root(&self, forest: &Forest<T, H>) -> (root: bool)
        requires
            forest.wf(),
            forest.contains(self.id()),
        ensures
            root == (forest.parent_of(self.id()) is None),
    {
        forest.is_root(self.as_rnode())
    }

    /// The link of the node to its parent, if it has one.
    fn parent(&self, forest: &Forest<T, H>) -> (link: Option<Parent>)
        requires
            forest.wf(),
            forest.contains(self.id()),
        ensures
            link == forest.parent_of(self.id()),
    {
        forest.parent(self.as_rnode())
    }

    /// The number of nodes in the subtree below the node, itself included.
    fn size(&self, forest: &Forest<T, H>) -> (size: usize)
        requires
            forest.wf(),
            forest.contains(self.id()),
        ensures
            size == forest.size_of(self.id()),
            size == forest.inorder(self.id()).len(),
    {
        forest.size(self.as_rnode())
    }

    /// The height of the subtree below the node: 1 for a leaf.
    fn depth(&self, forest: &Forest<T, H>) -> (depth: usize)
        requires
            forest.wf(),
            forest.contains(self.id()),
        ensures
            depth == forest.depth_of(self.id()),
    {
        forest.depth(self.as_rnode())
    }

    /// The child of the node in direction `dir`, if there is one.
    fn child(&self, forest: &Forest<T, H>, dir: usize) -> (child: Option<NodeId>)
        requires
            forest.wf(),
            forest.contains(self.id()),
            dir < 2,
        ensures
            child == forest.child_of(self.id(), side_of(dir)),
    {
        forest.child(self.as_rnode(), dir)
    }

    /// The value that the node holds.
    fn value<'a>(&self, forest: &'a Forest<T, H>) -> (value: &'a T)
        requires
            forest.wf(),
            forest.contains(self.id()),
        ensures
            *value == forest.value_of(self.id()),
    {
        forest.value(self.as_rnode())
    }

    /// Mutable access to the value that the node holds.
    fn value_mut<'a>(&self, forest: &'a mut Forest<T, H>) -> (value: &'a mut T)
        requires
            old(forest).wf(),
            old(forest).contains(self.id()),
        ensures
            *value == old(forest).value_of(self.id()),
            final(forest).revalued_from(*old(forest), self.id(), *final(value)),
            final(forest).wf(),
    {
        forest.value_mut(self.as_rnode())
    }

    /// Gives the slot of the node on side `dir` the child `child`.
    fn set_child(&self, forest: &mut Forest<T, H>, dir: usize, child: Option<NodeId>)
        requires
            old(forest).wf(),
            old(forest).contains(self.id()),
            dir < 2,
            match child {
                Some(c) => old(forest).contains(c) && !old(forest).at_or_above(c, self.id()),
                None => true,
            },
        ensures
            final(forest).wf(),
            final(forest).set_child_from(*old(forest), self.id(), side_of(dir), child),
            old(forest).augmented() ==> final(forest).augmented(),
    {
        forest.set_child(self.as_rnode(), dir, child)
    }

    /// Detaches the child of the node on side `dir`, if there is one, and
    /// returns it.
    fn take_child(&self, forest: &mut Forest<T, H>, dir: usize) -> (child: Option<NodeId>)
        requires
            old(forest).wf(),
            old(forest).contains(self.id()),
            dir < 2,
        ensures
            child == old(forest).child_of(self.id(), side_of(dir)),
            final(forest).wf(),
            match child {
                Some(c) => final(forest).detached_from(*old(forest), c),
                None => final(forest).unchanged_from(*old(forest)),
            },
            old(forest).augmented() ==> final(forest).augmented(),
    {
        forest.take_child(self.as_rnode(), dir)
    }

    /// Gives the node the parent that `link` names; without a link,
    /// detaches the node from its parent.
    fn set_parent(&self, forest: &mut Forest<T, H>, link: Option<Parent>)
        requires
            old(forest).wf(),
            old(forest).contains(self.id()),
            match link {
                Some(p) => old(forest).contains(p.holder()) && !old(forest).at_or_above(
                    self.id(),
                    p.holder(),
                ),
                None => true,
            },
        ensures
            final(forest).wf(),
            match link {
                Some(p) => final(forest).set_child_from(
                    *old(forest),
                    p.holder(),
                    p.side(),
                    Some(self.id()),
                ),
                None => match old(forest).parent_of(self.id()) {
                    Some(_) => final(forest).detached_from(*old(forest), self.id()),
                    None => final(forest).unchanged_from(*old(forest)),
                },
            },
            final(forest).parent_of(self.id()) == link,
            old(forest).augmented() ==> final(forest).augmented(),
    {
        forest.set_parent(self.as_rnode(), link)
    }

    /// Detaches the node from its parent, if it has one, and returns the
    /// link it had.
    fn take_parent(&self, forest: &mut Forest<T, H>) -> (link: Option<Parent>)
        requires
            old(forest).wf(),
            old(forest).contains(self.id()),
        ensures
            link == old(forest).parent_of(self.id()),
            final(forest).wf(),
            link is None ==> final(forest).unchanged_from(*old(forest)),
            link is Some ==> final(forest).detached_from(*old(forest), self.id()),
            old(forest).augmented() ==> final(forest).augmented(),
    {
        forest.take_parent(self.as_rnode())
    }

    /// Rotates the node in direction `dir` and returns the child that comes
    /// up into its place.
    fn rotate(&self, forest: &mut Forest<T, H>, dir: usize) -> (up: NodeId)
        requires
            old(forest).wf(),
            old(forest).contains(self.id()),
            dir < 2,
            old(forest).child_of(self.id(), 1 - side_of(dir)) is Some,
        ensures
            up == old(forest).riser(self.id(), side_of(dir)),
            final(forest).wf(),
            final(forest).rotated_from(*old(forest), self.id(), side_of(dir)),
            old(forest).augmented() ==> final(forest).augmented(),
    {
        forest.rotate(self.as_rnode(), dir)
    }

    /// A single rotation of the node, as the splay step below the root.
    fn zig(&self, forest: &mut Forest<T, H>, dir: usize)
        requires
            old(forest).wf(),
            old(forest).contains(self.id()),
            dir < 2,
            old(forest).child_of(self.id(), 1 - side_of(dir)) is Some,
        ensures
            final(forest).wf(),
            final(forest).rotated_from(*old(forest), self.id(), side_of(dir)),
            old(forest).augmented() ==> final(forest).augmented(),
    {
        forest.zig(self.as_rnode(), dir)
    }

    /// The splay step at the top of three nodes in a line.
    fn zig_zig(&self, forest: &mut Forest<T, H>, dir: usize)
        requires
            old(forest).wf(),
            old(forest).contains(self.id()),
            dir < 2,
            old(forest).child_of(self.id(), 1 - side_of(dir)) is Some,
            old(forest).child_of(old(forest).riser(self.id(), side_of(dir)), 1 - side_of(dir))
                is Some,
        ensures
            final(forest).wf(),
            final(forest).shape() == rotate_shape(
                rotate_shape(old(forest).shape(), self.id(), side_of(dir)),
                old(forest).riser(self.id(), side_of(dir)),
                side_of(dir),
            ),
            final(forest).climbed_from(
                *old(forest),
                self.id(),
                old(forest).riser(old(forest).riser(self.id(), side_of(dir)), side_of(dir)),
            ),
            old(forest).augmented() ==> final(forest).augmented(),
    {
        forest.zig_zig(self.as_rnode(), dir)
    }

    /// The splay step at the top of three nodes in a bend.
    fn zig_zag(&self, forest: &mut Forest<T, H>, dir: usize)
        requires
            old(forest).wf(),
            old(forest).contains(self.id()),
            dir < 2,
            old(forest).child_of(self.id(), 1 - side_of(dir)) is Some,
            old(forest).child_of(old(forest).riser(self.id(), side_of(dir)), side_of(dir))
                is Some,
        ensures
            final(forest).wf(),
            final(forest).shape() == rotate_shape(
                rotate_shape(
                    old(forest).shape(),
                    old(forest).riser(self.id(), side_of(dir)),
                    1 - side_of(dir),
                ),
                self.id(),
                side_of(dir),
            ),
            final(forest).climbed_from(
                *old(forest),
                self.id(),
                old(forest).riser(
                    old(forest).riser(self.id(), side_of(dir)),
                    1 - side_of(dir),
                ),
            ),
            old(forest).augmented() ==> final(forest).augmented(),
    {
        forest.zig_zag(self.as_rnode(), dir)
    }

    /// Recomputes the cached aggregates of the node from its children.
    fn eval(&self, forest: &mut Forest<T, H>)
        requires
            old(forest).wf(),
            old(forest).contains(self.id()),
        ensures
            final(forest).wf(),
            final(forest).revalued_from(
                *old(forest),
                self.id(),
                H::eval_spec(
                    old(forest).value_of(self.id()),
                    old(forest).value_at(old(forest).child_of(self.id(), 0)),
                    old(forest).value_at(old(forest).child_of(self.id(), 1)),
                ),
            ),
    {
        forest.eval(self.as_rnode())
    }

    /// Moves the node to the root of its tree by splay steps.
    fn splay(&self, forest: &mut Forest<T, H>)
        requires
            old(forest).wf(),
            old(forest).contains(self.id()),
        ensures
            final(forest).wf(),
            final(forest).splayed_from(*old(forest), self.id()),
            old(forest).augmented() ==> final(forest).augmented(),
    {
        forest.splay(self.as_rnode())
    }

    /// Searches the subtree of the node with the comparison `f` and splays
    /// what is found.
    fn find<F: Fn(&T) -> Ordering>(&self, forest: &mut Forest<T, H>, f: F) -> (found: Option<
        NodeId,
    >)
        requires
            old(forest).wf(),
            old(forest).contains(self.id()),
            forall|other: NodeId| #[trigger]
                old(forest).below(other, self.id()) ==> f.requires(
                    (&old(forest).value_of(other),),
                ),
        ensures
            final(forest).wf(),
            match found {
                Some(hit) => {
                    &&& old(forest).search_reaches(&f, self.id(), hit)
                    &&& f.ensures((&old(forest).value_of(hit),), Ordering::Equal)
                    &&& old(forest).below(hit, self.id())
                    &&& final(forest).splayed_from(*old(forest), hit)
                },
                None => {
                    &&& exists|last: NodeId|
                        old(forest).below(last, self.id()) && old(forest).search_reaches(
                            &f,
                            self.id(),
                            last,
                        ) && old(forest).search_misses(&f, last)
                    &&& final(forest).unchanged_from(*old(forest))
                },
            },
            old(forest).augmented() ==> final(forest).augmented(),
    {
        forest.find(self.as_rnode(), f)
    }
}

impl<T, H: Helper<T>> Wrapper<T, H> for NodeId {
    open spec fn id(&self) -> NodeId {
        *self
    }

    fn as_rnode(&self) -> (id: NodeId) {
        *self
    }
}

impl<T, H: Helper<T>> Wrapper<T, H> for Parent {
    open spec fn id(&self) -> NodeId {
        Parent::holder(*self)
    }

    fn as_rnode(&self) -> (id: NodeId) {
        self.get()
    }
}

} // verus!
