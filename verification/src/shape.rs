//! The shape of a forest as a plain value: the links of every node.  The
//! tree-shape operations are stated as functions on shapes.

use vstd::prelude::*;
use crate::forest::Forest;
use crate::helper::Helper;
use crate::node::NodeId;
use crate::parent::Parent;

verus! {

/// The links of one node.
pub struct Links {
    pub parent: Option<Parent>,
    pub left: Option<NodeId>,
    pub right: Option<NodeId>,
}

impl Links {
    /// The child on side `dir`: left for 0, right otherwise.
    pub open spec fn child(self, dir: int) -> Option<NodeId> {
        if dir == 0 {
            self.left
        } else {
            self.right
        }
    }

    /// These links with `child` on side `dir`.
    pub open spec fn with_child(self, dir: int, child: Option<NodeId>) -> Links {
        if dir == 0 {
            Links { left: child, ..self }
        } else {
            Links { right: child, ..self }
        }
    }

    /// These links with `parent` as the parent link.
    pub open spec fn with_parent(self, parent: Option<Parent>) -> Links {
        Links { parent, ..self }
    }
}

/// The links of all nodes, by node index.
pub type Shape = Seq<Links>;

/// The links of `id` in `shape`.
pub open spec fn links_at(shape: Shape, id: NodeId) -> Links {
    shape[id.0 as int]
}

/// `shape` with the parent link of an optional node replaced.
pub open spec fn reparent(shape: Shape, id: Option<NodeId>, parent: Option<Parent>) -> Shape {
    match id {
        Some(id) => shape.update(id.0 as int, links_at(shape, id).with_parent(parent)),
        None => shape,
    }
}

/// `shape` with the child slot that an optional parent link names replaced.
pub open spec fn rechild(shape: Shape, slot: Option<Parent>, child: Option<NodeId>) -> Shape {
    match slot {
        Some(p) => shape.update(
            p.holder().0 as int,
            links_at(shape, p.holder()).with_child(p.side(), child),
        ),
        None => shape,
    }
}

/// The shape after a rotation of `id` in direction `dir`: the child of `id`
/// on the other side takes the place of `id` under its parent, hands its own
/// child on side `dir` over to `id`, and takes `id` as its child on side
/// `dir`.
pub open spec fn rotate_shape(shape: Shape, id: NodeId, dir: int) -> Shape {
    let up = links_at(shape, id).child(1 - dir).unwrap();
    let top = links_at(shape, id).parent;
    let inner = links_at(shape, up).child(dir);
    let s1 = rechild(shape, top, Some(up));
    let s2 = reparent(s1, Some(up), top);
    let s3 = rechild(s2, Some(Parent::link(id, 1 - dir)), inner);
    let s4 = reparent(s3, inner, Some(Parent::link(id, 1 - dir)));
    let s5 = rechild(s4, Some(Parent::link(up, dir)), Some(id));
    reparent(s5, Some(id), Some(Parent::link(up, dir)))
}

/// The shape after `id` has been detached from its parent, if it has one.
pub open spec fn detach_shape(shape: Shape, id: NodeId) -> Shape {
    reparent(rechild(shape, links_at(shape, id).parent, None), Some(id), None)
}

/// The shape after `child`, which has no parent, has been attached to the
/// empty slot of `id` on side `dir`.
pub open spec fn attach_shape(shape: Shape, id: NodeId, dir: int, child: NodeId) -> Shape {
    reparent(
        rechild(shape, Some(Parent::link(id, dir)), Some(child)),
        Some(child),
        Some(Parent::link(id, dir)),
    )
}

/// The shape after one step of a splay of `id`, which has a parent.  Below
/// the root a single rotation of the parent; else two rotations, which
/// depend on whether `id` and its parent hang on the same side.
pub open spec fn splay_step(shape: Shape, id: NodeId) -> Shape {
    let p = links_at(shape, id).parent.unwrap();
    match links_at(shape, p.holder()).parent {
        None => rotate_shape(shape, p.holder(), 1 - p.side()),
        Some(g) => {
            if p.side() == g.side() {
                rotate_shape(
                    rotate_shape(shape, g.holder(), 1 - g.side()),
                    p.holder(),
                    1 - g.side(),
                )
            } else {
                rotate_shape(rotate_shape(shape, p.holder(), g.side()), g.holder(), 1 - g.side())
            }
        },
    }
}

/// The shape after at most `steps` steps of a splay of `id`.
pub open spec fn splay_steps(shape: Shape, id: NodeId, steps: nat) -> Shape
    decreases steps,
{
    if steps == 0 || links_at(shape, id).parent is None {
        shape
    } else {
        splay_steps(splay_step(shape, id), id, (steps - 1) as nat)
    }
}

/// The shape after a splay of `id`: steps are taken until `id` has no
/// parent, which no more steps than there are nodes achieve.
pub open spec fn splay_shape(shape: Shape, id: NodeId) -> Shape {
    splay_steps(shape, id, shape.len())
}

impl<T, H: Helper<T>> Forest<T, H> {
    /// The links of `id`.
    pub open spec fn links(&self, id: NodeId) -> Links {
        Links {
            parent: self.parent_of(id),
            left: self.child_of(id, 0),
            right: self.child_of(id, 1),
        }
    }

    /// The links of every node.
    pub open spec fn shape(&self) -> Shape {
        Seq::new(self.len() as nat, |index: int| self.links(NodeId(index as usize)))
    }

    /// The shape holds the links of every node, and nothing else.
    pub proof fn lemma_shape(&self, id: NodeId)
        requires
            self.contains(id),
        ensures
            self.shape().len() == self.len(),
            links_at(self.shape(), id).parent == self.parent_of(id),
            links_at(self.shape(), id).left == self.child_of(id, 0),
            links_at(self.shape(), id).right == self.child_of(id, 1),
    {
    }

    /// The rotation of the links is the rotation of the shape.
    pub(crate) proof fn lemma_rotated_shape_is(&self, before: Self, id: NodeId, dir: int)
        requires
            before.shape_wf(),
            before.contains(id),
            0 <= dir < 2,
            before.child_of(id, 1 - dir) is Some,
            self.rotated_links(before, id, dir),
        ensures
            self.shape() == rotate_shape(before.shape(), id, dir),
    {
        before.lemma_rotation_cast(id, dir);
        let shape = before.shape();
        let up = before.riser(id, dir);
        assert(links_at(shape, id) == before.links(id));
        assert(links_at(shape, up) == before.links(up));
        let top = before.parent_of(id);
        let inner = before.child_of(up, dir);
        let s1 = rechild(shape, top, Some(up));
        let s2 = reparent(s1, Some(up), top);
        let s3 = rechild(s2, Some(Parent::link(id, 1 - dir)), inner);
        let s4 = reparent(s3, inner, Some(Parent::link(id, 1 - dir)));
        let s5 = rechild(s4, Some(Parent::link(up, dir)), Some(id));
        let s6 = reparent(s5, Some(id), Some(Parent::link(up, dir)));
        assert(s6 == rotate_shape(shape, id, dir));
        assert(s6.len() == shape.len());
        assert forall|index: int| 0 <= index < self.len() implies self.shape()[index]
            == s6[index] by {
            let x = NodeId(index as usize);
            assert(before.shape_ok(x));
            assert(links_at(shape, x) == before.links(x));
            assert(self.parent_of(x) == before.rotated_parent(id, dir, x));
            assert(self.child_of(x, 0) == before.rotated_child(id, dir, x, 0));
            assert(self.child_of(x, 1) == before.rotated_child(id, dir, x, 1));
            assert(s1[index].parent == shape[index].parent);
            assert(s2[index].left == s1[index].left);
            assert(s2[index].right == s1[index].right);
            assert(s3[index].parent == s2[index].parent);
            assert(s4[index].left == s3[index].left);
            assert(s4[index].right == s3[index].right);
            assert(s5[index].parent == s4[index].parent);
            assert(s6[index].left == s5[index].left);
            assert(s6[index].right == s5[index].right);
            if before.child_of(x, 0) is Some {
                before.lemma_child_below(x, 0);
            }
            if before.child_of(x, 1) is Some {
                before.lemma_child_below(x, 1);
            }
        }
        assert(self.shape() =~= s6);
    }
}

} // verus!
