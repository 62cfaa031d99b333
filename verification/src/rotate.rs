//! Rotation: a node goes down one level, one of its children comes up into
//! its place, and the in-order sequence stays as it is.

use vstd::prelude::*;
use crate::forest::{Forest, Layout};
use crate::helper::Helper;
use crate::node::NodeId;
use crate::parent::Parent;
use crate::shape::rotate_shape;

verus! {

impl<T, H: Helper<T>> Forest<T, H> {
    /// The child of `id` that a rotation in direction `dir` brings up: the
    /// one on the other side.
    pub open spec fn riser(&self, id: NodeId, dir: int) -> NodeId {
        self.child_of(id, 1 - dir).unwrap()
    }

    /// The parent link of `other` after `id` has been rotated in direction
    /// `dir`.
    pub open spec fn rotated_parent(&self, id: NodeId, dir: int, other: NodeId) -> Option<
        Parent,
    > {
        let up = self.riser(id, dir);
        if other == id {
            Some(Parent::link(up, dir))
        } else if other == up {
            self.parent_of(id)
        } else if self.child_of(up, dir) == Some(other) {
            Some(Parent::link(id, 1 - dir))
        } else {
            self.parent_of(other)
        }
    }

    /// The child of `other` on `side` after `id` has been rotated in
    /// direction `dir`.
    pub open spec fn rotated_child(
        &self,
        id: NodeId,
        dir: int,
        other: NodeId,
        side: int,
    ) -> Option<NodeId> {
        let up = self.riser(id, dir);
        if other == id && side == 1 - dir {
            self.child_of(up, dir)
        } else if other == up && side == dir {
            Some(id)
        } else if self.parent_of(id) == Some(Parent::link(other, side)) {
            Some(up)
        } else {
            self.child_of(other, side)
        }
    }

    /// The links of `self` are those of `before` after a rotation of `id` in
    /// direction `dir`.
    pub open spec fn rotated_links(&self, before: Self, id: NodeId, dir: int) -> bool {
        &&& self.len() == before.len()
        &&& forall|other: NodeId|
            self.contains(other) ==> #[trigger] self.parent_of(other) == before.rotated_parent(
                id,
                dir,
                other,
            )
        &&& forall|other: NodeId, side: int|
            self.contains(other) && 0 <= side < 2 ==> #[trigger] self.child_of(other, side)
                == before.rotated_child(id, dir, other, side)
    }

    /// The root of the tree of `other` after `id` has been rotated.
    pub open spec fn rotated_root(&self, id: NodeId, dir: int, other: NodeId) -> NodeId {
        if self.parent_of(id) is None && self.root_of(other) == id {
            self.riser(id, dir)
        } else {
            self.root_of(other)
        }
    }

    /// The first position of the subtree of `other` after `id` has been
    /// rotated in direction `dir`.
    pub open spec fn rotated_lo(&self, id: NodeId, dir: int, other: NodeId) -> int {
        let up = self.riser(id, dir);
        if other == up {
            self.lo(id)
        } else if other == id && dir == 1 {
            self.pos(up) + 1
        } else {
            self.lo(other)
        }
    }

    /// One past the last position of the subtree of `other` after `id` has
    /// been rotated in direction `dir`.
    pub open spec fn rotated_hi(&self, id: NodeId, dir: int, other: NodeId) -> int {
        let up = self.riser(id, dir);
        if other == up {
            self.hi(id)
        } else if other == id && dir == 0 {
            self.pos(up)
        } else {
            self.hi(other)
        }
    }

    /// The in-order sequence of the tree rooted at `other` after `id` has
    /// been rotated in direction `dir`.
    pub open spec fn rotated_order(&self, id: NodeId, dir: int, other: NodeId) -> Seq<
        NodeId,
    > {
        if self.parent_of(id) is None && other == self.riser(id, dir) {
            self.order(id)
        } else {
            self.order(other)
        }
    }

    /// The layout after `id` has been rotated in direction `dir`.
    pub open spec fn rotated_layout(&self, id: NodeId, dir: int) -> Layout {
        Layout {
            root: Seq::new(self.len() as nat, |i: int| self.rotated_root(id, dir, NodeId(i as usize))),
            pos: self.arrangement().pos,
            lo: Seq::new(self.len() as nat, |i: int| self.rotated_lo(id, dir, NodeId(i as usize))),
            hi: Seq::new(self.len() as nat, |i: int| self.rotated_hi(id, dir, NodeId(i as usize))),
            order: Seq::new(
                self.len() as nat,
                |i: int| self.rotated_order(id, dir, NodeId(i as usize)),
            ),
        }
    }

    /// Cached aggregates and values are those of `before`.
    pub open spec fn same_contents(&self, before: Self) -> bool {
        &&& self.len() == before.len()
        &&& forall|other: NodeId|
            self.contains(other) ==> #[trigger] self.same_contents_at(before, other)
    }

    /// Cached aggregates and value of `id` are those of `before`.
    pub open spec fn same_contents_at(&self, before: Self, id: NodeId) -> bool {
        &&& self.node(id).size == before.node(id).size
        &&& self.node(id).depth == before.node(id).depth
        &&& self.node(id).value == before.node(id).value
    }

    /// Rewrites the links around `id` so that its child on the side opposite
    /// to `dir` takes its place and `id` becomes that child's child on side
    /// `dir`.  Cached aggregates are left as they are.
    pub(crate) fn rotate_links(&mut self, id: NodeId, dir: usize) -> (up: NodeId)
        requires
            old(self).shape_wf(),
            old(self).contains(id),
            dir < 2,
            old(self).child_of(id, 1 - dir) is Some,
        ensures
            up == old(self).riser(id, dir as int),
            final(self).shape_wf(),
            final(self).rotated_links(*old(self), id, dir as int),
            final(self).arrangement() == old(self).rotated_layout(id, dir as int),
            final(self).same_contents(*old(self)),
    {
        let ghost before = *self;
        let other: usize = 1 - dir;
        proof {
            assert(before.shape_ok(id));
            before.lemma_child_below(id, other as int);
            assert forall|index: int| 0 <= index < self.len() implies (#[trigger] self.slots[index]) is Some by {
                assert(before.shape_ok(NodeId(index as usize)));
            }
        }
        let up = self.node_ref(id).children[other].unwrap();
        proof {
            assert(before.shape_ok(up));
            if before.child_of(up, dir as int) is Some {
                before.lemma_child_below(up, dir as int);
                assert(before.shape_ok(before.child_of(up, dir as int).unwrap()));
            }
            if before.parent_of(id) is Some {
                assert(before.shape_ok(before.parent_of(id).unwrap().holder()));
            }
        }
        let top = self.node_ref(id).parent;
        let inner = self.node_ref(up).children[dir];
        self.write_child(id, other, inner);
        self.write_parent(id, Some(Parent::of(&up, dir)));
        self.write_child(up, dir, Some(id));
        self.write_parent(up, top);
        if let Some(moved) = inner {
            self.write_parent(moved, Some(Parent::of(&id, other)));
        }
        if let Some(link) = top {
            self.write_child(link.get(), link.dir(), Some(up));
        }
        self.layout = Ghost(before.rotated_layout(id, dir as int));
        proof {
            let d = dir as int;
            assert forall|x: NodeId| self.contains(x) implies #[trigger] self.parent_of(x)
                == before.rotated_parent(id, d, x) by {
                assert(before.shape_ok(x));
            }
            assert forall|x: NodeId, side: int|
                self.contains(x) && 0 <= side < 2 implies #[trigger] self.child_of(x, side)
                == before.rotated_child(id, d, x, side) by {
                assert(before.shape_ok(x));
                assert(before.child_of(x, side) == before.child_of(x, side));
            }
            assert forall|x: NodeId| self.contains(x) implies #[trigger] self.same_contents_at(
                before,
                x,
            ) by {}
            self.lemma_rotated_shape(before, id, d);
        }
        up
    }

    /// The links and the layout of a rotation make a well-shaped forest.
    pub(crate) proof fn lemma_rotated_shape(&self, before: Self, id: NodeId, dir: int)
        requires
            before.shape_wf(),
            before.contains(id),
            0 <= dir < 2,
            before.child_of(id, 1 - dir) is Some,
            self.filled(),
            self.rotated_links(before, id, dir),
            self.arrangement() == before.rotated_layout(id, dir),
        ensures
            self.shape_wf(),
    {
        let up = before.riser(id, dir);
        before.lemma_child_below(id, 1 - dir);
        assert(before.shape_ok(id));
        assert(before.shape_ok(up));
        assert forall|x: NodeId| self.contains(x) implies #[trigger] self.shape_ok(x) by {
            self.lemma_rotated_node(before, id, dir, x);
        }
    }

    /// The nodes that take part in a rotation are distinct, and linked as a
    /// rotation needs them.
    pub(crate) proof fn lemma_rotation_cast(&self, id: NodeId, dir: int)
        requires
            self.shape_wf(),
            self.contains(id),
            0 <= dir < 2,
            self.child_of(id, 1 - dir) is Some,
        ensures
            ({
                let up = self.riser(id, dir);
                &&& self.contains(up)
                &&& up != id
                &&& self.shape_ok(id)
                &&& self.shape_ok(up)
                &&& self.parent_of(up) == Some(Parent::link(id, 1 - dir))
                &&& self.root_of(up) == self.root_of(id)
                &&& match self.child_of(up, dir) {
                    Some(inner) => {
                        &&& self.contains(inner)
                        &&& inner != id
                        &&& inner != up
                        &&& self.shape_ok(inner)
                        &&& self.parent_of(inner) == Some(Parent::link(up, dir))
                        &&& self.parent_of(id) != Some(Parent::link(inner, 0))
                        &&& self.parent_of(id) != Some(Parent::link(inner, 1))
                    },
                    None => true,
                }
                &&& match self.parent_of(id) {
                    Some(top) => {
                        &&& self.contains(top.holder())
                        &&& top.holder() != id
                        &&& top.holder() != up
                        &&& self.shape_ok(top.holder())
                        &&& self.child_of(top.holder(), top.side()) == Some(id)
                        &&& top == Parent::link(top.holder(), top.side())
                        &&& 0 <= top.side() < 2
                    },
                    None => true,
                }
            }),
    {
        let up = self.riser(id, dir);
        self.lemma_child_below(id, 1 - dir);
        assert(self.shape_ok(id));
        assert(self.shape_ok(up));
        if self.child_of(up, dir) is Some {
            let inner = self.child_of(up, dir).unwrap();
            self.lemma_child_below(up, dir);
            assert(self.shape_ok(inner));
            if self.parent_of(id) is Some {
                let top = self.parent_of(id).unwrap();
                assert(self.shape_ok(top.holder()));
                self.lemma_child_below(top.holder(), top.side());
            }
        }
        if self.parent_of(id) is Some {
            let top = self.parent_of(id).unwrap();
            assert(self.shape_ok(top.holder()));
            self.lemma_child_below(top.holder(), top.side());
        }
    }

    /// The links of one node of a rotated forest agree with its neighbours.
    pub(crate) proof fn lemma_rotated_node_links(
        &self,
        before: Self,
        id: NodeId,
        dir: int,
        x: NodeId,
    )
        requires
            before.shape_wf(),
            before.contains(id),
            0 <= dir < 2,
            before.child_of(id, 1 - dir) is Some,
            self.rotated_links(before, id, dir),
            self.contains(x),
        ensures
            self.links_ok(x),
    {
        let up = before.riser(id, dir);
        before.lemma_rotation_cast(id, dir);
        assert(before.shape_ok(x));
        assert forall|side: int| 0 <= side < 2 implies match #[trigger] self.child_of(x, side) {
            Some(c) => self.contains(c) && self.parent_of(c) == Some(Parent::link(x, side)),
            None => true,
        } by {
            assert(self.child_of(x, side) == before.rotated_child(id, dir, x, side));
            if self.child_of(x, side) is Some {
                let c = self.child_of(x, side).unwrap();
                if before.child_of(x, side) is Some {
                    before.lemma_child_below(x, side);
                }
                assert(self.contains(c));
                assert(self.parent_of(c) == before.rotated_parent(id, dir, c));
            }
        }
        assert(self.parent_of(x) == before.rotated_parent(id, dir, x));
        if self.parent_of(x) is Some {
            let p = self.parent_of(x).unwrap();
            assert(self.contains(p.holder()));
            assert(self.child_of(p.holder(), p.side()) == before.rotated_child(
                id,
                dir,
                p.holder(),
                p.side(),
            ));
        }
    }

    /// The layout at one node of a rotated forest agrees with its links.
    pub(crate) proof fn lemma_rotated_node_layout(
        &self,
        before: Self,
        id: NodeId,
        dir: int,
        x: NodeId,
    )
        requires
            before.shape_wf(),
            before.contains(id),
            0 <= dir < 2,
            before.child_of(id, 1 - dir) is Some,
            self.rotated_links(before, id, dir),
            self.arrangement() == before.rotated_layout(id, dir),
            self.contains(x),
        ensures
            self.layout_ok(x),
    {
        let up = before.riser(id, dir);
        before.lemma_rotation_cast(id, dir);
        assert(before.shape_ok(x));
        let root = before.root_of(x);
        assert(before.shape_ok(root));
        assert(self.parent_of(x) == before.rotated_parent(id, dir, x));
        assert(self.child_of(x, 0) == before.rotated_child(id, dir, x, 0));
        assert(self.child_of(x, 1) == before.rotated_child(id, dir, x, 1));
        let new_root = self.root_of(x);
        assert(new_root == before.rotated_root(id, dir, x));
        assert(self.contains(new_root));
        assert(self.parent_of(new_root) == before.rotated_parent(id, dir, new_root));
        assert(self.parent_of(new_root) is None);
        assert(self.order(new_root) == before.order(root));
        assert(self.pos(x) == before.pos(x));
        assert(self.lo(x) == before.rotated_lo(id, dir, x));
        assert(self.hi(x) == before.rotated_hi(id, dir, x));
        if self.parent_of(x) is Some {
            let p = self.parent_of(x).unwrap().holder();
            assert(self.root_of(p) == before.rotated_root(id, dir, p));
        }
        if self.child_of(x, 0) is Some {
            let c = self.child_of(x, 0).unwrap();
            if before.child_of(x, 0) is Some {
                before.lemma_child_below(x, 0);
            }
            assert(self.lo(c) == before.rotated_lo(id, dir, c));
            assert(self.hi(c) == before.rotated_hi(id, dir, c));
        }
        if self.child_of(x, 1) is Some {
            let c = self.child_of(x, 1).unwrap();
            if before.child_of(x, 1) is Some {
                before.lemma_child_below(x, 1);
            }
            assert(self.lo(c) == before.rotated_lo(id, dir, c));
            assert(self.hi(c) == before.rotated_hi(id, dir, c));
        }
        if self.parent_of(x) is None {
            assert forall|index: int| 0 <= index < self.order(x).len() implies #[trigger] self.entry_ok(
                x,
                index,
            ) by {
                assert(before.entry_ok(root, index));
                let m = before.order(root)[index];
                assert(self.root_of(m) == before.rotated_root(id, dir, m));
            }
        }
    }

    /// One node of a rotated forest is well shaped.
    pub(crate) proof fn lemma_rotated_node(&self, before: Self, id: NodeId, dir: int, x: NodeId)
        requires
            before.shape_wf(),
            before.contains(id),
            0 <= dir < 2,
            before.child_of(id, 1 - dir) is Some,
            self.filled(),
            self.rotated_links(before, id, dir),
            self.arrangement() == before.rotated_layout(id, dir),
            self.contains(x),
        ensures
            self.shape_ok(x),
    {
        self.lemma_rotated_node_links(before, id, dir, x);
        self.lemma_rotated_node_layout(before, id, dir, x);
    }

    /// `self` is `before` after a rotation of `id` in direction `dir`: the
    /// child of `id` on the other side has come up into the place of `id`,
    /// with all that was below `id` now below it.
    pub open spec fn rotated_from(&self, before: Self, id: NodeId, dir: int) -> bool {
        let up = before.riser(id, dir);
        &&& self.rotated_links(before, id, dir)
        &&& self.arrangement() == before.rotated_layout(id, dir)
        &&& self.shape() == rotate_shape(before.shape(), id, dir)
        &&& forall|other: NodeId|
            self.contains(other) && other != id && other != up ==> #[trigger] self.inorder(other)
                == before.inorder(other)
        &&& self.climbed_from(before, id, up)
    }

    /// Whatever is neither rotated nor the parent of what is rotated keeps
    /// its cache up to date through a rotation of the links.
    pub(crate) proof fn lemma_rotated_cache(&self, before: Self, id: NodeId, dir: int, x: NodeId)
        requires
            before.shape_wf(),
            before.contains(id),
            0 <= dir < 2,
            before.child_of(id, 1 - dir) is Some,
            self.rotated_links(before, id, dir),
            self.arrangement() == before.rotated_layout(id, dir),
            self.same_contents(before),
            self.contains(x),
            x != id,
            x != before.riser(id, dir),
            before.parent_of(id) is Some ==> before.parent_of(id).unwrap().holder() != x,
            before.cache_ok(x),
        ensures
            self.cache_ok(x),
    {
        before.lemma_rotation_cast(id, dir);
        assert(before.shape_ok(x));
        assert(self.same_contents_at(before, x));
        assert(self.child_of(x, 0) == before.rotated_child(id, dir, x, 0));
        assert(self.child_of(x, 1) == before.rotated_child(id, dir, x, 1));
        assert(self.lo(x) == before.rotated_lo(id, dir, x));
        assert(self.hi(x) == before.rotated_hi(id, dir, x));
        if before.child_of(x, 0) is Some {
            before.lemma_child_below(x, 0);
            assert(self.same_contents_at(before, before.child_of(x, 0).unwrap()));
        }
        if before.child_of(x, 1) is Some {
            before.lemma_child_below(x, 1);
            assert(self.same_contents_at(before, before.child_of(x, 1).unwrap()));
        }
    }

    /// After a rotation the proper ancestors of the node that came up are
    /// the proper ancestors that the rotated node had.
    pub(crate) proof fn lemma_rotated_above(&self, before: Self, id: NodeId, dir: int, x: NodeId)
        requires
            before.shape_wf(),
            before.contains(id),
            0 <= dir < 2,
            before.child_of(id, 1 - dir) is Some,
            self.len() == before.len(),
            self.arrangement() == before.rotated_layout(id, dir),
            self.contains(x),
        ensures
            self.above(x, before.riser(id, dir)) <==> before.above(x, id),
            before.above(x, id) ==> x != before.riser(id, dir),
    {
        let up = before.riser(id, dir);
        before.lemma_rotation_cast(id, dir);
        assert(before.shape_ok(x));
        assert(before.shape_ok(before.root_of(x)));
        assert(before.shape_ok(before.root_of(id)));
        assert(self.root_of(x) == before.rotated_root(id, dir, x));
        assert(self.root_of(up) == before.rotated_root(id, dir, up));
        assert(self.lo(x) == before.rotated_lo(id, dir, x));
        assert(self.hi(x) == before.rotated_hi(id, dir, x));
        assert(self.pos(up) == before.pos(up));
        before.lemma_child_below(id, 1 - dir);
        if before.above(x, id) {
            before.lemma_descend(id, x);
        }
        if x != id && x != up && before.below(up, x) {
            before.lemma_descend(up, x);
        }
    }

    /// What a rotation leaves of the in-order sequences.
    pub(crate) proof fn lemma_rotated_inorder(&self, before: Self, id: NodeId, dir: int)
        requires
            before.shape_wf(),
            before.contains(id),
            0 <= dir < 2,
            before.child_of(id, 1 - dir) is Some,
            self.len() == before.len(),
            self.arrangement() == before.rotated_layout(id, dir),
        ensures
            self.inorder(before.riser(id, dir)) == before.inorder(id),
            forall|other: NodeId|
                self.contains(other) && other != id && other != before.riser(id, dir)
                    ==> #[trigger] self.inorder(other) == before.inorder(other),
            forall|other: NodeId|
                self.contains(other) ==> #[trigger] self.tree_of(other) == before.tree_of(other),
    {
        let up = before.riser(id, dir);
        before.lemma_rotation_cast(id, dir);
        assert forall|other: NodeId| self.contains(other) implies #[trigger] self.tree_of(other)
            == before.tree_of(other) by {
            assert(before.shape_ok(other));
            assert(before.shape_ok(before.root_of(other)));
            assert(self.root_of(other) == before.rotated_root(id, dir, other));
            let root = self.root_of(other);
            assert(self.order(root) == before.rotated_order(id, dir, root));
        }
        assert(self.tree_of(up) == before.tree_of(up));
        assert(self.lo(up) == before.rotated_lo(id, dir, up));
        assert(self.hi(up) == before.rotated_hi(id, dir, up));
        assert forall|other: NodeId|
            self.contains(other) && other != id && other != up implies #[trigger] self.inorder(
            other,
        ) == before.inorder(other) by {
            assert(self.tree_of(other) == before.tree_of(other));
            assert(self.lo(other) == before.rotated_lo(id, dir, other));
            assert(self.hi(other) == before.rotated_hi(id, dir, other));
        }
    }

    /// Rotates `id` in direction `dir` and recomputes `id` and the node
    /// that comes up, and nothing above them.
    pub(crate) fn rotate_local(&mut self, id: NodeId, dir: usize) -> (up: NodeId)
        requires
            old(self).shape_wf(),
            old(self).contains(id),
            dir < 2,
            old(self).child_of(id, 1 - dir) is Some,
            old(self).cached_but_from(old(self).riser(id, dir as int)),
        ensures
            up == old(self).riser(id, dir as int),
            final(self).shape_wf(),
            final(self).cached_but_above(up),
            final(self).rotated_links(*old(self), id, dir as int),
            final(self).arrangement() == old(self).rotated_layout(id, dir as int),
            final(self).shape() == rotate_shape(old(self).shape(), id, dir as int),
            final(self).stepped_from(*old(self), id, up),
    {
        let ghost before = *self;
        let ghost d = dir as int;
        let up = self.rotate_links(id, dir);
        let ghost linked = *self;
        proof {
            before.lemma_rotation_cast(id, d);
            assert forall|side: int| 0 <= side < 2 implies match #[trigger] linked.child_of(
                id,
                side,
            ) {
                Some(c) => linked.cache_ok(c),
                None => true,
            } by {
                assert(linked.child_of(id, side) == before.rotated_child(id, d, id, side));
                if linked.child_of(id, side) is Some {
                    let c = linked.child_of(id, side).unwrap();
                    if before.child_of(id, side) == Some(c) {
                        before.lemma_child_below(id, side);
                        before.lemma_nested_or_apart(c, up);
                        before.lemma_below_not_above(c, id);
                    } else {
                        before.lemma_child_below(up, d);
                        before.lemma_below_not_above(c, up);
                    }
                    assert(before.cache_ok(c));
                    linked.lemma_rotated_cache(before, id, d, c);
                }
            }
        }
        self.recompute(id);
        let ghost lower = *self;
        proof {
            assert(lower.same_links_at(linked, up));
            assert(lower.same_links_at(linked, id));
            assert forall|side: int| 0 <= side < 2 implies match #[trigger] lower.child_of(
                up,
                side,
            ) {
                Some(c) => lower.cache_ok(c),
                None => true,
            } by {
                assert(linked.child_of(up, side) == before.rotated_child(id, d, up, side));
                if lower.child_of(up, side) is Some {
                    let c = lower.child_of(up, side).unwrap();
                    if c != id {
                        before.lemma_child_below(up, side);
                        before.lemma_below_not_above(c, up);
                        assert(before.cache_ok(c));
                        linked.lemma_rotated_cache(before, id, d, c);
                        assert(lower.node(c) == linked.node(c));
                        assert(linked.shape_ok(c));
                        assert(lower.same_links_at(linked, c));
                        lower.lemma_cache_kept(linked, c, id);
                    }
                }
            }
        }
        self.recompute(up);
        proof {
            let upper = *self;
            assert(upper.same_links_at(lower, id));
            assert(upper.same_links_at(lower, up));
            assert(upper.node(id) == lower.node(id));
            assert forall|other: NodeId|
                upper.contains(other) && !upper.above(other, up) implies #[trigger] upper.cache_ok(
                other,
            ) by {
                if other == up {
                } else if other == id {
                    assert(lower.shape_ok(id));
                    upper.lemma_cache_kept(lower, id, up);
                } else {
                    upper.lemma_rotated_above(before, id, d, other);
                    before.lemma_above_step(up, other);
                    assert(before.cache_ok(other));
                    if before.parent_of(id) is Some && before.parent_of(id).unwrap().holder()
                        == other {
                        before.lemma_child_below(other, before.parent_of(id).unwrap().side());
                    }
                    linked.lemma_rotated_cache(before, id, d, other);
                    assert(lower.node(other) == linked.node(other));
                    assert(upper.node(other) == lower.node(other));
                    assert(linked.shape_ok(other));
                    assert(lower.same_links_at(linked, other));
                    assert(upper.same_links_at(lower, other));
                    lower.lemma_cache_kept(linked, other, id);
                    upper.lemma_cache_kept(lower, other, up);
                }
            }
            self.lemma_rotated_locally(before, linked, lower, id, d);
        }
        up
    }

    /// Puts together what the steps of a rotation without the recompute of
    /// what is above have established.
    pub(crate) proof fn lemma_rotated_locally(
        &self,
        before: Self,
        linked: Self,
        lower: Self,
        id: NodeId,
        dir: int,
    )
        requires
            before.shape_wf(),
            before.contains(id),
            0 <= dir < 2,
            before.child_of(id, 1 - dir) is Some,
            linked.shape_wf(),
            linked.rotated_links(before, id, dir),
            linked.arrangement() == before.rotated_layout(id, dir),
            linked.same_contents(before),
            lower.recomputed_from(linked, id),
            self.recomputed_from(lower, before.riser(id, dir)),
        ensures
            self.rotated_links(before, id, dir),
            self.arrangement() == before.rotated_layout(id, dir),
            self.shape() == rotate_shape(before.shape(), id, dir),
            self.stepped_from(before, id, before.riser(id, dir)),
    {
        let up = before.riser(id, dir);
        before.lemma_rotation_cast(id, dir);
        assert forall|x: NodeId| self.contains(x) implies self.same_links_at(linked, x) by {
            assert(self.same_links_at(lower, x));
            assert(lower.same_links_at(linked, x));
        }
        assert forall|x: NodeId| self.contains(x) implies #[trigger] self.parent_of(x)
            == before.rotated_parent(id, dir, x) by {
            assert(self.same_links_at(linked, x));
        }
        assert forall|x: NodeId, side: int|
            self.contains(x) && 0 <= side < 2 implies #[trigger] self.child_of(x, side)
            == before.rotated_child(id, dir, x, side) by {
            assert(self.same_links_at(linked, x));
            assert(linked.child_of(x, side) == before.rotated_child(id, dir, x, side));
        }
        self.lemma_rotated_inorder(before, id, dir);
        self.lemma_rotated_shape_is(before, id, dir);
        assert(self.parent_of(up) == before.rotated_parent(id, dir, up));
        assert forall|x: NodeId| self.contains(x) implies (#[trigger] self.above(x, up)
            <==> before.above(x, id)) by {
            self.lemma_rotated_above(before, id, dir, x);
        }
        lower.lemma_same_shape(linked);
        let touched = |other: NodeId| before.on_way(other, up, id);
        let open = |other: NodeId| self.above(other, up);
        assert forall|x: NodeId| self.contains(x) implies #[trigger] self.value_ok(
            before,
            x,
            touched(x),
        ) by {
            before.lemma_above_step(up, x);
            before.lemma_below_not_above(id, id);
            before.lemma_below_not_above(up, up);
            assert(touched(x) == (x == id || x == up));
            assert(linked.same_contents_at(before, x));
            assert(self.same_links_at(lower, x));
            assert(lower.same_links_at(linked, x));
            assert(lower.shape_ok(x));
            if x == up {
                assert(lower.node(up) == linked.node(up));
            } else if x == id {
                assert(self.node(id) == lower.node(id));
                assert forall|side: int| 0 <= side < 2 implies self.value_at(
                    self.child_of(id, side),
                ) == lower.value_at(lower.child_of(id, side)) by {
                    if lower.child_of(id, side) is Some {
                        let c = lower.child_of(id, side).unwrap();
                        lower.lemma_child_below(id, side);
                        assert(lower.parent_of(up) == linked.parent_of(up));
                        assert(linked.parent_of(up) == before.rotated_parent(id, dir, up));
                        assert(linked.parent_of(id) == before.rotated_parent(id, dir, id));
                        assert(lower.same_links_at(linked, id));
                        assert(self.node(c) == lower.node(c));
                    }
                }
            } else {
                assert(self.node(x) == lower.node(x));
                assert(lower.node(x) == linked.node(x));
            }
        }
        assert forall|x: NodeId, side: int|
            self.contains(x) && 0 <= side < 2 && !open(x) implies #[trigger] self.kept_at(
            before,
            touched,
            x,
            side,
        ) by {
            before.lemma_above_step(up, x);
            before.lemma_below_not_above(id, id);
            before.lemma_below_not_above(up, up);
            assert(touched(x) == (x == id || x == up));
            assert(self.child_of(x, side) == before.rotated_child(id, dir, x, side));
            if !touched(x) {
                assert(before.shape_ok(x));
                assert(self.above(x, up) <==> before.above(x, id));
                if before.parent_of(id) is Some && before.parent_of(id).unwrap().holder() == x {
                    before.lemma_above_step(id, x);
                }
                if before.child_of(x, side) is Some {
                    let c = before.child_of(x, side).unwrap();
                    before.lemma_child_below(x, side);
                    before.lemma_above_step(up, c);
                    before.lemma_below_not_above(id, id);
                    before.lemma_below_not_above(up, up);
                    assert(touched(c) == (c == id || c == up));
                }
            }
        }
    }

    /// Rotates `id` in direction `dir`: its child on the other side comes up
    /// into its place and is returned, and `id` becomes that child's child
    /// on side `dir`.  The cached aggregates of `id`, of the returned node
    /// and of every ancestor are recomputed, in this order.
    pub fn rotate(&mut self, id: NodeId, dir: usize) -> (up: NodeId)
        requires
            old(self).wf(),
            old(self).contains(id),
            dir < 2,
            old(self).child_of(id, 1 - dir) is Some,
        ensures
            up == old(self).riser(id, dir as int),
            final(self).wf(),
            final(self).rotated_from(*old(self), id, dir as int),
            old(self).augmented() ==> final(self).augmented(),
    {
        let ghost before = *self;
        let ghost d = dir as int;
        proof {
            before.lemma_rotation_cast(id, d);
            assert forall|other: NodeId|
                before.contains(other) && !(other == before.riser(id, d) || (before.below(
                    before.riser(id, d),
                    other,
                ) && other != before.riser(id, d))) implies #[trigger] before.cache_ok(other) by {}
        }
        let up = self.rotate_local(id, dir);
        let ghost local = *self;
        self.refresh_up(up);
        proof {
            before.lemma_above_step(up, id);
            self.lemma_step_refreshed(local, before, id, up);
            assert forall|x: NodeId| self.contains(x) implies self.same_links_at(local, x) by {}
            assert forall|x: NodeId| self.contains(x) implies #[trigger] self.parent_of(x)
                == before.rotated_parent(id, d, x) by {
                assert(self.same_links_at(local, x));
            }
            assert forall|x: NodeId, side: int|
                self.contains(x) && 0 <= side < 2 implies #[trigger] self.child_of(x, side)
                == before.rotated_child(id, d, x, side) by {
                assert(self.same_links_at(local, x));
                assert(local.child_of(x, side) == before.rotated_child(id, d, x, side));
            }
            self.lemma_rotated_inorder(before, id, d);
            self.lemma_rotated_shape_is(before, id, d);
            if before.augmented() {
                self.lemma_settle(before, |other: NodeId| before.at_or_above(other, up));
            }
        }
        up
    }
}

} // verus!
