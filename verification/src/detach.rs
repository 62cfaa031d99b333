//! Detaching a subtree from its parent, which makes it a tree of its own.

use vstd::prelude::*;
use crate::forest::{Forest, Layout};
use crate::helper::Helper;
use crate::node::NodeId;
use crate::parent::Parent;
use crate::shape::{detach_shape, links_at};

verus! {

impl<T, H: Helper<T>> Forest<T, H> {
    /// The parent link of `other` after `id` has been detached.
    pub open spec fn detached_parent(&self, id: NodeId, other: NodeId) -> Option<Parent> {
        if other == id {
            None
        } else {
            self.parent_of(other)
        }
    }

    /// The child of `other` on `side` after `id` has been detached.
    pub open spec fn detached_child(&self, id: NodeId, other: NodeId, side: int) -> Option<
        NodeId,
    > {
        if self.parent_of(id) == Some(Parent::link(other, side)) {
            None
        } else {
            self.child_of(other, side)
        }
    }

    /// The links of `self` are those of `before` with `id` detached.
    pub open spec fn detached_links(&self, before: Self, id: NodeId) -> bool {
        &&& self.len() == before.len()
        &&& forall|other: NodeId|
            self.contains(other) ==> #[trigger] self.parent_of(other) == before.detached_parent(
                id,
                other,
            )
        &&& forall|other: NodeId, side: int|
            self.contains(other) && 0 <= side < 2 ==> #[trigger] self.child_of(other, side)
                == before.detached_child(id, other, side)
    }

    /// The root of the tree of `other` after `id` has been detached.
    pub open spec fn detached_root(&self, id: NodeId, other: NodeId) -> NodeId {
        if self.below(other, id) {
            id
        } else {
            self.root_of(other)
        }
    }

    /// Where a position of the tree of `id` goes when the subtree of `id`
    /// leaves: what follows the subtree moves down by its length.
    pub open spec fn closed_up(&self, id: NodeId, other: NodeId, place: int) -> int {
        if self.below(other, id) {
            place - self.lo(id)
        } else if self.root_of(other) == self.root_of(id) && place > self.lo(id) {
            place - (self.hi(id) - self.lo(id))
        } else {
            place
        }
    }

    /// The position of `other` after `id` has been detached.
    pub open spec fn detached_pos(&self, id: NodeId, other: NodeId) -> int {
        if self.below(other, id) {
            self.pos(other) - self.lo(id)
        } else if self.root_of(other) == self.root_of(id) && self.pos(other) >= self.hi(id) {
            self.pos(other) - (self.hi(id) - self.lo(id))
        } else {
            self.pos(other)
        }
    }

    /// The in-order sequence of the tree rooted at `other` after `id` has
    /// been detached.
    pub open spec fn detached_order(&self, id: NodeId, other: NodeId) -> Seq<NodeId> {
        let tree = self.tree_of(id);
        if other == id {
            tree.subrange(self.lo(id), self.hi(id))
        } else if other == self.root_of(id) {
            tree.subrange(0, self.lo(id)) + tree.subrange(self.hi(id), tree.len() as int)
        } else {
            self.order(other)
        }
    }

    /// The layout after `id` has been detached from its parent.
    pub open spec fn detached_layout(&self, id: NodeId) -> Layout {
        Layout {
            root: Seq::new(self.len() as nat, |i: int| self.detached_root(id, NodeId(i as usize))),
            pos: Seq::new(self.len() as nat, |i: int| self.detached_pos(id, NodeId(i as usize))),
            lo: Seq::new(
                self.len() as nat,
                |i: int| self.closed_up(id, NodeId(i as usize), self.lo(NodeId(i as usize))),
            ),
            hi: Seq::new(
                self.len() as nat,
                |i: int| self.closed_up(id, NodeId(i as usize), self.hi(NodeId(i as usize))),
            ),
            order: Seq::new(
                self.len() as nat,
                |i: int| self.detached_order(id, NodeId(i as usize)),
            ),
        }
    }

    /// How the range of a node lies to the subtree of `id`: inside it,
    /// around it, before it or after it.
    pub(crate) proof fn lemma_detach_ranges(&self, id: NodeId, x: NodeId)
        requires
            self.shape_wf(),
            self.contains(id),
            self.contains(x),
            self.parent_of(id) is Some,
            self.root_of(x) == self.root_of(id),
        ensures
            self.shape_ok(x),
            self.shape_ok(id),
            self.below(x, id) ==> self.lo(id) <= self.lo(x) && self.hi(x) <= self.hi(id),
            self.below(x, id) && x != id ==> self.parent_of(x) is Some && self.below(
                self.parent_of(x).unwrap().holder(),
                id,
            ),
            !self.below(x, id) ==> (self.lo(x) <= self.lo(id) && self.hi(id) <= self.hi(x)
                && self.below(id, x)) || self.hi(x) <= self.lo(id) || self.hi(id) <= self.lo(x),
            !self.below(x, id) ==> self.pos(x) < self.lo(id) || self.pos(x) >= self.hi(id),
            !self.below(x, id) ==> match self.parent_of(x) {
                Some(p) => !self.below(p.holder(), id),
                None => true,
            },
    {
        assert(self.shape_ok(x));
        assert(self.shape_ok(id));
        self.lemma_nested_or_apart(x, id);
        if self.below(x, id) {
            self.lemma_descend(x, id);
        } else if self.parent_of(x) is Some {
            let link = self.parent_of(x).unwrap();
            let p = link.holder();
            self.lemma_child_below(p, link.side());
            if self.below(p, id) {
                self.lemma_below_trans(x, p, id);
            }
        }
    }

    /// Cuts the links between `id` and its parent.  Cached aggregates are
    /// left as they are.
    pub(crate) fn detach_links(&mut self, id: NodeId) -> (link: Parent)
        requires
            old(self).shape_wf(),
            old(self).contains(id),
            old(self).parent_of(id) is Some,
        ensures
            Some(link) == old(self).parent_of(id),
            final(self).shape_wf(),
            final(self).detached_links(*old(self), id),
            final(self).arrangement() == old(self).detached_layout(id),
            final(self).same_contents(*old(self)),
    {
        let ghost before = *self;
        proof {
            assert(before.shape_ok(id));
            assert forall|index: int| 0 <= index < self.len() implies (#[trigger] self.slots[index]) is Some by {
                assert(before.shape_ok(NodeId(index as usize)));
            }
        }
        let link = self.node_ref(id).parent.unwrap();
        proof {
            before.lemma_child_below(link.holder(), link.side());
        }
        self.write_child(link.get(), link.dir(), None);
        self.write_parent(id, None);
        self.layout = Ghost(before.detached_layout(id));
        proof {
            assert forall|x: NodeId| self.contains(x) implies #[trigger] self.parent_of(x)
                == before.detached_parent(id, x) by {}
            assert forall|x: NodeId, side: int|
                self.contains(x) && 0 <= side < 2 implies #[trigger] self.child_of(x, side)
                == before.detached_child(id, x, side) by {
                assert(before.shape_ok(x));
            }
            assert forall|x: NodeId| self.contains(x) implies #[trigger] self.same_contents_at(
                before,
                x,
            ) by {}
            assert forall|x: NodeId| self.contains(x) implies #[trigger] self.shape_ok(x) by {
                self.lemma_detached_node_links(before, id, x);
                self.lemma_detached_node_layout(before, id, x);
            }
        }
        link
    }

    /// The links of one node agree with its neighbours after a detach.
    pub(crate) proof fn lemma_detached_node_links(&self, before: Self, id: NodeId, x: NodeId)
        requires
            before.shape_wf(),
            before.contains(id),
            before.parent_of(id) is Some,
            self.detached_links(before, id),
            self.contains(x),
        ensures
            self.links_ok(x),
    {
        assert(before.shape_ok(x));
        assert(before.shape_ok(id));
        let link = before.parent_of(id).unwrap();
        before.lemma_child_below(link.holder(), link.side());
        assert forall|side: int| 0 <= side < 2 implies match #[trigger] self.child_of(x, side) {
            Some(c) => self.contains(c) && self.parent_of(c) == Some(Parent::link(x, side)),
            None => true,
        } by {
            assert(self.child_of(x, side) == before.detached_child(id, x, side));
            if self.child_of(x, side) is Some {
                let c = self.child_of(x, side).unwrap();
                before.lemma_child_below(x, side);
                assert(self.parent_of(c) == before.detached_parent(id, c));
            }
        }
        assert(self.parent_of(x) == before.detached_parent(id, x));
        if self.parent_of(x) is Some {
            let p = self.parent_of(x).unwrap();
            assert(self.child_of(p.holder(), p.side()) == before.detached_child(
                id,
                p.holder(),
                p.side(),
            ));
        }
    }

    /// The layout at one node agrees with its links after a detach.
    pub(crate) proof fn lemma_detached_node_layout(&self, before: Self, id: NodeId, x: NodeId)
        requires
            before.shape_wf(),
            before.contains(id),
            before.parent_of(id) is Some,
            self.detached_links(before, id),
            self.arrangement() == before.detached_layout(id),
            self.contains(x),
        ensures
            self.layout_ok(x),
    {
        let root = before.root_of(id);
        let link = before.parent_of(id).unwrap();
        assert(before.shape_ok(x));
        assert(before.shape_ok(id));
        assert(before.shape_ok(root));
        assert(before.shape_ok(before.root_of(x)));
        before.lemma_child_below(link.holder(), link.side());
        assert(self.parent_of(x) == before.detached_parent(id, x));
        assert(self.child_of(x, 0) == before.detached_child(id, x, 0));
        assert(self.child_of(x, 1) == before.detached_child(id, x, 1));
        assert(self.root_of(x) == before.detached_root(id, x));
        assert(self.pos(x) == before.detached_pos(id, x));
        assert(self.lo(x) == before.closed_up(id, x, before.lo(x)));
        assert(self.hi(x) == before.closed_up(id, x, before.hi(x)));
        let new_root = self.root_of(x);
        assert(self.parent_of(new_root) == before.detached_parent(id, new_root));
        assert(self.order(new_root) == before.detached_order(id, new_root));
        if before.root_of(x) == root {
            before.lemma_detach_ranges(id, x);
        }
        if self.parent_of(x) is Some {
            let p = self.parent_of(x).unwrap().holder();
            assert(self.root_of(p) == before.detached_root(id, p));
            assert(before.shape_ok(p));
            if before.root_of(x) == root {
                before.lemma_detach_ranges(id, p);
            }
        }
        if before.child_of(x, 0) is Some {
            let c = before.child_of(x, 0).unwrap();
            before.lemma_child_below(x, 0);
            assert(self.lo(c) == before.closed_up(id, c, before.lo(c)));
            assert(self.hi(c) == before.closed_up(id, c, before.hi(c)));
            if before.root_of(x) == root {
                before.lemma_detach_ranges(id, c);
            }
        }
        if before.child_of(x, 1) is Some {
            let c = before.child_of(x, 1).unwrap();
            before.lemma_child_below(x, 1);
            assert(self.lo(c) == before.closed_up(id, c, before.lo(c)));
            assert(self.hi(c) == before.closed_up(id, c, before.hi(c)));
            if before.root_of(x) == root {
                before.lemma_detach_ranges(id, c);
            }
        }
        if self.parent_of(x) is None {
            assert forall|index: int| 0 <= index < self.order(x).len() implies #[trigger] self.entry_ok(
                x,
                index,
            ) by {
                let old_index = if x == id {
                    index + before.lo(id)
                } else if x == root && index >= before.lo(id) {
                    index + (before.hi(id) - before.lo(id))
                } else {
                    index
                };
                let old_root = if x == id {
                    root
                } else {
                    x
                };
                assert(before.entry_ok(old_root, old_index));
                let m = before.order(old_root)[old_index];
                assert(self.root_of(m) == before.detached_root(id, m));
                assert(self.pos(m) == before.detached_pos(id, m));
            }
        }
    }

    /// A node that is not above `id` keeps its cache up to date while `id`
    /// is detached.
    pub(crate) proof fn lemma_detached_cache(&self, before: Self, id: NodeId, x: NodeId)
        requires
            before.shape_wf(),
            before.contains(id),
            before.parent_of(id) is Some,
            self.detached_links(before, id),
            self.arrangement() == before.detached_layout(id),
            self.same_contents(before),
            self.contains(x),
            !before.above(x, id),
            before.cache_ok(x),
        ensures
            self.cache_ok(x),
    {
        let link = before.parent_of(id).unwrap();
        assert(before.shape_ok(x));
        assert(before.shape_ok(id));
        before.lemma_child_below(link.holder(), link.side());
        assert(self.same_contents_at(before, x));
        assert(self.child_of(x, 0) == before.detached_child(id, x, 0));
        assert(self.child_of(x, 1) == before.detached_child(id, x, 1));
        assert(self.lo(x) == before.closed_up(id, x, before.lo(x)));
        assert(self.hi(x) == before.closed_up(id, x, before.hi(x)));
        if before.root_of(x) == before.root_of(id) {
            before.lemma_detach_ranges(id, x);
        }
        if before.child_of(x, 0) is Some {
            before.lemma_child_below(x, 0);
            assert(self.same_contents_at(before, before.child_of(x, 0).unwrap()));
        }
        if before.child_of(x, 1) is Some {
            before.lemma_child_below(x, 1);
            assert(self.same_contents_at(before, before.child_of(x, 1).unwrap()));
        }
    }

    /// A detach adds nothing to what lies below a node, and leaves what is
    /// above the former parent of `id` above it.
    pub(crate) proof fn lemma_detached_below(&self, before: Self, id: NodeId, x: NodeId, y: NodeId)
        requires
            before.shape_wf(),
            before.contains(id),
            before.parent_of(id) is Some,
            self.len() == before.len(),
            self.arrangement() == before.detached_layout(id),
            self.contains(x),
            self.contains(y),
        ensures
            self.below(x, y) ==> before.below(x, y),
            before.below(x, y) && (before.below(x, id) <==> before.below(y, id)) ==> self.below(
                x,
                y,
            ),
    {
        assert(before.shape_ok(x));
        assert(before.shape_ok(y));
        assert(before.shape_ok(id));
        assert(self.root_of(x) == before.detached_root(id, x));
        assert(self.root_of(y) == before.detached_root(id, y));
        assert(self.pos(x) == before.detached_pos(id, x));
        assert(self.lo(y) == before.closed_up(id, y, before.lo(y)));
        assert(self.hi(y) == before.closed_up(id, y, before.hi(y)));
        if before.root_of(x) == before.root_of(id) {
            before.lemma_detach_ranges(id, x);
        }
        if before.root_of(y) == before.root_of(id) {
            before.lemma_detach_ranges(id, y);
        }
        assert(before.shape_ok(before.root_of(id)));
    }

    /// The part of `seq` outside the positions from `lo` up to `hi`.
    pub open spec fn without(seq: Seq<NodeId>, lo: int, hi: int) -> Seq<NodeId> {
        seq.subrange(0, lo) + seq.subrange(hi, seq.len() as int)
    }

    /// `self` is `before` with `id`, which had a parent, detached from it:
    /// the subtree of `id` is a tree of its own, and the tree it was taken
    /// from has lost that stretch of its in-order sequence.  What was above
    /// `id` has been recomputed bottom-up; every other value is as it was.
    pub open spec fn detached_from(&self, before: Self, id: NodeId) -> bool {
        &&& self.detached_links(before, id)
        &&& self.arrangement() == before.detached_layout(id)
        &&& self.shape() == detach_shape(before.shape(), id)
        &&& self.tree_of(id) == before.inorder(id)
        &&& forall|other: NodeId|
            self.contains(other) && !before.above(other, id) ==> #[trigger] self.inorder(other)
                == before.inorder(other)
        &&& forall|other: NodeId|
            self.contains(other) && before.above(other, id) ==> #[trigger] self.inorder(other)
                == Self::without(
                before.inorder(other),
                before.lo(id) - before.lo(other),
                before.hi(id) - before.lo(other),
            )
        &&& forall|x: NodeId, y: NodeId|
            self.contains(x) && self.contains(y) && #[trigger] self.below(x, y) ==> before.below(
                x,
                y,
            )
        &&& self.values_from(before, |other: NodeId| before.above(other, id))
        &&& self.kept_from(before, |other: NodeId| before.above(other, id))
    }

    /// Nothing has changed since `before`.
    pub open spec fn unchanged_from(&self, before: Self) -> bool {
        &&& self.len() == before.len()
        &&& self.arrangement() == before.arrangement()
        &&& forall|other: NodeId|
            self.contains(other) ==> #[trigger] self.node(other) == before.node(other)
    }

    /// What a detach leaves of the in-order sequences.
    pub(crate) proof fn lemma_detached_inorder(&self, before: Self, id: NodeId)
        requires
            before.shape_wf(),
            before.contains(id),
            before.parent_of(id) is Some,
            self.len() == before.len(),
            self.arrangement() == before.detached_layout(id),
        ensures
            self.tree_of(id) == before.inorder(id),
            forall|other: NodeId|
                self.contains(other) && !before.above(other, id) ==> #[trigger] self.inorder(other)
                    == before.inorder(other),
            forall|other: NodeId|
                self.contains(other) && before.above(other, id) ==> #[trigger] self.inorder(other)
                    == Self::without(
                    before.inorder(other),
                    before.lo(id) - before.lo(other),
                    before.hi(id) - before.lo(other),
                ),
    {
        let root = before.root_of(id);
        assert(before.shape_ok(id));
        assert(before.shape_ok(root));
        assert(self.root_of(id) == before.detached_root(id, id));
        assert(self.order(id) == before.detached_order(id, id));
        assert forall|x: NodeId| self.contains(x) implies (if before.above(x, id) {
            #[trigger] self.inorder(x) == Self::without(
                before.inorder(x),
                before.lo(id) - before.lo(x),
                before.hi(id) - before.lo(x),
            )
        } else {
            self.inorder(x) == before.inorder(x)
        }) by {
            assert(before.shape_ok(x));
            assert(before.shape_ok(before.root_of(x)));
            assert(self.root_of(x) == before.detached_root(id, x));
            assert(self.lo(x) == before.closed_up(id, x, before.lo(x)));
            assert(self.hi(x) == before.closed_up(id, x, before.hi(x)));
            let new_root = self.root_of(x);
            assert(self.order(new_root) == before.detached_order(id, new_root));
            if before.root_of(x) == root {
                before.lemma_detach_ranges(id, x);
            }
            if before.above(x, id) {
                before.lemma_below_not_above(id, x);
                before.lemma_descend(id, x);
                assert(new_root == root);
                assert(self.inorder(x).len() == before.inorder(x).len() - (before.hi(id)
                    - before.lo(id)));
                assert(self.inorder(x) =~= Self::without(
                    before.inorder(x),
                    before.lo(id) - before.lo(x),
                    before.hi(id) - before.lo(x),
                ));
            } else {
                assert(self.inorder(x) =~= before.inorder(x));
            }
        }
    }

    /// The detach of the links is the detach of the shape.
    pub(crate) proof fn lemma_detached_shape_is(&self, before: Self, id: NodeId)
        requires
            before.shape_wf(),
            before.contains(id),
            before.parent_of(id) is Some,
            self.detached_links(before, id),
        ensures
            self.shape() == detach_shape(before.shape(), id),
    {
        let shape = before.shape();
        let link = before.parent_of(id).unwrap();
        assert(before.shape_ok(id));
        before.lemma_child_below(link.holder(), link.side());
        assert(links_at(shape, id) == before.links(id));
        let target = detach_shape(shape, id);
        assert forall|index: int| 0 <= index < self.len() implies self.shape()[index]
            == target[index] by {
            let x = NodeId(index as usize);
            assert(before.shape_ok(x));
            assert(links_at(shape, x) == before.links(x));
            assert(self.parent_of(x) == before.detached_parent(id, x));
            assert(self.child_of(x, 0) == before.detached_child(id, x, 0));
            assert(self.child_of(x, 1) == before.detached_child(id, x, 1));
        }
        assert(self.shape() =~= target);
    }

    /// Puts together what the steps of a detach have established.
    pub(crate) proof fn lemma_detached_result(
        &self,
        before: Self,
        cut: Self,
        low: Self,
        id: NodeId,
    )
        requires
            before.shape_wf(),
            before.contains(id),
            before.parent_of(id) is Some,
            cut.shape_wf(),
            cut.detached_links(before, id),
            cut.arrangement() == before.detached_layout(id),
            cut.same_contents(before),
            low.recomputed_from(cut, before.parent_of(id).unwrap().holder()),
            self.refreshed_from(low, before.parent_of(id).unwrap().holder()),
        ensures
            self.detached_from(before, id),
    {
        let link = before.parent_of(id).unwrap();
        let p = link.holder();
        assert(before.shape_ok(id));
        before.lemma_child_below(p, link.side());
        assert forall|x: NodeId| self.contains(x) implies self.same_links_at(cut, x) by {
            assert(self.same_links_at(low, x));
            assert(low.same_links_at(cut, x));
        }
        assert forall|x: NodeId| self.contains(x) implies #[trigger] self.parent_of(x)
            == before.detached_parent(id, x) by {
            assert(self.same_links_at(cut, x));
        }
        assert forall|x: NodeId, side: int|
            self.contains(x) && 0 <= side < 2 implies #[trigger] self.child_of(x, side)
            == before.detached_child(id, x, side) by {
            assert(self.same_links_at(cut, x));
            assert(cut.child_of(x, side) == before.detached_child(id, x, side));
        }
        self.lemma_detached_inorder(before, id);
        self.lemma_detached_shape_is(before, id);
        assert forall|x: NodeId, y: NodeId|
            self.contains(x) && self.contains(y) && #[trigger] self.below(
                x,
                y,
            ) implies before.below(x, y) by {
            self.lemma_detached_below(before, id, x, y);
        }
        low.lemma_same_shape(cut);
        let touched = |other: NodeId| before.above(other, id);
        assert forall|x: NodeId| self.contains(x) implies #[trigger] self.value_ok(
            before,
            x,
            touched(x),
        ) by {
            before.lemma_above_step(id, x);
            low.lemma_detached_below(before, id, p, x);
            before.lemma_below_not_above(id, id);
            if before.above(x, p) {
                before.lemma_descend(p, x);
                before.lemma_nested_or_apart(x, id);
                before.lemma_descend(id, p);
                if before.below(x, id) {
                    before.lemma_below_trans(x, id, p);
                    before.lemma_below_not_above(x, p);
                }
            }
            before.lemma_nested_or_apart(p, id);
            if before.below(p, id) {
                before.lemma_below_not_above(p, id);
            }
            assert(low.above(x, p) <==> before.above(x, p));
            assert(self.value_ok(low, x, low.above(x, p)));
            assert(cut.same_contents_at(before, x));
            assert(self.same_links_at(low, x));
            assert(low.same_links_at(cut, x));
            assert(low.shape_ok(x));
            if x == p {
                assert(self.node(p) == low.node(p));
                assert forall|side: int| 0 <= side < 2 implies self.value_at(
                    self.child_of(p, side),
                ) == low.value_at(low.child_of(p, side)) by {
                    if low.child_of(p, side) is Some {
                        let c = low.child_of(p, side).unwrap();
                        low.lemma_child_below(p, side);
                        low.lemma_below_not_above(c, p);
                        assert(self.node(c) == low.node(c));
                    }
                }
            } else if before.above(x, p) {
                assert(low.node(x) == cut.node(x));
            } else {
                assert(self.node(x) == low.node(x));
                assert(low.node(x) == cut.node(x));
            }
        }
        assert forall|x: NodeId, side: int|
            self.contains(x) && 0 <= side < 2 implies #[trigger] self.kept_at(
            before,
            touched,
            x,
            side,
        ) by {
            assert(self.child_of(x, side) == before.detached_child(id, x, side));
            if !touched(x) {
                assert(before.shape_ok(x));
                before.lemma_above_step(id, x);
                if before.child_of(x, side) is Some {
                    let c = before.child_of(x, side).unwrap();
                    before.lemma_child_below(x, side);
                    if before.above(c, id) {
                        before.lemma_descend(id, c);
                        before.lemma_below_trans(id, c, x);
                        before.lemma_descend(c, x);
                    }
                }
            }
        }
    }

    /// Detaches `id` from its parent, if it has one, and returns the link
    /// it had.  The former parent and every ancestor of it are recomputed
    /// bottom-up.
    pub fn take_parent(&mut self, id: NodeId) -> (link: Option<Parent>)
        requires
            old(self).wf(),
            old(self).contains(id),
        ensures
            link == old(self).parent_of(id),
            final(self).wf(),
            link is None ==> final(self).unchanged_from(*old(self)),
            link is Some ==> final(self).detached_from(*old(self), id),
            old(self).augmented() ==> final(self).augmented(),
    {
        let ghost before = *self;
        if self.is_root(id) {
            proof {
                assert forall|other: NodeId| self.contains(other) implies #[trigger] self.node(
                    other,
                ) == before.node(other) by {}
            }
            return None;
        }
        let link = self.detach_links(id);
        let up = link.get();
        let ghost cut = *self;
        proof {
            assert(before.shape_ok(id));
            before.lemma_child_below(up, link.side());
            before.lemma_below_not_above(id, id);
            assert forall|side: int| 0 <= side < 2 implies match #[trigger] cut.child_of(up, side) {
                Some(c) => cut.cache_ok(c),
                None => true,
            } by {
                assert(cut.child_of(up, side) == before.detached_child(id, up, side));
                if cut.child_of(up, side) is Some {
                    let c = cut.child_of(up, side).unwrap();
                    before.lemma_child_below(up, side);
                    assert(before.cache_ok(c));
                    before.lemma_below_not_above(c, up);
                    before.lemma_above_step(id, c);
                    cut.lemma_detached_cache(before, id, c);
                }
            }
        }
        self.recompute(up);
        let ghost low = *self;
        proof {
            assert forall|other: NodeId|
                low.contains(other) && !low.above(other, up) implies #[trigger] low.cache_ok(
                other,
            ) by {
                if other != up {
                    before.lemma_above_step(id, other);
                    cut.lemma_detached_below(before, id, up, other);
                    before.lemma_nested_or_apart(up, id);
                    if before.below(up, id) {
                        before.lemma_below_not_above(up, id);
                    }
                    if before.above(other, up) {
                        before.lemma_descend(up, other);
                        before.lemma_descend(id, up);
                        if before.below(other, id) {
                            before.lemma_below_trans(other, id, up);
                            before.lemma_below_not_above(other, up);
                        }
                    }
                    assert(!before.above(other, id));
                    assert(before.cache_ok(other));
                    cut.lemma_detached_cache(before, id, other);
                    assert(cut.shape_ok(other));
                    assert(low.same_links_at(cut, other));
                    if cut.child_of(other, 0) == Some(up) {
                        cut.lemma_child_below(other, 0);
                    }
                    if cut.child_of(other, 1) == Some(up) {
                        cut.lemma_child_below(other, 1);
                    }
                    low.lemma_cache_kept(cut, other, up);
                }
            }
        }
        self.refresh_up(up);
        proof {
            self.lemma_detached_result(before, cut, low, id);
            if before.augmented() {
                self.lemma_settle(before, |other: NodeId| before.above(other, id));
            }
        }
        Some(link)
    }
}

} // verus!
