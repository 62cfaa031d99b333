//! Attaching a tree below a node, into an empty child slot.

use vstd::prelude::*;
use crate::forest::{Forest, Layout};
use crate::helper::Helper;
use crate::node::NodeId;
use crate::parent::Parent;
use crate::shape::{attach_shape, links_at};

verus! {

impl<T, H: Helper<T>> Forest<T, H> {
    /// What an attach asks for: `child` is the root of a tree that does not
    /// hold `id`, and the slot of `id` on side `dir` is empty.
    pub open spec fn can_attach(&self, id: NodeId, dir: int, child: NodeId) -> bool {
        &&& self.contains(id)
        &&& self.contains(child)
        &&& 0 <= dir < 2
        &&& self.child_of(id, dir) is None
        &&& self.parent_of(child) is None
        &&& self.root_of(id) != child
    }

    /// The parent link of `other` after `child` has been attached.
    pub open spec fn attached_parent(
        &self,
        id: NodeId,
        dir: int,
        child: NodeId,
        other: NodeId,
    ) -> Option<Parent> {
        if other == child {
            Some(Parent::link(id, dir))
        } else {
            self.parent_of(other)
        }
    }

    /// The child of `other` on `side` after `child` has been attached.
    pub open spec fn attached_child(
        &self,
        id: NodeId,
        dir: int,
        child: NodeId,
        other: NodeId,
        side: int,
    ) -> Option<NodeId> {
        if other == id && side == dir {
            Some(child)
        } else {
            self.child_of(other, side)
        }
    }

    /// The links of `self` are those of `before` with `child` attached to
    /// `id` on side `dir`.
    pub open spec fn attached_links(
        &self,
        before: Self,
        id: NodeId,
        dir: int,
        child: NodeId,
    ) -> bool {
        &&& self.len() == before.len()
        &&& forall|other: NodeId|
            self.contains(other) ==> #[trigger] self.parent_of(other) == before.attached_parent(
                id,
                dir,
                child,
                other,
            )
        &&& forall|other: NodeId, side: int|
            self.contains(other) && 0 <= side < 2 ==> #[trigger] self.child_of(other, side)
                == before.attached_child(id, dir, child, other, side)
    }

    /// The root of the tree of `other` after `child` has been attached to
    /// `id`.
    pub open spec fn attached_root(&self, id: NodeId, child: NodeId, other: NodeId) -> NodeId {
        if self.root_of(other) == child {
            self.root_of(id)
        } else {
            self.root_of(other)
        }
    }

    /// Where the end of a range goes when the tree of `child` comes in
    /// beside `id`: what lies after `id` moves up by the length of that
    /// tree; what comes with the tree moves to where it is put.
    pub open spec fn opened_up(
        &self,
        id: NodeId,
        dir: int,
        child: NodeId,
        other: NodeId,
        place: int,
    ) -> int {
        if self.root_of(other) == child {
            place + self.pos(id) + dir
        } else if self.root_of(other) == self.root_of(id) && place > self.pos(id) {
            place + self.hi(child)
        } else {
            place
        }
    }

    /// The position of `other` after `child` has been attached to `id` on
    /// side `dir`.
    pub open spec fn attached_pos(
        &self,
        id: NodeId,
        dir: int,
        child: NodeId,
        other: NodeId,
    ) -> int {
        if self.root_of(other) == child {
            self.pos(other) + self.pos(id) + dir
        } else if self.root_of(other) == self.root_of(id) && self.pos(other) >= self.pos(id)
            + dir {
            self.pos(other) + self.hi(child)
        } else {
            self.pos(other)
        }
    }

    /// `seq` with `block` put in before the position `at`.
    pub open spec fn with_insert(seq: Seq<NodeId>, at: int, block: Seq<NodeId>) -> Seq<NodeId> {
        seq.subrange(0, at) + block + seq.subrange(at, seq.len() as int)
    }

    /// The in-order sequence of the tree rooted at `other` after `child` has
    /// been attached to `id` on side `dir`.
    pub open spec fn attached_order(
        &self,
        id: NodeId,
        dir: int,
        child: NodeId,
        other: NodeId,
    ) -> Seq<NodeId> {
        if other == self.root_of(id) {
            Self::with_insert(self.tree_of(id), self.pos(id) + dir, self.order(child))
        } else {
            self.order(other)
        }
    }

    /// The layout after `child` has been attached to `id` on side `dir`.
    pub open spec fn attached_layout(&self, id: NodeId, dir: int, child: NodeId) -> Layout {
        Layout {
            root: Seq::new(
                self.len() as nat,
                |i: int| self.attached_root(id, child, NodeId(i as usize)),
            ),
            pos: Seq::new(
                self.len() as nat,
                |i: int| self.attached_pos(id, dir, child, NodeId(i as usize)),
            ),
            lo: Seq::new(
                self.len() as nat,
                |i: int|
                    self.opened_up(
                        id,
                        dir,
                        child,
                        NodeId(i as usize),
                        self.lo(NodeId(i as usize)),
                    ),
            ),
            hi: Seq::new(
                self.len() as nat,
                |i: int|
                    self.opened_up(
                        id,
                        dir,
                        child,
                        NodeId(i as usize),
                        self.hi(NodeId(i as usize)),
                    ),
            ),
            order: Seq::new(
                self.len() as nat,
                |i: int| self.attached_order(id, dir, child, NodeId(i as usize)),
            ),
        }
    }

    /// Links `child` into the slot of `id` on side `dir`.  Cached aggregates
    /// are left as they are.
    pub(crate) fn attach_links(&mut self, id: NodeId, dir: usize, child: NodeId)
        requires
            old(self).shape_wf(),
            old(self).can_attach(id, dir as int, child),
        ensures
            final(self).shape_wf(),
            final(self).attached_links(*old(self), id, dir as int, child),
            final(self).arrangement() == old(self).attached_layout(id, dir as int, child),
            final(self).same_contents(*old(self)),
    {
        let ghost before = *self;
        proof {
            assert forall|index: int| 0 <= index < self.len() implies (#[trigger] self.slots[index]) is Some by {
                assert(before.shape_ok(NodeId(index as usize)));
            }
        }
        self.write_child(id, dir, Some(child));
        self.write_parent(child, Some(Parent::of(&id, dir)));
        self.layout = Ghost(before.attached_layout(id, dir as int, child));
        proof {
            let d = dir as int;
            assert(before.shape_ok(id));
            assert(before.shape_ok(child));
            assert forall|x: NodeId| self.contains(x) implies #[trigger] self.parent_of(x)
                == before.attached_parent(id, d, child, x) by {}
            assert forall|x: NodeId, side: int|
                self.contains(x) && 0 <= side < 2 implies #[trigger] self.child_of(x, side)
                == before.attached_child(id, d, child, x, side) by {}
            assert forall|x: NodeId| self.contains(x) implies #[trigger] self.same_contents_at(
                before,
                x,
            ) by {}
            assert forall|x: NodeId| self.contains(x) implies #[trigger] self.shape_ok(x) by {
                self.lemma_attached_node_links(before, id, d, child, x);
                self.lemma_attached_node_layout(before, id, d, child, x);
            }
        }
    }

    /// The links of one node agree with its neighbours after an attach.
    pub(crate) proof fn lemma_attached_node_links(
        &self,
        before: Self,
        id: NodeId,
        dir: int,
        child: NodeId,
        x: NodeId,
    )
        requires
            before.shape_wf(),
            before.can_attach(id, dir, child),
            self.attached_links(before, id, dir, child),
            self.contains(x),
        ensures
            self.links_ok(x),
    {
        assert(before.shape_ok(x));
        assert(before.shape_ok(id));
        assert(before.shape_ok(child));
        assert forall|side: int| 0 <= side < 2 implies match #[trigger] self.child_of(x, side) {
            Some(c) => self.contains(c) && self.parent_of(c) == Some(Parent::link(x, side)),
            None => true,
        } by {
            assert(self.child_of(x, side) == before.attached_child(id, dir, child, x, side));
            if self.child_of(x, side) is Some {
                let c = self.child_of(x, side).unwrap();
                if before.child_of(x, side) is Some {
                    before.lemma_child_below(x, side);
                }
                assert(self.parent_of(c) == before.attached_parent(id, dir, child, c));
            }
        }
        assert(self.parent_of(x) == before.attached_parent(id, dir, child, x));
        if self.parent_of(x) is Some {
            let p = self.parent_of(x).unwrap();
            assert(self.child_of(p.holder(), p.side()) == before.attached_child(
                id,
                dir,
                child,
                p.holder(),
                p.side(),
            ));
        }
    }

    /// After an attach a node has the root of its parent, or is a root.
    pub(crate) proof fn lemma_attached_node_root(
        &self,
        before: Self,
        id: NodeId,
        dir: int,
        child: NodeId,
        x: NodeId,
    )
        requires
            before.shape_wf(),
            before.can_attach(id, dir, child),
            self.attached_links(before, id, dir, child),
            self.arrangement() == before.attached_layout(id, dir, child),
            self.contains(x),
        ensures
            self.contains(self.root_of(x)),
            self.parent_of(self.root_of(x)) is None,
            match self.parent_of(x) {
                Some(p) => self.root_of(x) == self.root_of(p.holder()),
                None => self.root_of(x) == x && self.lo(x) == 0 && self.hi(x) == self.order(
                    x,
                ).len(),
            },
    {
        let root = before.root_of(id);
        assert(before.shape_ok(x));
        assert(before.shape_ok(id));
        assert(before.shape_ok(child));
        assert(before.shape_ok(root));
        assert(before.shape_ok(before.root_of(x)));
        assert(self.parent_of(x) == before.attached_parent(id, dir, child, x));
        assert(self.root_of(x) == before.attached_root(id, child, x));
        assert(self.lo(x) == before.opened_up(id, dir, child, x, before.lo(x)));
        assert(self.hi(x) == before.opened_up(id, dir, child, x, before.hi(x)));
        let new_root = self.root_of(x);
        assert(self.parent_of(new_root) == before.attached_parent(id, dir, child, new_root));
        assert(self.order(new_root) == before.attached_order(id, dir, child, new_root));
        if self.parent_of(x) is Some {
            let p = self.parent_of(x).unwrap().holder();
            assert(self.root_of(p) == before.attached_root(id, child, p));
            assert(before.shape_ok(p));
        }
    }

    /// After an attach a node stands in its range, at its place in the
    /// in-order sequence of its tree.
    pub(crate) proof fn lemma_attached_node_range(
        &self,
        before: Self,
        id: NodeId,
        dir: int,
        child: NodeId,
        x: NodeId,
    )
        requires
            before.shape_wf(),
            before.can_attach(id, dir, child),
            self.attached_links(before, id, dir, child),
            self.arrangement() == before.attached_layout(id, dir, child),
            self.contains(x),
        ensures
            0 <= self.lo(x) <= self.pos(x) < self.hi(x) <= self.order(self.root_of(x)).len(),
            self.order(self.root_of(x))[self.pos(x)] == x,
    {
        let root = before.root_of(id);
        assert(before.shape_ok(x));
        assert(before.shape_ok(id));
        assert(before.shape_ok(child));
        assert(before.shape_ok(root));
        assert(before.shape_ok(before.root_of(x)));
        assert(self.root_of(x) == before.attached_root(id, child, x));
        assert(self.pos(x) == before.attached_pos(id, dir, child, x));
        assert(self.lo(x) == before.opened_up(id, dir, child, x, before.lo(x)));
        assert(self.hi(x) == before.opened_up(id, dir, child, x, before.hi(x)));
        let new_root = self.root_of(x);
        assert(self.order(new_root) == before.attached_order(id, dir, child, new_root));
    }

    /// After an attach the range of a node is split between its children
    /// and itself.
    pub(crate) proof fn lemma_attached_node_split(
        &self,
        before: Self,
        id: NodeId,
        dir: int,
        child: NodeId,
        x: NodeId,
        side: int,
    )
        requires
            before.shape_wf(),
            before.can_attach(id, dir, child),
            self.attached_links(before, id, dir, child),
            self.arrangement() == before.attached_layout(id, dir, child),
            self.contains(x),
            0 <= side < 2,
        ensures
            side == 0 ==> match self.child_of(x, 0) {
                Some(c) => self.lo(c) == self.lo(x) && self.hi(c) == self.pos(x),
                None => self.lo(x) == self.pos(x),
            },
            side == 1 ==> match self.child_of(x, 1) {
                Some(c) => self.lo(c) == self.pos(x) + 1 && self.hi(c) == self.hi(x),
                None => self.hi(x) == self.pos(x) + 1,
            },
    {
        let root = before.root_of(id);
        assert(before.shape_ok(x));
        assert(before.shape_ok(id));
        assert(before.shape_ok(child));
        assert(before.shape_ok(root));
        assert(self.child_of(x, side) == before.attached_child(id, dir, child, x, side));
        assert(self.pos(x) == before.attached_pos(id, dir, child, x));
        assert(self.lo(x) == before.opened_up(id, dir, child, x, before.lo(x)));
        assert(self.hi(x) == before.opened_up(id, dir, child, x, before.hi(x)));
        if before.root_of(x) == root && before.pos(x) == before.pos(id) {
            before.lemma_same_pos(x, id);
        }
        if self.child_of(x, side) is Some {
            let c = self.child_of(x, side).unwrap();
            if before.child_of(x, side) is Some {
                before.lemma_child_below(x, side);
            }
            assert(before.shape_ok(c));
            assert(self.lo(c) == before.opened_up(id, dir, child, c, before.lo(c)));
            assert(self.hi(c) == before.opened_up(id, dir, child, c, before.hi(c)));
        }
    }

    /// The layout at one node agrees with its links after an attach.
    pub(crate) proof fn lemma_attached_node_layout(
        &self,
        before: Self,
        id: NodeId,
        dir: int,
        child: NodeId,
        x: NodeId,
    )
        requires
            before.shape_wf(),
            before.can_attach(id, dir, child),
            self.attached_links(before, id, dir, child),
            self.arrangement() == before.attached_layout(id, dir, child),
            self.contains(x),
        ensures
            self.layout_ok(x),
    {
        self.lemma_attached_node_root(before, id, dir, child, x);
        self.lemma_attached_node_range(before, id, dir, child, x);
        self.lemma_attached_node_split(before, id, dir, child, x, 0);
        self.lemma_attached_node_split(before, id, dir, child, x, 1);
        if self.parent_of(x) is None {
            self.lemma_attached_entries(before, id, dir, child, x);
        }
    }

    /// The in-order sequence of a root names its nodes in their places
    /// after an attach.
    pub(crate) proof fn lemma_attached_entries(
        &self,
        before: Self,
        id: NodeId,
        dir: int,
        child: NodeId,
        x: NodeId,
    )
        requires
            before.shape_wf(),
            before.can_attach(id, dir, child),
            self.attached_links(before, id, dir, child),
            self.arrangement() == before.attached_layout(id, dir, child),
            self.contains(x),
            self.parent_of(x) is None,
        ensures
            forall|index: int|
                0 <= index < self.order(x).len() ==> #[trigger] self.entry_ok(x, index),
    {
        let root = before.root_of(id);
        assert(before.shape_ok(x));
        assert(before.shape_ok(id));
        assert(before.shape_ok(child));
        assert(before.shape_ok(root));
        assert(self.parent_of(x) == before.attached_parent(id, dir, child, x));
        assert(self.order(x) == before.attached_order(id, dir, child, x));
        if self.parent_of(x) is None {
            let at = before.pos(id) + dir;
            let len = before.hi(child);
            assert forall|index: int| 0 <= index < self.order(x).len() implies #[trigger] self.entry_ok(
                x,
                index,
            ) by {
                if x == root {
                    if index < at {
                        assert(before.entry_ok(root, index));
                        let m = before.order(root)[index];
                        assert(self.root_of(m) == before.attached_root(id, child, m));
                        assert(self.pos(m) == before.attached_pos(id, dir, child, m));
                    } else if index < at + len {
                        assert(before.entry_ok(child, index - at));
                        let m = before.order(child)[index - at];
                        assert(self.root_of(m) == before.attached_root(id, child, m));
                        assert(self.pos(m) == before.attached_pos(id, dir, child, m));
                    } else {
                        assert(before.entry_ok(root, index - len));
                        let m = before.order(root)[index - len];
                        assert(self.root_of(m) == before.attached_root(id, child, m));
                        assert(self.pos(m) == before.attached_pos(id, dir, child, m));
                    }
                } else {
                    assert(before.entry_ok(x, index));
                    let m = before.order(x)[index];
                    assert(self.root_of(m) == before.attached_root(id, child, m));
                    assert(self.pos(m) == before.attached_pos(id, dir, child, m));
                }
            }
        }
    }

    /// A node that is neither `id` nor above it keeps its cache up to date
    /// while a tree is attached to `id`.
    pub(crate) proof fn lemma_attached_cache(
        &self,
        before: Self,
        id: NodeId,
        dir: int,
        child: NodeId,
        x: NodeId,
    )
        requires
            before.shape_wf(),
            before.can_attach(id, dir, child),
            self.attached_links(before, id, dir, child),
            self.arrangement() == before.attached_layout(id, dir, child),
            self.same_contents(before),
            self.contains(x),
            !before.at_or_above(x, id),
            before.cache_ok(x),
        ensures
            self.cache_ok(x),
    {
        assert(before.shape_ok(x));
        assert(before.shape_ok(id));
        assert(self.same_contents_at(before, x));
        assert(self.child_of(x, 0) == before.attached_child(id, dir, child, x, 0));
        assert(self.child_of(x, 1) == before.attached_child(id, dir, child, x, 1));
        assert(self.lo(x) == before.opened_up(id, dir, child, x, before.lo(x)));
        assert(self.hi(x) == before.opened_up(id, dir, child, x, before.hi(x)));
        if before.child_of(x, 0) is Some {
            before.lemma_child_below(x, 0);
            assert(self.same_contents_at(before, before.child_of(x, 0).unwrap()));
        }
        if before.child_of(x, 1) is Some {
            before.lemma_child_below(x, 1);
            assert(self.same_contents_at(before, before.child_of(x, 1).unwrap()));
        }
    }

    /// An attach leaves above `id` what was above it, and nothing else.
    pub(crate) proof fn lemma_attached_above(
        &self,
        before: Self,
        id: NodeId,
        dir: int,
        child: NodeId,
        x: NodeId,
    )
        requires
            before.shape_wf(),
            before.can_attach(id, dir, child),
            self.len() == before.len(),
            self.arrangement() == before.attached_layout(id, dir, child),
            self.contains(x),
        ensures
            self.above(x, id) <==> before.above(x, id),
    {
        assert(before.shape_ok(x));
        assert(before.shape_ok(id));
        assert(before.shape_ok(child));
        assert(before.shape_ok(before.root_of(x)));
        assert(self.root_of(x) == before.attached_root(id, child, x));
        assert(self.root_of(id) == before.attached_root(id, child, id));
        assert(self.pos(id) == before.attached_pos(id, dir, child, id));
        assert(self.lo(x) == before.opened_up(id, dir, child, x, before.lo(x)));
        assert(self.hi(x) == before.opened_up(id, dir, child, x, before.hi(x)));
    }

    /// `self` is `before` with the tree of `child` attached to `id` on side
    /// `dir`: the in-order sequence of that tree now stands beside `id` in
    /// the subtrees of `id` and of what is above it.  These have been
    /// recomputed bottom-up; every other value is as it was.
    pub open spec fn attached_from(
        &self,
        before: Self,
        id: NodeId,
        dir: int,
        child: NodeId,
    ) -> bool {
        let touched = |other: NodeId| before.at_or_above(other, id);
        &&& self.attached_links(before, id, dir, child)
        &&& self.arrangement() == before.attached_layout(id, dir, child)
        &&& self.shape() == attach_shape(before.shape(), id, dir, child)
        &&& forall|other: NodeId|
            self.contains(other) && !before.at_or_above(other, id) ==> #[trigger] self.inorder(
                other,
            ) == before.inorder(other)
        &&& forall|other: NodeId|
            self.contains(other) && before.at_or_above(other, id) ==> #[trigger] self.inorder(
                other,
            ) == Self::with_insert(
                before.inorder(other),
                before.pos(id) + dir - before.lo(other),
                before.tree_of(child),
            )
        &&& forall|other: NodeId|
            self.contains(other) ==> (#[trigger] self.above(other, id) <==> before.above(
                other,
                id,
            ))
        &&& self.values_from(before, touched)
        &&& self.kept_from(before, touched)
    }

    /// What an attach makes of the in-order sequences.
    pub(crate) proof fn lemma_attached_inorder(
        &self,
        before: Self,
        id: NodeId,
        dir: int,
        child: NodeId,
    )
        requires
            before.shape_wf(),
            before.can_attach(id, dir, child),
            self.len() == before.len(),
            self.arrangement() == before.attached_layout(id, dir, child),
        ensures
            forall|other: NodeId|
                self.contains(other) && !before.at_or_above(other, id) ==> #[trigger] self.inorder(
                    other,
                ) == before.inorder(other),
            forall|other: NodeId|
                self.contains(other) && before.at_or_above(other, id) ==> #[trigger] self.inorder(
                    other,
                ) == Self::with_insert(
                    before.inorder(other),
                    before.pos(id) + dir - before.lo(other),
                    before.tree_of(child),
                ),
    {
        assert forall|x: NodeId| self.contains(x) implies (if before.at_or_above(x, id) {
            #[trigger] self.inorder(x) == Self::with_insert(
                before.inorder(x),
                before.pos(id) + dir - before.lo(x),
                before.tree_of(child),
            )
        } else {
            self.inorder(x) == before.inorder(x)
        }) by {
            self.lemma_attached_inorder_at(before, id, dir, child, x);
        }
    }

    /// What an attach makes of the in-order sequence of one subtree.
    pub(crate) proof fn lemma_attached_inorder_at(
        &self,
        before: Self,
        id: NodeId,
        dir: int,
        child: NodeId,
        x: NodeId,
    )
        requires
            before.shape_wf(),
            before.can_attach(id, dir, child),
            self.len() == before.len(),
            self.arrangement() == before.attached_layout(id, dir, child),
            self.contains(x),
        ensures
            before.at_or_above(x, id) ==> self.inorder(x) == Self::with_insert(
                before.inorder(x),
                before.pos(id) + dir - before.lo(x),
                before.tree_of(child),
            ),
            !before.at_or_above(x, id) ==> self.inorder(x) == before.inorder(x),
    {
        let root = before.root_of(id);
        let at = before.pos(id) + dir;
        let len = before.hi(child);
        let tree = before.order(root);
        let block = before.order(child);
        assert(before.shape_ok(id));
        assert(before.shape_ok(child));
        assert(before.shape_ok(root));
        assert(before.shape_ok(x));
        assert(before.shape_ok(before.root_of(x)));
        assert(self.root_of(x) == before.attached_root(id, child, x));
        assert(self.lo(x) == before.opened_up(id, dir, child, x, before.lo(x)));
        assert(self.hi(x) == before.opened_up(id, dir, child, x, before.hi(x)));
        let new_root = self.root_of(x);
        assert(self.order(new_root) == before.attached_order(id, dir, child, new_root));
        let lo = before.lo(x);
        let hi = before.hi(x);
        if before.root_of(x) == child {
            let joined = Self::with_insert(tree, at, block);
            assert(self.order(new_root) == joined);
            assert(joined.subrange(lo + at, hi + at) =~= block.subrange(lo, hi));
        } else if before.root_of(x) == root {
            let joined = Self::with_insert(tree, at, block);
            assert(self.order(new_root) == joined);
            if before.at_or_above(x, id) {
                if x != id {
                    before.lemma_descend(id, x);
                }
                assert(lo <= at <= hi);
                assert(self.lo(x) == lo);
                assert(self.hi(x) == hi + len);
                assert(joined.subrange(lo, hi + len) =~= Self::with_insert(
                    tree.subrange(lo, hi),
                    at - lo,
                    block,
                ));
            } else if hi <= before.pos(id) {
                assert(joined.subrange(lo, hi) =~= tree.subrange(lo, hi));
            } else {
                assert(lo > before.pos(id));
                assert(joined.subrange(lo + len, hi + len) =~= tree.subrange(lo, hi));
            }
        } else {
            assert(self.inorder(x) =~= before.inorder(x));
        }
    }

    /// The attach of the links is the attach of the shape.
    pub(crate) proof fn lemma_attached_shape_is(
        &self,
        before: Self,
        id: NodeId,
        dir: int,
        child: NodeId,
    )
        requires
            before.shape_wf(),
            before.can_attach(id, dir, child),
            self.attached_links(before, id, dir, child),
        ensures
            self.shape() == attach_shape(before.shape(), id, dir, child),
    {
        let shape = before.shape();
        assert(before.shape_ok(id));
        assert(before.shape_ok(child));
        let target = attach_shape(shape, id, dir, child);
        assert forall|index: int| 0 <= index < self.len() implies self.shape()[index]
            == target[index] by {
            let x = NodeId(index as usize);
            assert(links_at(shape, x) == before.links(x));
            assert(self.parent_of(x) == before.attached_parent(id, dir, child, x));
            assert(self.child_of(x, 0) == before.attached_child(id, dir, child, x, 0));
            assert(self.child_of(x, 1) == before.attached_child(id, dir, child, x, 1));
        }
        assert(self.shape() =~= target);
    }

    /// Puts together what the steps of an attach have established.
    pub(crate) proof fn lemma_attached_result(
        &self,
        before: Self,
        tied: Self,
        low: Self,
        id: NodeId,
        dir: int,
        child: NodeId,
    )
        requires
            before.shape_wf(),
            before.can_attach(id, dir, child),
            tied.shape_wf(),
            tied.attached_links(before, id, dir, child),
            tied.arrangement() == before.attached_layout(id, dir, child),
            tied.same_contents(before),
            low.recomputed_from(tied, id),
            self.refreshed_from(low, id),
        ensures
            self.attached_from(before, id, dir, child),
    {
        assert(before.shape_ok(id));
        assert forall|x: NodeId| self.contains(x) implies self.same_links_at(tied, x) by {
            assert(self.same_links_at(low, x));
            assert(low.same_links_at(tied, x));
        }
        assert forall|x: NodeId| self.contains(x) implies #[trigger] self.parent_of(x)
            == before.attached_parent(id, dir, child, x) by {
            assert(self.same_links_at(tied, x));
        }
        assert forall|x: NodeId, side: int|
            self.contains(x) && 0 <= side < 2 implies #[trigger] self.child_of(x, side)
            == before.attached_child(id, dir, child, x, side) by {
            assert(self.same_links_at(tied, x));
            assert(tied.child_of(x, side) == before.attached_child(id, dir, child, x, side));
        }
        self.lemma_attached_inorder(before, id, dir, child);
        self.lemma_attached_shape_is(before, id, dir, child);
        assert forall|x: NodeId| self.contains(x) implies (#[trigger] self.above(x, id)
            <==> before.above(x, id)) by {
            self.lemma_attached_above(before, id, dir, child, x);
        }
        low.lemma_same_shape(tied);
        let touched = |other: NodeId| before.at_or_above(other, id);
        assert forall|x: NodeId| self.contains(x) implies #[trigger] self.value_ok(
            before,
            x,
            touched(x),
        ) by {
            low.lemma_attached_above(before, id, dir, child, x);
            assert(self.value_ok(low, x, low.above(x, id)));
            assert(tied.same_contents_at(before, x));
            assert(self.same_links_at(low, x));
            assert(low.same_links_at(tied, x));
            assert(low.shape_ok(x));
            if x == id {
                low.lemma_below_not_above(id, id);
                assert(self.node(id) == low.node(id));
                assert forall|side: int| 0 <= side < 2 implies self.value_at(
                    self.child_of(id, side),
                ) == low.value_at(low.child_of(id, side)) by {
                    if low.child_of(id, side) is Some {
                        let c = low.child_of(id, side).unwrap();
                        low.lemma_child_below(id, side);
                        low.lemma_below_not_above(c, id);
                        assert(self.node(c) == low.node(c));
                    }
                }
            } else if before.above(x, id) {
                assert(low.node(x) == tied.node(x));
            } else {
                assert(self.node(x) == low.node(x));
                assert(low.node(x) == tied.node(x));
            }
        }
        assert forall|x: NodeId, side: int|
            self.contains(x) && 0 <= side < 2 implies #[trigger] self.kept_at(
            before,
            touched,
            x,
            side,
        ) by {
            assert(self.child_of(x, side) == before.attached_child(id, dir, child, x, side));
            if !touched(x) {
                assert(before.shape_ok(x));
                if before.child_of(x, side) is Some {
                    let c = before.child_of(x, side).unwrap();
                    before.lemma_child_below(x, side);
                    if before.at_or_above(c, id) {
                        if c != id {
                            before.lemma_descend(id, c);
                        }
                        before.lemma_below_trans(id, c, x);
                        before.lemma_descend(c, x);
                    }
                }
            }
        }
    }

    /// Attaches `child`, the root of a tree that does not hold `id`, to the
    /// empty slot of `id` on side `dir`, and recomputes `id` and every
    /// ancestor of it bottom-up.
    pub(crate) fn attach(&mut self, id: NodeId, dir: usize, child: NodeId)
        requires
            old(self).wf(),
            old(self).can_attach(id, dir as int, child),
        ensures
            final(self).wf(),
            final(self).attached_from(*old(self), id, dir as int, child),
            old(self).augmented() ==> final(self).augmented(),
    {
        let ghost before = *self;
        let ghost d = dir as int;
        self.attach_links(id, dir, child);
        let ghost tied = *self;
        proof {
            assert(before.shape_ok(id));
            assert(before.shape_ok(child));
            assert forall|side: int| 0 <= side < 2 implies match #[trigger] tied.child_of(
                id,
                side,
            ) {
                Some(c) => tied.cache_ok(c),
                None => true,
            } by {
                assert(tied.child_of(id, side) == before.attached_child(id, d, child, id, side));
                if tied.child_of(id, side) is Some {
                    let c = tied.child_of(id, side).unwrap();
                    if c != child {
                        before.lemma_child_below(id, side);
                        before.lemma_below_not_above(c, id);
                    }
                    assert(before.cache_ok(c));
                    tied.lemma_attached_cache(before, id, d, child, c);
                }
            }
        }
        self.recompute(id);
        let ghost low = *self;
        proof {
            assert forall|other: NodeId|
                low.contains(other) && !low.above(other, id) implies #[trigger] low.cache_ok(
                other,
            ) by {
                if other != id {
                    low.lemma_attached_above(before, id, d, child, other);
                    assert(before.cache_ok(other));
                    tied.lemma_attached_cache(before, id, d, child, other);
                    assert(tied.shape_ok(other));
                    assert(low.same_links_at(tied, other));
                    if tied.child_of(other, 0) == Some(id) {
                        tied.lemma_child_below(other, 0);
                        tied.lemma_attached_above(before, id, d, child, other);
                    }
                    if tied.child_of(other, 1) == Some(id) {
                        tied.lemma_child_below(other, 1);
                        tied.lemma_attached_above(before, id, d, child, other);
                    }
                    low.lemma_cache_kept(tied, other, id);
                }
            }
        }
        self.refresh_up(id);
        proof {
            self.lemma_attached_result(before, tied, low, id, d, child);
            if before.augmented() {
                self.lemma_settle(before, |other: NodeId| before.at_or_above(other, id));
            }
        }
    }
}

} // verus!
