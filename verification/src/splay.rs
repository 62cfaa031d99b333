//! The splay steps and the splay itself: a node is rotated upwards, one or
//! two levels at a time, until it is the root of its tree.

use vstd::prelude::*;
use crate::forest::Forest;
use crate::helper::Helper;
use crate::node::NodeId;
use crate::shape::{rotate_shape, splay_shape, splay_step, splay_steps};

verus! {

impl<T, H: Helper<T>> Forest<T, H> {
    /// `self` is `before` after a splay of `id`: `id` is the root of its
    /// tree, the shape is what the splay steps make of it, and every tree has
    /// kept its in-order sequence.  If `id` had a parent, `id` and what was
    /// above it have been recomputed bottom-up; every other value is as it
    /// was.
    pub open spec fn splayed_from(&self, before: Self, id: NodeId) -> bool {
        &&& self.len() == before.len()
        &&& self.parent_of(id) is None
        &&& self.shape() == splay_shape(before.shape(), id)
        &&& self.inorder(id) == before.tree_of(id)
        &&& forall|other: NodeId|
            self.contains(other) ==> #[trigger] self.tree_of(other) == before.tree_of(other)
        &&& self.values_from(
            before,
            |other: NodeId| before.parent_of(id) is Some && before.at_or_above(other, id),
        )
        &&& self.kept_from(
            before,
            |other: NodeId| before.parent_of(id) is Some && before.at_or_above(other, id),
        )
        &&& before.parent_of(id) is None ==> forall|other: NodeId|
            self.contains(other) ==> #[trigger] self.node(other) == before.node(other)
    }

    /// `self` is `before` in the course of a splay of `id`, after at least
    /// one step or before the first, as `moved` says: what was above `id`
    /// and is no longer has been recomputed bottom-up, and so has `id`;
    /// what is still above `id` waits.
    pub open spec fn splaying_from(&self, before: Self, id: NodeId, moved: bool) -> bool {
        &&& self.values_from(
            before,
            |other: NodeId| moved && before.at_or_above(other, id) && !self.above(other, id),
        )
        &&& self.kept_but(
            before,
            |other: NodeId| moved && before.at_or_above(other, id) && !self.above(other, id),
            |other: NodeId| self.above(other, id),
        )
    }

    /// A step up in the course of a splay.
    pub(crate) proof fn lemma_splaying_on(
        &self,
        cur: Self,
        before: Self,
        top: NodeId,
        id: NodeId,
        moved: bool,
        now: bool,
    )
        requires
            before.shape_wf(),
            cur.shape_wf(),
            cur.contains(id),
            cur.len() == before.len(),
            cur.above(top, id),
            cur.splaying_from(before, id, moved),
            self.stepped_from(cur, top, id),
            forall|other: NodeId|
                cur.contains(other) && #[trigger] cur.above(other, id) ==> before.above(other, id),
            !moved ==> cur.arrangement() == before.arrangement(),
            now,
        ensures
            self.splaying_from(before, id, now),
            forall|other: NodeId|
                self.contains(other) && #[trigger] self.above(other, id) ==> before.above(
                    other,
                    id,
                ),
    {
        let one = |other: NodeId| moved && before.at_or_above(other, id) && !cur.above(other, id);
        let two = |other: NodeId| cur.on_way(other, id, top);
        let all = |other: NodeId| now && before.at_or_above(other, id) && !self.above(other, id);
        let open_one = |other: NodeId| cur.above(other, id);
        let open_two = |other: NodeId| self.above(other, id);
        assert forall|x: NodeId| self.contains(x) && #[trigger] self.above(
            x,
            id,
        ) implies before.above(x, id) by {
            assert(cur.above(x, top));
            cur.lemma_above_trans(x, top, id);
            assert(cur.above(x, id));
        }
        assert forall|x: NodeId| self.contains(x) implies #[trigger] all(x) == (one(x) || two(
            x,
        )) by {
            assert(self.above(x, id) <==> cur.above(x, top));
            if cur.above(x, top) {
                cur.lemma_above_trans(x, top, id);
            }
            if cur.above(x, id) {
                assert(before.above(x, id));
            }
        }
        assert forall|x: NodeId| self.contains(x) && #[trigger] one(x) implies !open_two(x) by {
            assert(self.above(x, id) <==> cur.above(x, top));
            if cur.above(x, top) {
                cur.lemma_above_trans(x, top, id);
            }
        }
        assert forall|x: NodeId| self.contains(x) && #[trigger] open_one(x) implies open_two(x)
            || two(x) by {
            assert(self.above(x, id) <==> cur.above(x, top));
        }
        self.lemma_values_compose_open(cur, before, one, two, all, open_one, open_two);
    }

    /// The splay step at the top of three nodes in a line, without the
    /// recompute of what is above them.
    pub(crate) fn step_line(&mut self, top: NodeId, dir: usize) -> (id: NodeId)
        requires
            old(self).shape_wf(),
            old(self).contains(top),
            dir < 2,
            old(self).child_of(top, 1 - dir) is Some,
            old(self).child_of(old(self).riser(top, dir as int), 1 - dir) is Some,
            old(self).cached_but_above(
                old(self).riser(old(self).riser(top, dir as int), dir as int),
            ),
        ensures
            id == old(self).riser(old(self).riser(top, dir as int), dir as int),
            final(self).shape_wf(),
            final(self).cached_but_above(id),
            final(self).shape() == rotate_shape(
                rotate_shape(old(self).shape(), top, dir as int),
                old(self).riser(top, dir as int),
                dir as int,
            ),
            final(self).stepped_from(*old(self), top, id),
    {
        let ghost cur = *self;
        let ghost d = dir as int;
        let ghost up = cur.riser(top, d);
        let ghost low = cur.riser(up, d);
        proof {
            cur.lemma_rotation_cast(top, d);
            cur.lemma_child_below(up, 1 - d);
            assert(cur.shape_ok(low));
            cur.lemma_below_not_above(top, top);
            cur.lemma_below_not_above(up, up);
            cur.lemma_below_not_above(low, low);
            assert forall|other: NodeId|
                cur.contains(other) && !(other == up || (cur.below(up, other) && other != up))
                    implies #[trigger] cur.cache_ok(other) by {
                cur.lemma_above_step(low, other);
            }
        }
        let mid_up = self.rotate_local(top, dir);
        let ghost mid = *self;
        proof {
            assert(mid.child_of(up, 1 - d) == cur.rotated_child(top, d, up, 1 - d));
            assert(mid.parent_of(low) == cur.rotated_parent(top, d, low));
            assert(mid.shape_ok(low));
            assert forall|other: NodeId|
                mid.contains(other) && !(other == low || (mid.below(low, other) && other != low))
                    implies #[trigger] mid.cache_ok(other) by {
                mid.lemma_above_step(low, other);
            }
        }
        let id = self.rotate_local(mid_up, dir);
        proof {
            assert forall|other: NodeId| mid.contains(other) implies #[trigger] cur.on_way(
                other,
                low,
                top,
            ) == (cur.on_way(other, up, top) || mid.on_way(other, low, up)) by {
                cur.lemma_above_step(low, other);
                cur.lemma_above_step(up, other);
                mid.lemma_above_step(low, other);
                assert(mid.above(other, up) <==> cur.above(other, top));
            }
            assert forall|other: NodeId|
                mid.contains(other) && #[trigger] cur.on_way(
                    other,
                    up,
                    top,
                ) implies !self.above(other, low) by {
                cur.lemma_above_step(up, other);
                assert(self.above(other, low) <==> mid.above(other, up));
                assert(mid.above(other, up) <==> cur.above(other, top));
            }
            assert forall|other: NodeId|
                mid.contains(other) && #[trigger] mid.above(other, up) implies self.above(
                other,
                low,
            ) || mid.on_way(other, low, up) by {
                assert(self.above(other, low) <==> mid.above(other, up));
            }
            self.lemma_stepped_twice(mid, cur, top, up, top, up, low);
        }
        id
    }

    /// The splay step at the top of three nodes in a bend, without the
    /// recompute of what is above them.
    pub(crate) fn step_bend(&mut self, top: NodeId, dir: usize) -> (id: NodeId)
        requires
            old(self).shape_wf(),
            old(self).contains(top),
            dir < 2,
            old(self).child_of(top, 1 - dir) is Some,
            old(self).child_of(old(self).riser(top, dir as int), dir as int) is Some,
            old(self).cached_but_above(
                old(self).riser(old(self).riser(top, dir as int), 1 - dir as int),
            ),
        ensures
            id == old(self).riser(old(self).riser(top, dir as int), 1 - dir as int),
            final(self).shape_wf(),
            final(self).cached_but_above(id),
            final(self).shape() == rotate_shape(
                rotate_shape(old(self).shape(), old(self).riser(top, dir as int), 1 - dir as int),
                top,
                dir as int,
            ),
            final(self).stepped_from(*old(self), top, id),
    {
        let ghost cur = *self;
        let ghost d = dir as int;
        let ghost up = cur.riser(top, d);
        let ghost low = cur.riser(up, 1 - d);
        proof {
            cur.lemma_rotation_cast(top, d);
            cur.lemma_child_below(up, d);
            cur.lemma_rotation_cast(up, 1 - d);
            assert(cur.shape_ok(low));
            assert(cur.shape_ok(top));
            cur.lemma_below_not_above(top, top);
            cur.lemma_below_not_above(up, up);
            cur.lemma_below_not_above(low, low);
            assert forall|other: NodeId|
                cur.contains(other) && !(other == low || (cur.below(low, other) && other != low))
                    implies #[trigger] cur.cache_ok(other) by {}
        }
        let below = self.node_ref(top).children[1 - dir].unwrap();
        self.rotate_local(below, 1 - dir);
        let ghost mid = *self;
        proof {
            assert(mid.child_of(top, 1 - d) == cur.rotated_child(up, 1 - d, top, 1 - d));
            assert(mid.parent_of(top) == cur.rotated_parent(up, 1 - d, top));
            assert(mid.parent_of(low) == cur.rotated_parent(up, 1 - d, low));
            assert(mid.shape_ok(low));
            assert(mid.shape_ok(top));
            mid.lemma_below_not_above(top, top);
            assert forall|other: NodeId|
                mid.contains(other) && !(other == low || (mid.below(low, other) && other != low))
                    implies #[trigger] mid.cache_ok(other) by {}
        }
        let id = self.rotate_local(top, dir);
        proof {
            assert(mid.inorder(top) == cur.inorder(top)) by {
                mid.lemma_rotated_inorder(cur, up, 1 - d);
            }
            assert forall|other: NodeId| mid.contains(other) implies (#[trigger] mid.above(
                other,
                top,
            ) <==> cur.above(other, top)) by {
                mid.lemma_above_step(low, other);
                cur.lemma_above_step(up, other);
                assert(mid.above(other, low) <==> cur.above(other, up));
            }
            assert forall|other: NodeId| mid.contains(other) implies #[trigger] cur.on_way(
                other,
                low,
                top,
            ) == (cur.on_way(other, low, up) || mid.on_way(other, low, top)) by {
                cur.lemma_above_step(low, other);
                cur.lemma_above_step(up, other);
                mid.lemma_above_step(low, other);
                assert(mid.above(other, top) <==> cur.above(other, top));
                assert(mid.above(other, low) <==> cur.above(other, up));
            }
            assert forall|other: NodeId|
                mid.contains(other) && #[trigger] cur.on_way(
                    other,
                    low,
                    up,
                ) implies !self.above(other, low) by {
                cur.lemma_above_step(low, other);
                cur.lemma_above_step(up, other);
                assert(self.above(other, low) <==> mid.above(other, top));
                assert(mid.above(other, top) <==> cur.above(other, top));
            }
            assert forall|other: NodeId|
                mid.contains(other) && #[trigger] mid.above(other, low) implies self.above(
                other,
                low,
            ) || mid.on_way(other, low, top) by {
                mid.lemma_above_step(low, other);
                assert(self.above(other, low) <==> mid.above(other, top));
            }
            self.lemma_stepped_twice(mid, cur, top, low, up, top, low);
        }
        id
    }

    /// Moves `id` to the root of its tree by splay steps.  Each step
    /// recomputes the nodes that it moves, `id` last; what is above waits
    /// until `id` has passed it.
    pub fn splay(&mut self, id: NodeId)
        requires
            old(self).wf(),
            old(self).contains(id),
        ensures
            final(self).wf(),
            final(self).splayed_from(*old(self), id),
            old(self).augmented() ==> final(self).augmented(),
    {
        let ghost before = *self;
        let ghost mut fuel: nat = before.shape().len();
        let ghost mut moved: bool = false;
        proof {
            assert(before.shape_ok(id));
            before.lemma_order_bound(before.root_of(id));
            before.lemma_values_same(before, |other: NodeId| false);
            before.lemma_kept_open(
                before,
                |other: NodeId| false,
                |other: NodeId| before.above(other, id),
            );
            before.lemma_open_renamed(
                before,
                |other: NodeId| false,
                |other: NodeId| before.above(other, id),
                |other: NodeId| moved && before.at_or_above(other, id) && !before.above(other, id),
                |other: NodeId| before.above(other, id),
            );
        }
        loop
            invariant
                before.wf(),
                before.contains(id),
                self.shape_wf(),
                self.cached_but_above(id),
                self.len() == before.len(),
                forall|other: NodeId|
                    self.contains(other) ==> #[trigger] self.tree_of(other) == before.tree_of(
                        other,
                    ),
                forall|other: NodeId|
                    self.contains(other) && #[trigger] self.above(other, id) ==> before.above(
                        other,
                        id,
                    ),
                splay_steps(self.shape(), id, fuel) == splay_shape(before.shape(), id),
                fuel >= self.tree_of(id).len() - (self.hi(id) - self.lo(id)),
                self.splaying_from(before, id, moved),
                moved ==> before.parent_of(id) is Some,
                !moved ==> self.arrangement() == before.arrangement() && forall|other: NodeId|
                    self.contains(other) ==> #[trigger] self.node(other) == before.node(other),
            ensures
                self.wf(),
                self.splayed_from(before, id),
                before.augmented() ==> self.augmented(),
            decreases self.tree_of(id).len() - (self.hi(id) - self.lo(id)),
        {
            let ghost cur = *self;
            proof {
                assert(cur.shape_ok(id));
                cur.lemma_shape(id);
                if !moved {
                    assert(cur.node(id) == before.node(id));
                }
            }
            let link = self.node_ref(id).parent;
            match link {
                None => {
                    proof {
                        self.lemma_splayed(before, id, moved);
                    }
                    break ;
                },
                Some(p) => {
                    let up = p.get();
                    proof {
                        cur.lemma_child_below(up, p.side());
                        assert(cur.shape_ok(up));
                        cur.lemma_shape(up);
                        cur.lemma_above_step(id, up);
                    }
                    let ghost top: NodeId;
                    match self.node_ref(up).parent {
                        None => {
                            proof {
                                top = up;
                                assert forall|other: NodeId|
                                    cur.contains(other) && !(other == id || (cur.below(
                                        id,
                                        other,
                                    ) && other != id)) implies #[trigger] cur.cache_ok(
                                    other,
                                ) by {}
                            }
                            self.rotate_local(up, 1 - p.dir());
                        },
                        Some(g) => {
                            proof {
                                top = g.holder();
                                cur.lemma_child_below(g.holder(), g.side());
                            }
                            if p.dir() == g.dir() {
                                self.step_line(g.get(), 1 - g.dir());
                            } else {
                                self.step_bend(g.get(), 1 - g.dir());
                            }
                        },
                    }
                    proof {
                        assert(self.stepped_from(cur, top, id));
                        assert(self.shape() == splay_step(cur.shape(), id));
                        cur.lemma_above_step(id, top);
                        cur.lemma_above_step(up, top);
                        assert(cur.above(top, id));
                        cur.lemma_descend(id, top);
                        assert(cur.shape_ok(top));
                        cur.lemma_inorder_unfolds(top);
                        self.lemma_inorder_unfolds(id);
                        assert(self.shape_ok(id));
                        assert(self.tree_of(id) == cur.tree_of(id));
                        assert forall|other: NodeId|
                            self.contains(other) implies #[trigger] self.tree_of(other)
                            == before.tree_of(other) by {
                            assert(cur.tree_of(other) == before.tree_of(other));
                        }
                        if !moved {
                            assert(cur.node(id) == before.node(id));
                        }
                        fuel = (fuel - 1) as nat;
                        self.lemma_splaying_on(cur, before, top, id, moved, true);
                        moved = true;
                    }
                },
            }
        }
    }

    /// At the end of a splay, when `id` has no parent, nothing waits any
    /// more.
    pub(crate) proof fn lemma_splayed(&self, before: Self, id: NodeId, moved: bool)
        requires
            before.wf(),
            before.contains(id),
            self.shape_wf(),
            self.cached_but_above(id),
            self.len() == before.len(),
            self.parent_of(id) is None,
            forall|other: NodeId|
                self.contains(other) ==> #[trigger] self.tree_of(other) == before.tree_of(other),
            self.shape() == splay_shape(before.shape(), id),
            self.splaying_from(before, id, moved),
            moved ==> before.parent_of(id) is Some,
            !moved ==> self.arrangement() == before.arrangement() && forall|other: NodeId|
                self.contains(other) ==> #[trigger] self.node(other) == before.node(other),
        ensures
            self.wf(),
            self.splayed_from(before, id),
            before.augmented() ==> self.augmented(),
    {
        assert(self.shape_ok(id));
        assert(self.inorder(id) =~= self.tree_of(id));
        assert(self.tree_of(id) == before.tree_of(id));
        assert forall|other: NodeId| self.contains(other) implies !self.above(other, id) by {
            if self.above(other, id) {
                self.lemma_descend(id, other);
            }
        }
        assert forall|other: NodeId| self.contains(other) implies #[trigger] self.cache_ok(
            other,
        ) by {
            assert(!self.above(other, id));
        }
        let touched = |other: NodeId| before.parent_of(id) is Some && before.at_or_above(other, id);
        let open = |other: NodeId| false;
        if !moved {
            assert(self.node(id) == before.node(id));
            assert forall|other: NodeId| self.contains(other) implies !before.above(other, id) by {
                assert(self.above(other, id) == before.above(other, id));
            }
        }
        self.lemma_open_renamed(
            before,
            |other: NodeId| moved && before.at_or_above(other, id) && !self.above(other, id),
            |other: NodeId| self.above(other, id),
            touched,
            open,
        );
        self.lemma_kept_closed(before, touched, open);
        if before.augmented() {
            self.lemma_settle(before, touched);
        }
    }

    /// A single rotation of `id`, as the splay step below the root.
    pub fn zig(&mut self, id: NodeId, dir: usize)
        requires
            old(self).wf(),
            old(self).contains(id),
            dir < 2,
            old(self).child_of(id, 1 - dir) is Some,
        ensures
            final(self).wf(),
            final(self).rotated_from(*old(self), id, dir as int),
            old(self).augmented() ==> final(self).augmented(),
    {
        self.rotate(id, dir);
    }

    /// The splay step for a node and its parent that hang on the same side:
    /// `id`, at the top of the three, is rotated in direction `dir`, then
    /// the node that came up is rotated the same way.  The grandchild of
    /// `id` on the far side ends up where `id` stood.  The three nodes and
    /// every ancestor are recomputed bottom-up.
    pub fn zig_zig(&mut self, id: NodeId, dir: usize)
        requires
            old(self).wf(),
            old(self).contains(id),
            dir < 2,
            old(self).child_of(id, 1 - dir) is Some,
            old(self).child_of(old(self).riser(id, dir as int), 1 - dir) is Some,
        ensures
            final(self).wf(),
            final(self).shape() == rotate_shape(
                rotate_shape(old(self).shape(), id, dir as int),
                old(self).riser(id, dir as int),
                dir as int,
            ),
            final(self).climbed_from(
                *old(self),
                id,
                old(self).riser(old(self).riser(id, dir as int), dir as int),
            ),
            old(self).augmented() ==> final(self).augmented(),
    {
        let ghost before = *self;
        let ghost d = dir as int;
        proof {
            before.lemma_rotation_cast(id, d);
            before.lemma_child_below(before.riser(id, d), 1 - d);
            assert forall|other: NodeId|
                before.contains(other) && !before.above(
                    other,
                    before.riser(before.riser(id, d), d),
                ) implies #[trigger] before.cache_ok(other) by {}
        }
        let low = self.step_line(id, dir);
        let ghost local = *self;
        self.refresh_up(low);
        proof {
            before.lemma_above_step(low, id);
            before.lemma_above_step(before.riser(id, d), id);
            self.lemma_step_refreshed(local, before, id, low);
            if before.augmented() {
                self.lemma_settle(before, |other: NodeId| before.at_or_above(other, low));
            }
        }
    }

    /// The splay step for a node and its parent that hang on opposite
    /// sides: the child of `id` on the side opposite to `dir` is rotated
    /// against `dir`, then `id` is rotated in direction `dir`.  The inner
    /// grandchild of `id` ends up where `id` stood.  The three nodes and
    /// every ancestor are recomputed bottom-up.
    pub fn zig_zag(&mut self, id: NodeId, dir: usize)
        requires
            old(self).wf(),
            old(self).contains(id),
            dir < 2,
            old(self).child_of(id, 1 - dir) is Some,
            old(self).child_of(old(self).riser(id, dir as int), dir as int) is Some,
        ensures
            final(self).wf(),
            final(self).shape() == rotate_shape(
                rotate_shape(
                    old(self).shape(),
                    old(self).riser(id, dir as int),
                    1 - dir as int,
                ),
                id,
                dir as int,
            ),
            final(self).climbed_from(
                *old(self),
                id,
                old(self).riser(old(self).riser(id, dir as int), 1 - dir as int),
            ),
            old(self).augmented() ==> final(self).augmented(),
    {
        let ghost before = *self;
        let ghost d = dir as int;
        proof {
            before.lemma_rotation_cast(id, d);
            before.lemma_child_below(before.riser(id, d), d);
            assert forall|other: NodeId|
                before.contains(other) && !before.above(
                    other,
                    before.riser(before.riser(id, d), 1 - d),
                ) implies #[trigger] before.cache_ok(other) by {}
        }
        let low = self.step_bend(id, dir);
        let ghost local = *self;
        self.refresh_up(low);
        proof {
            before.lemma_above_step(low, id);
            before.lemma_above_step(before.riser(id, d), id);
            self.lemma_step_refreshed(local, before, id, low);
            if before.augmented() {
                self.lemma_settle(before, |other: NodeId| before.at_or_above(other, low));
            }
        }
    }
}

} // verus!
