//! A node on its way up: what a step of one or two rotations leaves, while
//! what is above waits for its recompute and after it has been recomputed.

use vstd::prelude::*;
use crate::forest::Forest;
use crate::helper::Helper;
use crate::node::NodeId;

verus! {

impl<T, H: Helper<T>> Forest<T, H> {
    /// In `self` the node `id` stands where `top` stood in `before`, with
    /// all that was below `top` now below `id`.  Every tree has kept its
    /// in-order sequence.  `id` and what was above it have been recomputed
    /// bottom-up; every other value is as it was.
    pub open spec fn climbed_from(&self, before: Self, top: NodeId, id: NodeId) -> bool {
        &&& self.len() == before.len()
        &&& self.parent_of(id) == before.parent_of(top)
        &&& self.inorder(id) == before.inorder(top)
        &&& forall|other: NodeId|
            self.contains(other) ==> #[trigger] self.tree_of(other) == before.tree_of(other)
        &&& forall|other: NodeId|
            self.contains(other) ==> (#[trigger] self.above(other, id) <==> before.above(
                other,
                top,
            ))
        &&& self.values_from(before, |other: NodeId| before.at_or_above(other, id))
        &&& self.kept_from(before, |other: NodeId| before.at_or_above(other, id))
    }

    /// `self` is `before` after `id`, which stood below `top` or was `top`,
    /// has come up into the place of `top`, while what is above `top`
    /// waits for its recompute: the nodes from `id` up to `top` have been
    /// recomputed bottom-up, every other value is as it was, and every
    /// tree has kept its in-order sequence.
    pub open spec fn stepped_from(&self, before: Self, top: NodeId, id: NodeId) -> bool {
        &&& self.len() == before.len()
        &&& self.parent_of(id) == before.parent_of(top)
        &&& self.inorder(id) == before.inorder(top)
        &&& forall|other: NodeId|
            self.contains(other) ==> #[trigger] self.tree_of(other) == before.tree_of(other)
        &&& forall|other: NodeId|
            self.contains(other) ==> (#[trigger] self.above(other, id) <==> before.above(
                other,
                top,
            ))
        &&& self.values_from(before, |other: NodeId| before.on_way(other, id, top))
        &&& self.kept_but(
            before,
            |other: NodeId| before.on_way(other, id, top),
            |other: NodeId| self.above(other, id),
        )
    }

    /// Two steps up in a row are one step up.
    pub(crate) proof fn lemma_stepped_twice(
        &self,
        mid: Self,
        before: Self,
        top: NodeId,
        first: NodeId,
        first_top: NodeId,
        second_top: NodeId,
        id: NodeId,
    )
        requires
            mid.stepped_from(before, first_top, first),
            self.stepped_from(mid, second_top, id),
            mid.parent_of(second_top) == before.parent_of(top),
            mid.inorder(second_top) == before.inorder(top),
            forall|other: NodeId|
                mid.contains(other) ==> (#[trigger] mid.above(other, second_top) <==> before.above(
                    other,
                    top,
                )),
            forall|other: NodeId|
                mid.contains(other) ==> #[trigger] before.on_way(other, id, top) == (
                before.on_way(other, first, first_top) || mid.on_way(other, id, second_top)),
            forall|other: NodeId|
                mid.contains(other) && #[trigger] before.on_way(other, first, first_top)
                    ==> !self.above(other, id),
            forall|other: NodeId|
                mid.contains(other) && #[trigger] mid.above(other, first) ==> self.above(other, id)
                    || mid.on_way(other, id, second_top),
        ensures
            self.stepped_from(before, top, id),
    {
        assert forall|other: NodeId| self.contains(other) implies #[trigger] self.tree_of(other)
            == before.tree_of(other) by {
            assert(mid.tree_of(other) == before.tree_of(other));
        }
        assert forall|other: NodeId| self.contains(other) implies (#[trigger] self.above(
            other,
            id,
        ) <==> before.above(other, top)) by {
            assert(mid.above(other, second_top) <==> before.above(other, top));
        }
        let one = |other: NodeId| before.on_way(other, first, first_top);
        let two = |other: NodeId| mid.on_way(other, id, second_top);
        let all = |other: NodeId| before.on_way(other, id, top);
        let open_one = |other: NodeId| mid.above(other, first);
        let open_two = |other: NodeId| self.above(other, id);
        assert forall|x: NodeId| self.contains(x) implies #[trigger] all(x) == (one(x) || two(
            x,
        )) by {
            assert(before.on_way(x, id, top) == (before.on_way(x, first, first_top) || mid.on_way(
                x,
                id,
                second_top,
            )));
        }
        assert forall|x: NodeId| self.contains(x) && #[trigger] one(x) implies !open_two(x) by {
            assert(before.on_way(x, first, first_top));
        }
        assert forall|x: NodeId| self.contains(x) && #[trigger] open_one(x) implies open_two(x)
            || two(x) by {
            assert(mid.above(x, first));
        }
        self.lemma_values_compose_open(mid, before, one, two, all, open_one, open_two);
    }

    /// A step up, and then the recompute of what is above, is a climb.
    pub(crate) proof fn lemma_step_refreshed(
        &self,
        local: Self,
        before: Self,
        top: NodeId,
        id: NodeId,
    )
        requires
            before.shape_wf(),
            before.contains(id),
            before.at_or_above(top, id),
            local.shape_wf(),
            local.contains(id),
            local.stepped_from(before, top, id),
            self.refreshed_from(local, id),
        ensures
            self.climbed_from(before, top, id),
            self.shape() == local.shape(),
    {
        assert(self.same_links_at(local, id));
        assert forall|index: int| 0 <= index < self.len() implies self.shape()[index]
            == local.shape()[index] by {
            assert(self.same_links_at(local, NodeId(index as usize)));
        }
        assert(self.shape() =~= local.shape());
        assert forall|other: NodeId| self.contains(other) implies #[trigger] self.tree_of(other)
            == before.tree_of(other) by {
            assert(local.tree_of(other) == before.tree_of(other));
        }
        assert forall|other: NodeId| self.contains(other) implies (#[trigger] self.above(
            other,
            id,
        ) <==> before.above(other, top)) by {
            assert(local.above(other, id) <==> before.above(other, top));
        }
        let one = |other: NodeId| before.on_way(other, id, top);
        let two = |other: NodeId| local.above(other, id);
        let all = |other: NodeId| before.at_or_above(other, id);
        let open_one = |other: NodeId| local.above(other, id);
        let open_two = |other: NodeId| false;
        assert forall|x: NodeId, side: int|
            self.contains(x) && 0 <= side < 2 && !open_two(x) implies #[trigger] self.kept_at(
            local,
            two,
            x,
            side,
        ) by {
            assert(self.same_links_at(local, x));
            if !two(x) && local.child_of(x, side) is Some {
                let c = local.child_of(x, side).unwrap();
                local.lemma_child_below(x, side);
                if local.above(c, id) {
                    local.lemma_below_trans(id, c, x);
                    local.lemma_descend(id, c);
                }
            }
        }
        assert forall|x: NodeId| self.contains(x) implies #[trigger] all(x) == (one(x) || two(
            x,
        )) by {
            assert(local.above(x, id) <==> before.above(x, top));
            if before.above(x, top) {
                before.lemma_above_trans(x, top, id);
            }
        }
        assert forall|x: NodeId| self.contains(x) && #[trigger] one(x) implies !open_two(x) by {}
        assert forall|x: NodeId| self.contains(x) && #[trigger] open_one(x) implies open_two(x)
            || two(x) by {}
        self.lemma_values_compose_open(local, before, one, two, all, open_one, open_two);
        self.lemma_kept_closed(before, all, open_two);
    }
}

} // verus!
