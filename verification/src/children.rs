//! Taking a child out of its slot and putting another one in.

use vstd::prelude::*;
use crate::forest::Forest;
use crate::helper::Helper;
use crate::node::NodeId;
use crate::parent::Parent;
use crate::shape::{attach_shape, detach_shape, links_at, Shape};

verus! {

/// The shape after an optional node has been detached from its parent.
pub open spec fn detach_any(shape: Shape, id: Option<NodeId>) -> Shape {
    match id {
        Some(id) => detach_shape(shape, id),
        None => shape,
    }
}

/// The shape after the slot of `id` on side `dir` has been given `child`:
/// the child that was there is detached; then `child`, if there is one, is
/// detached from where it was and attached to `id`.
pub open spec fn set_child_shape(shape: Shape, id: NodeId, dir: int, child: Option<NodeId>) -> Shape {
    let emptied = detach_any(shape, links_at(shape, id).child(dir));
    match child {
        Some(c) => attach_shape(detach_shape(emptied, c), id, dir, c),
        None => emptied,
    }
}

impl<T, H: Helper<T>> Forest<T, H> {
    /// Whether `top` is `id` or one of its ancestors.
    pub fn is_at_or_above(&self, top: NodeId, id: NodeId) -> (found: bool)
        requires
            self.wf(),
            self.contains(top),
            self.contains(id),
        ensures
            found == self.at_or_above(top, id),
    {
        let mut cur = id;
        loop
            invariant
                self.wf(),
                self.contains(top),
                self.contains(cur),
                self.at_or_above(top, id) <==> self.at_or_above(top, cur),
            decreases self.tree_of(cur).len() - (self.hi(cur) - self.lo(cur)),
        {
            proof {
                self.lemma_above_step(cur, top);
                assert(self.shape_ok(cur));
            }
            if cur == top {
                return true;
            }
            match self.parent(cur) {
                None => {
                    return false;
                },
                Some(link) => {
                    proof {
                        self.lemma_child_below(link.holder(), link.side());
                        assert(self.shape_ok(link.holder()));
                    }
                    cur = link.get();
                },
            }
        }
    }

    /// Detaches the child of `id` on side `dir`, if there is one, and
    /// returns it.  `id` and every ancestor of it are recomputed bottom-up.
    pub fn take_child(&mut self, id: NodeId, dir: usize) -> (child: Option<NodeId>)
        requires
            old(self).wf(),
            old(self).contains(id),
            dir < 2,
        ensures
            child == old(self).child_of(id, dir as int),
            final(self).wf(),
            match child {
                Some(c) => final(self).detached_from(*old(self), c),
                None => final(self).unchanged_from(*old(self)),
            },
            old(self).augmented() ==> final(self).augmented(),
    {
        let ghost before = *self;
        let child = self.child(id, dir);
        match child {
            Some(c) => {
                proof {
                    before.lemma_child_below(id, dir as int);
                }
                self.take_parent(c);
            },
            None => {
                proof {
                    assert forall|other: NodeId| self.contains(other) implies #[trigger] self.node(
                        other,
                    ) == before.node(other) by {}
                }
            },
        }
        child
    }

    /// What `set_child` recomputes: `id` and what is above it, unless the
    /// slot was empty and stays empty, and what was above the new child.
    pub open spec fn set_child_touches(
        &self,
        id: NodeId,
        dir: int,
        child: Option<NodeId>,
        other: NodeId,
    ) -> bool {
        match child {
            Some(c) => self.at_or_above(other, id) || self.above(other, c),
            None => self.child_of(id, dir) is Some && self.at_or_above(other, id),
        }
    }

    /// `self` is `before` after the slot of `id` on side `dir` has been
    /// given `child`.
    pub open spec fn set_child_from(
        &self,
        before: Self,
        id: NodeId,
        dir: int,
        child: Option<NodeId>,
    ) -> bool {
        let touched = |other: NodeId| before.set_child_touches(id, dir, child, other);
        &&& self.len() == before.len()
        &&& self.shape() == set_child_shape(before.shape(), id, dir, child)
        &&& self.child_of(id, dir) == child
        &&& match child {
            Some(c) => self.parent_of(c) == Some(Parent::link(id, dir)) && self.inorder(c)
                == before.inorder(c),
            None => true,
        }
        &&& match before.child_of(id, dir) {
            Some(c) => child != Some(c) ==> self.parent_of(c) is None,
            None => true,
        }
        &&& self.values_from(before, touched)
        &&& self.kept_from(before, touched)
    }

    /// To detach what has no parent changes nothing.
    pub(crate) proof fn lemma_detach_root_shape(&self, id: NodeId)
        requires
            self.contains(id),
            self.parent_of(id) is None,
        ensures
            detach_shape(self.shape(), id) == self.shape(),
    {
        assert(links_at(self.shape(), id) == self.links(id));
        assert(detach_shape(self.shape(), id) =~= self.shape());
    }

    /// What is unchanged has kept its shape, and what lies above what.
    pub(crate) proof fn lemma_unchanged(&self, before: Self)
        requires
            before.shape_wf(),
            self.unchanged_from(before),
        ensures
            self.shape() == before.shape(),
            self.values_from(before, |other: NodeId| false),
            self.kept_from(before, |other: NodeId| false),
            forall|x: NodeId, y: NodeId| #[trigger] self.below(x, y) == before.below(x, y),
            forall|x: NodeId| self.contains(x) ==> #[trigger] self.inorder(x) == before.inorder(x),
    {
        assert forall|index: int| 0 <= index < self.len() implies self.shape()[index]
            == before.shape()[index] by {
            let x = NodeId(index as usize);
            assert(self.node(x) == before.node(x));
        }
        assert(self.shape() =~= before.shape());
        self.lemma_values_same(before, |other: NodeId| false);
    }

    /// A detach leaves above a node outside the detached subtree what was
    /// above it.
    pub(crate) proof fn lemma_detach_keeps_above(
        &self,
        before: Self,
        id: NodeId,
        x: NodeId,
        y: NodeId,
    )
        requires
            before.shape_wf(),
            before.contains(id),
            before.parent_of(id) is Some,
            self.len() == before.len(),
            self.arrangement() == before.detached_layout(id),
            before.above(x, y),
            before.below(y, id) ==> before.below(x, id),
        ensures
            self.above(x, y),
    {
        if before.below(x, id) {
            before.lemma_below_trans(y, x, id);
        }
        self.lemma_detached_below(before, id, y, x);
    }

    /// Gives the slot of `id` on side `dir` the child `child`.  The child
    /// that was there is detached; then `child`, if there is one, is
    /// detached from where it was and attached to `id`.  After each of
    /// these steps the cached aggregates are recomputed bottom-up from
    /// where the shape has changed.
    ///
    /// `child` must be neither `id` nor one of its ancestors: no node is its
    /// own ancestor.
    pub fn set_child(&mut self, id: NodeId, dir: usize, child: Option<NodeId>)
        requires
            old(self).wf(),
            old(self).contains(id),
            dir < 2,
            match child {
                Some(c) => old(self).contains(c) && !old(self).at_or_above(c, id),
                None => true,
            },
        ensures
            final(self).wf(),
            final(self).set_child_from(*old(self), id, dir as int, child),
            old(self).augmented() ==> final(self).augmented(),
    {
        let ghost before = *self;
        let ghost d = dir as int;
        let removed = self.take_child(id, dir);
        let ghost emptied = *self;
        let ghost first = |other: NodeId| removed is Some && before.above(other, removed.unwrap());
        proof {
            before.lemma_shape(id);
            assert(before.shape_ok(id));
            match removed {
                Some(r) => {
                    before.lemma_child_below(id, d);
                    assert(emptied.child_of(id, d) == before.detached_child(r, id, d));
                    emptied.lemma_values_renamed(
                        before,
                        |other: NodeId| before.above(other, r),
                        first,
                    );
                },
                None => {
                    emptied.lemma_unchanged(before);
                    emptied.lemma_values_renamed(before, |other: NodeId| false, first);
                    assert(emptied.node(id) == before.node(id));
                },
            }
            assert(emptied.shape() == detach_any(before.shape(), before.child_of(id, d)));
            assert(emptied.child_of(id, d) is None);
        }
        match child {
            None => {
                proof {
                    let touched = |other: NodeId| before.set_child_touches(id, d, child, other);
                    assert forall|x: NodeId| self.contains(x) implies #[trigger] first(x)
                        == touched(x) by {
                        if removed is Some {
                            before.lemma_above_step(removed.unwrap(), x);
                        }
                    }
                    self.lemma_values_renamed(before, first, touched);
                    if removed is Some {
                        assert(self.parent_of(removed.unwrap()) == before.detached_parent(
                            removed.unwrap(),
                            removed.unwrap(),
                        ));
                    }
                }
            },
            Some(c) => {
                proof {
                    assert(emptied.shape_ok(c));
                }
                let held = self.take_parent(c);
                let ghost freed = *self;
                let ghost second = |other: NodeId| held is Some && emptied.above(other, c);
                proof {
                    emptied.lemma_shape(c);
                    assert(emptied.shape_ok(id));
                    if held is Some {
                        assert(freed.child_of(id, d) == emptied.detached_child(c, id, d));
                        assert(freed.parent_of(c) == emptied.detached_parent(c, c));
                        freed.lemma_values_renamed(
                            emptied,
                            |other: NodeId| emptied.above(other, c),
                            second,
                        );
                    } else {
                        freed.lemma_unchanged(emptied);
                        emptied.lemma_detach_root_shape(c);
                        freed.lemma_values_renamed(emptied, |other: NodeId| false, second);
                        assert(freed.node(id) == emptied.node(id));
                        assert(freed.node(c) == emptied.node(c));
                    }
                    assert(freed.shape() == detach_shape(emptied.shape(), c));
                    assert(freed.shape_ok(c));
                    assert(freed.shape_ok(id));
                    // The new child stayed below nothing that holds `id`.
                    if freed.below(id, c) {
                        assert(emptied.below(id, c));
                        assert(before.below(id, c));
                    }
                    assert(freed.can_attach(id, d, c));
                    assert(freed.inorder(c) == before.inorder(c)) by {
                        before.lemma_below_not_above(c, c);
                        emptied.lemma_below_not_above(c, c);
                        if removed is Some {
                            before.lemma_above_step(removed.unwrap(), c);
                        }
                    }
                }
                self.attach(id, dir, c);
                proof {
                    assert(self.child_of(id, d) == freed.attached_child(id, d, c, id, d));
                    assert(self.parent_of(c) == freed.attached_parent(id, d, c, c));
                    freed.lemma_below_not_above(c, c);
                    assert(self.inorder(c) == freed.inorder(c));
                    if removed is Some && removed != child {
                        let r = removed.unwrap();
                        assert(emptied.parent_of(r) == before.detached_parent(r, r));
                        if held is Some {
                            assert(freed.parent_of(r) == emptied.detached_parent(c, r));
                        } else {
                            assert(freed.node(r) == emptied.node(r));
                        }
                        assert(self.parent_of(r) == freed.attached_parent(id, d, c, r));
                    }
                    let third = |other: NodeId| freed.at_or_above(other, id);
                    let both = |other: NodeId| first(other) || second(other);
                    let all = |other: NodeId| both(other) || third(other);
                    let touched = |other: NodeId| before.set_child_touches(id, d, child, other);
                    assert forall|x: NodeId| #[trigger] both(x) == (first(x) || second(x)) by {}
                    assert forall|x: NodeId| #[trigger] all(x) == (both(x) || third(x)) by {}
                    freed.lemma_values_compose(emptied, before, first, second, both);
                    self.lemma_values_compose(freed, before, both, third, all);
                    assert forall|x: NodeId| self.contains(x) implies #[trigger] all(x) == touched(
                        x,
                    ) by {
                        self.lemma_set_child_touched(before, emptied, freed, id, d, c, removed, held, x);
                    }
                    self.lemma_values_renamed(before, all, touched);
                }
            },
        }
    }

    /// The nodes that the steps of `set_child` recompute are `id`, what was
    /// above it, and what was above the new child.
    pub(crate) proof fn lemma_set_child_touched(
        &self,
        before: Self,
        emptied: Self,
        freed: Self,
        id: NodeId,
        dir: int,
        c: NodeId,
        removed: Option<NodeId>,
        held: Option<Parent>,
        x: NodeId,
    )
        requires
            before.wf(),
            before.contains(id),
            before.contains(c),
            before.contains(x),
            0 <= dir < 2,
            !before.at_or_above(c, id),
            removed == before.child_of(id, dir),
            emptied.wf(),
            match removed {
                Some(r) => emptied.detached_from(before, r),
                None => emptied.unchanged_from(before),
            },
            held == emptied.parent_of(c),
            freed.wf(),
            match held {
                Some(_) => freed.detached_from(emptied, c),
                None => freed.unchanged_from(emptied),
            },
        ensures
            ((removed is Some && before.above(x, removed.unwrap())) || (held is Some
                && emptied.above(x, c)) || freed.at_or_above(x, id)) == (before.at_or_above(x, id)
                || before.above(x, c)),
    {
        assert(before.shape_ok(id));
        if removed is None {
            emptied.lemma_unchanged(before);
        } else {
            before.lemma_child_below(id, dir);
            before.lemma_above_step(removed.unwrap(), x);
            before.lemma_below_not_above(removed.unwrap(), id);
        }
        if held is None {
            freed.lemma_unchanged(emptied);
        }
        // Nothing new lies above anything.
        if emptied.below(id, c) {
            assert(before.below(id, c));
        }
        if freed.above(x, id) {
            assert(emptied.below(id, x));
            assert(before.below(id, x));
        }
        if emptied.above(x, c) {
            assert(before.below(c, x));
        }
        // What was above `id` is still above it.
        if before.above(x, id) {
            if removed is Some {
                emptied.lemma_detach_keeps_above(before, removed.unwrap(), x, id);
            }
            assert(emptied.above(x, id));
            if held is Some {
                freed.lemma_detach_keeps_above(emptied, c, x, id);
            }
            assert(freed.above(x, id));
        }
        // What was above the new child is still above it, or was above `id`.
        if before.above(x, c) && !before.at_or_above(x, id) {
            before.lemma_descend(c, x);
            if removed is Some {
                let r = removed.unwrap();
                if before.below(c, r) && !before.below(x, r) {
                    before.lemma_ascend(c, x, r);
                    assert(before.below(r, x));
                    assert(before.above(x, r));
                }
                emptied.lemma_detach_keeps_above(before, r, x, c);
            }
            assert(emptied.above(x, c));
            emptied.lemma_descend(c, x);
        }
    }

    /// Gives `id` the parent that `link` names, on the side that it names;
    /// without a link, detaches `id` from its parent.  What stood in that
    /// slot of the new parent is detached first.
    ///
    /// `id` must be neither the new parent nor one of its ancestors.
    pub fn set_parent(&mut self, id: NodeId, link: Option<Parent>)
        requires
            old(self).wf(),
            old(self).contains(id),
            match link {
                Some(p) => old(self).contains(p.holder()) && !old(self).at_or_above(id, p.holder()),
                None => true,
            },
        ensures
            final(self).wf(),
            match link {
                Some(p) => final(self).set_child_from(*old(self), p.holder(), p.side(), Some(id)),
                None => match old(self).parent_of(id) {
                    Some(_) => final(self).detached_from(*old(self), id),
                    None => final(self).unchanged_from(*old(self)),
                },
            },
            final(self).parent_of(id) == link,
            old(self).augmented() ==> final(self).augmented(),
    {
        let ghost before = *self;
        match link {
            Some(p) => {
                self.set_child(p.get(), p.dir(), Some(id));
            },
            None => {
                let held = self.take_parent(id);
                proof {
                    if held is Some {
                        assert(self.parent_of(id) == before.detached_parent(id, id));
                    } else {
                        assert(self.node(id) == before.node(id));
                    }
                }
            },
        }
    }
}

} // verus!
