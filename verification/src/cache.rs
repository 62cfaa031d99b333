//! Recomputing the cached aggregates of a node from its children, and of a
//! chain of ancestors bottom-up.

use vstd::prelude::*;
use crate::forest::{max_int, Forest};
use crate::helper::Helper;
use crate::node::{Node, NodeId};

verus! {

impl<T, H: Helper<T>> Forest<T, H> {
    /// The value of `id`: recomputed from the value it had in `before` and
    /// the present values of its children where `touched`, else untouched.
    pub open spec fn value_ok(&self, before: Self, id: NodeId, touched: bool) -> bool {
        self.value_of(id) == if touched {
            H::eval_spec(
                before.value_of(id),
                self.value_at(self.child_of(id, 0)),
                self.value_at(self.child_of(id, 1)),
            )
        } else {
            before.value_of(id)
        }
    }

    /// `self` is `before` but for the cached size and depth and the value of
    /// `id`, which are recomputed from its children.
    pub open spec fn recomputed_from(&self, before: Self, id: NodeId) -> bool {
        &&& self.same_shape(before)
        &&& forall|other: NodeId|
            self.contains(other) && other != id ==> #[trigger] self.node(other) == before.node(
                other,
            )
        &&& self.size_of(id) == 1 + before.size_at(before.child_of(id, 0)) + before.size_at(
            before.child_of(id, 1),
        )
        &&& self.depth_of(id) == 1 + max_int(
            before.depth_at(before.child_of(id, 0)),
            before.depth_at(before.child_of(id, 1)),
        )
        &&& self.value_ok(before, id, true)
    }

    /// `self` is `before` with the proper ancestors of `id` recomputed
    /// bottom-up; every other node is as it was.
    pub open spec fn refreshed_from(&self, before: Self, id: NodeId) -> bool {
        &&& self.same_shape(before)
        &&& forall|other: NodeId|
            self.contains(other) ==> #[trigger] self.value_ok(
                before,
                other,
                before.above(other, id),
            )
        &&& forall|other: NodeId|
            self.contains(other) && !before.above(other, id) ==> #[trigger] self.node(other)
                == before.node(other)
    }

    /// A node keeps its cache up to date while another node, which is not
    /// one of its children, is recomputed.
    pub(crate) proof fn lemma_cache_kept(&self, before: Self, id: NodeId, changed: NodeId)
        requires
            before.shape_wf(),
            before.contains(id),
            before.cache_ok(id),
            self.same_shape(before),
            id != changed,
            before.child_of(id, 0) != Some(changed),
            before.child_of(id, 1) != Some(changed),
            forall|other: NodeId|
                self.contains(other) && other != changed ==> #[trigger] self.node(other)
                    == before.node(other),
        ensures
            self.cache_ok(id),
    {
        assert(before.shape_ok(id));
        assert(self.same_links_at(before, id));
        assert(self.node(id) == before.node(id));
        if before.child_of(id, 0) is Some {
            before.lemma_child_below(id, 0);
            assert(self.node(before.child_of(id, 0).unwrap()) == before.node(
                before.child_of(id, 0).unwrap(),
            ));
        }
        if before.child_of(id, 1) is Some {
            before.lemma_child_below(id, 1);
            assert(self.node(before.child_of(id, 1).unwrap()) == before.node(
                before.child_of(id, 1).unwrap(),
            ));
        }
    }

    /// Recomputes size and depth of `id` from its children, then lets the
    /// hook recompute the caller's aggregate.
    pub(crate) fn recompute(&mut self, id: NodeId)
        requires
            old(self).shape_wf(),
            old(self).contains(id),
            forall|dir: int|
                0 <= dir < 2 ==> match #[trigger] old(self).child_of(id, dir) {
                    Some(c) => old(self).cache_ok(c),
                    None => true,
                },
        ensures
            final(self).recomputed_from(*old(self), id),
            final(self).shape_wf(),
            final(self).cache_ok(id),
    {
        proof {
            assert(self.shape_ok(id));
            self.lemma_order_bound(self.root_of(id));
            if self.child_of(id, 0) is Some {
                self.lemma_child_below(id, 0);
                assert(self.shape_ok(self.child_of(id, 0).unwrap()));
            }
            if self.child_of(id, 1) is Some {
                self.lemma_child_below(id, 1);
                assert(self.shape_ok(self.child_of(id, 1).unwrap()));
            }
        }
        let mut node = self.slots[id.0].take().unwrap();
        let left: Option<&Node<T>> = match node.children[0] {
            Some(c) => Some(self.node_ref(c)),
            None => None,
        };
        let right: Option<&Node<T>> = match node.children[1] {
            Some(c) => Some(self.node_ref(c)),
            None => None,
        };
        let left_size: usize = match left {
            Some(child) => child.size,
            None => 0,
        };
        let right_size: usize = match right {
            Some(child) => child.size,
            None => 0,
        };
        let left_depth: usize = match left {
            Some(child) => child.depth,
            None => 0,
        };
        let right_depth: usize = match right {
            Some(child) => child.depth,
            None => 0,
        };
        let left_value: Option<&T> = match left {
            Some(child) => Some(&child.value),
            None => None,
        };
        let right_value: Option<&T> = match right {
            Some(child) => Some(&child.value),
            None => None,
        };
        H::eval(&mut node.value, left_value, right_value);
        node.size = 1 + left_size + right_size;
        node.depth = 1 + if left_depth >= right_depth {
            left_depth
        } else {
            right_depth
        };
        self.slots[id.0] = Some(node);
        proof {
            let before = *old(self);
            assert forall|other: NodeId| self.contains(other) implies #[trigger] self.same_links_at(
                before,
                other,
            ) by {
                assert(before.shape_ok(other));
            }
            self.lemma_same_shape(before);
        }
    }

    /// Recomputes every proper ancestor of `id`, nearest first.
    pub(crate) fn refresh_up(&mut self, id: NodeId)
        requires
            old(self).shape_wf(),
            old(self).contains(id),
            old(self).cached_but_above(id),
        ensures
            final(self).wf(),
            final(self).refreshed_from(*old(self), id),
    {
        let ghost before = *self;
        let mut cur = id;
        proof {
            assert forall|other: NodeId| self.contains(other) implies #[trigger] self.same_links_at(
                before,
                other,
            ) by {
                assert(before.shape_ok(other));
            }
        }
        loop
            invariant
                before.shape_wf(),
                before.contains(id),
                self.shape_wf(),
                self.same_shape(before),
                self.contains(cur),
                self.cached_but_above(cur),
                cur == id || before.above(cur, id),
                forall|other: NodeId|
                    self.contains(other) ==> #[trigger] self.value_ok(
                        before,
                        other,
                        before.between(other, id, cur),
                    ),
                forall|other: NodeId|
                    self.contains(other) && !(before.between(other, id, cur)) ==> #[trigger] self.node(other) == before.node(other),
            ensures
                self.wf(),
                self.refreshed_from(before, id),
            decreases self.order(self.root_of(cur)).len() - (self.hi(cur) - self.lo(cur)),
        {
            proof {
                assert(self.shape_ok(cur));
                assert(self.same_links_at(before, cur));
            }
            let link = self.node_ref(cur).parent;
            match link {
                None => {
                    proof {
                        assert forall|other: NodeId| self.contains(other) implies #[trigger] self.cache_ok(
                            other,
                        ) by {
                            if self.above(other, cur) {
                                self.lemma_descend(cur, other);
                            }
                        }
                        assert forall|other: NodeId| self.contains(other) implies #[trigger] self.value_ok(
                            before,
                            other,
                            before.above(other, id),
                        ) by {
                            assert(self.value_ok(
                                before,
                                other,
                                before.between(other, id, cur),
                            ));
                            if before.above(other, cur) {
                                before.lemma_descend(cur, other);
                            }
                        }
                        assert forall|other: NodeId|
                            self.contains(other) && !before.above(other, id) implies #[trigger] self.node(
                            other,
                        ) == before.node(other) by {}
                    }
                    break ;
                },
                Some(p) => {
                    let up = p.get();
                    let ghost mid = *self;
                    proof {
                        self.lemma_child_below(up, p.side());
                        assert(self.shape_ok(up));
                        assert forall|dir: int| 0 <= dir < 2 implies match #[trigger] self.child_of(
                            up,
                            dir,
                        ) {
                            Some(c) => self.cache_ok(c),
                            None => true,
                        } by {
                            if self.child_of(up, dir) is Some {
                                let c = self.child_of(up, dir).unwrap();
                                self.lemma_child_below(up, dir);
                                if self.above(c, cur) {
                                    self.lemma_descend(cur, c);
                                }
                            }
                        }
                    }
                    self.recompute(up);
                    proof {
                        assert(self.same_links_at(mid, cur));
                        assert(self.same_links_at(mid, up));
                        assert forall|other: NodeId| self.contains(other) implies #[trigger] self.same_links_at(
                            before,
                            other,
                        ) by {
                            assert(self.same_links_at(mid, other));
                            assert(mid.same_links_at(before, other));
                        }
                        // The chain from `id` to `up` in the forest as it was.
                        if cur != id {
                            before.lemma_descend(id, cur);
                        }
                        assert(before.above(up, id)) by {
                            assert(mid.same_links_at(before, cur));
                            before.lemma_child_below(up, p.side());
                        }
                        assert forall|other: NodeId|
                            self.contains(other) && !self.above(other, up) implies #[trigger] self.cache_ok(
                            other,
                        ) by {
                            if other != up {
                                if mid.above(other, cur) {
                                    mid.lemma_descend(cur, other);
                                }
                                assert(mid.cache_ok(other));
                                assert(mid.shape_ok(other));
                                assert(self.same_links_at(mid, other));
                                assert(self.node(other) == mid.node(other));
                                if mid.child_of(other, 0) == Some(up) {
                                    mid.lemma_child_below(other, 0);
                                }
                                if mid.child_of(other, 1) == Some(up) {
                                    mid.lemma_child_below(other, 1);
                                }
                            }
                        }
                        assert forall|other: NodeId| self.contains(other) implies #[trigger] self.value_ok(
                            before,
                            other,
                            before.between(other, id, up),
                        ) by {
                            assert(mid.value_ok(before, other, before.between(other, id, cur)));
                            assert(mid.same_links_at(before, other));
                            assert(self.same_links_at(mid, other));
                            before.lemma_above_step(cur, other);
                            if other == up {
                                assert(mid.node(up) == before.node(up));
                            } else {
                                assert(self.node(other) == mid.node(other));
                                assert(mid.shape_ok(other));
                                if mid.child_of(other, 0) is Some {
                                    let c = mid.child_of(other, 0).unwrap();
                                    before.lemma_child_below(other, 0);
                                    if c != up {
                                        assert(self.node(c) == mid.node(c));
                                    }
                                }
                                if mid.child_of(other, 1) is Some {
                                    let c = mid.child_of(other, 1).unwrap();
                                    before.lemma_child_below(other, 1);
                                    if c != up {
                                        assert(self.node(c) == mid.node(c));
                                    }
                                }
                            }
                        }
                        assert forall|other: NodeId|
                            self.contains(other) && !(before.between(other, id, up)) implies #[trigger] self.node(other) == before.node(other) by {
                            before.lemma_above_step(cur, other);
                            if other != up {
                                assert(self.node(other) == mid.node(other));
                            }
                        }
                    }
                    cur = up;
                },
            }
        }
    }

    /// Recomputes the cached size and depth of `id` from its children, then
    /// lets the hook recompute the caller's aggregate from the value of
    /// `id` and the values of its children.  In a well-formed forest size
    /// and depth come out as they were.
    pub fn eval(&mut self, id: NodeId)
        requires
            old(self).wf(),
            old(self).contains(id),
        ensures
            final(self).wf(),
            final(self).revalued_from(
                *old(self),
                id,
                H::eval_spec(
                    old(self).value_of(id),
                    old(self).value_at(old(self).child_of(id, 0)),
                    old(self).value_at(old(self).child_of(id, 1)),
                ),
            ),
    {
        let ghost before = *self;
        proof {
            assert(before.shape_ok(id));
            assert(before.cache_ok(id));
            assert forall|dir: int| 0 <= dir < 2 implies match #[trigger] before.child_of(id, dir) {
                Some(c) => before.cache_ok(c),
                None => true,
            } by {
                if before.child_of(id, dir) is Some {
                    before.lemma_child_below(id, dir);
                }
            }
            if before.child_of(id, 0) is Some {
                before.lemma_child_below(id, 0);
                assert(before.cache_ok(before.child_of(id, 0).unwrap()));
                assert(before.shape_ok(before.child_of(id, 0).unwrap()));
            }
            if before.child_of(id, 1) is Some {
                before.lemma_child_below(id, 1);
                assert(before.cache_ok(before.child_of(id, 1).unwrap()));
                assert(before.shape_ok(before.child_of(id, 1).unwrap()));
            }
        }
        self.recompute(id);
        proof {
            assert(self.same_links_at(before, id));
            assert forall|side: int| 0 <= side < 2 implies self.value_at(self.child_of(id, side))
                == before.value_at(before.child_of(id, side)) by {
                if before.child_of(id, side) is Some {
                    before.lemma_child_below(id, side);
                    assert(self.node(before.child_of(id, side).unwrap()) == before.node(
                        before.child_of(id, side).unwrap(),
                    ));
                }
            }
            assert forall|other: NodeId| self.contains(other) implies #[trigger] self.cache_ok(
                other,
            ) by {
                if other != id {
                    assert(before.cache_ok(other));
                    assert(before.shape_ok(other));
                    assert(self.same_links_at(before, other));
                    assert(self.node(other) == before.node(other));
                    if before.child_of(other, 0) is Some {
                        before.lemma_child_below(other, 0);
                        if before.child_of(other, 0) != Some(id) {
                            assert(self.node(before.child_of(other, 0).unwrap()) == before.node(
                                before.child_of(other, 0).unwrap(),
                            ));
                        }
                    }
                    if before.child_of(other, 1) is Some {
                        before.lemma_child_below(other, 1);
                        if before.child_of(other, 1) != Some(id) {
                            assert(self.node(before.child_of(other, 1).unwrap()) == before.node(
                                before.child_of(other, 1).unwrap(),
                            ));
                        }
                    }
                }
            }
        }
    }
}

} // verus!
