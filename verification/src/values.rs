//! How values change where nodes are recomputed, and why an augmented
//! forest stays augmented.

use vstd::prelude::*;
use crate::forest::Forest;
use crate::helper::Helper;
use crate::node::NodeId;

verus! {

impl<T, H: Helper<T>> Forest<T, H> {
    /// The values of `self` are those of `before` where no recompute
    /// happened, and recomputed from those of `before` where `touched` says.
    pub open spec fn values_from(
        &self,
        before: Self,
        touched: spec_fn(NodeId) -> bool,
    ) -> bool {
        forall|other: NodeId|
            self.contains(other) ==> #[trigger] self.value_ok(before, other, touched(other))
    }

    /// A node that was not `touched` has the children it had in `before`,
    /// and they were not touched either.
    pub open spec fn kept_at(
        &self,
        before: Self,
        touched: spec_fn(NodeId) -> bool,
        id: NodeId,
        side: int,
    ) -> bool {
        !touched(id) ==> self.child_of(id, side) == before.child_of(id, side)
            && match self.child_of(id, side) {
            Some(c) => self.contains(c) && !touched(c),
            None => true,
        }
    }

    /// Recomputes went bottom-up to the roots: whatever was not `touched`
    /// has kept its children, none of which was touched.
    pub open spec fn kept_from(
        &self,
        before: Self,
        touched: spec_fn(NodeId) -> bool,
    ) -> bool {
        &&& self.len() == before.len()
        &&& forall|id: NodeId, side: int|
            self.contains(id) && 0 <= side < 2 ==> #[trigger] self.kept_at(
                before,
                touched,
                id,
                side,
            )
    }

    /// Recomputing bottom-up what was touched leaves an augmented forest
    /// augmented.
    pub(crate) proof fn lemma_settle(&self, before: Self, touched: spec_fn(NodeId) -> bool)
        requires
            before.augmented(),
            self.values_from(before, touched),
            self.kept_from(before, touched),
        ensures
            self.augmented(),
    {
        assert forall|x: NodeId| self.contains(x) implies #[trigger] self.settled(x) by {
            assert(self.value_ok(before, x, touched(x)));
            if touched(x) {
                H::eval_absorbs(
                    before.value_of(x),
                    self.value_at(self.child_of(x, 0)),
                    self.value_at(self.child_of(x, 1)),
                    self.value_at(self.child_of(x, 0)),
                    self.value_at(self.child_of(x, 1)),
                );
            } else {
                assert(before.settled(x));
                assert forall|side: int| 0 <= side < 2 implies self.value_at(
                    self.child_of(x, side),
                ) == before.value_at(before.child_of(x, side)) by {
                    assert(self.kept_at(before, touched, x, side));
                    if self.child_of(x, side) is Some {
                        let c = self.child_of(x, side).unwrap();
                        assert(self.value_ok(before, c, touched(c)));
                    }
                }
            }
        }
    }

    /// Two rounds of recomputes are one round over what either touched.
    pub(crate) proof fn lemma_values_compose(
        &self,
        mid: Self,
        before: Self,
        first: spec_fn(NodeId) -> bool,
        second: spec_fn(NodeId) -> bool,
        both: spec_fn(NodeId) -> bool,
    )
        requires
            mid.values_from(before, first),
            mid.kept_from(before, first),
            self.values_from(mid, second),
            self.kept_from(mid, second),
            forall|x: NodeId| #[trigger] both(x) == (first(x) || second(x)),
        ensures
            self.values_from(before, both),
            self.kept_from(before, both),
    {
        assert forall|x: NodeId| self.contains(x) implies #[trigger] self.value_ok(
            before,
            x,
            both(x),
        ) by {
            assert(self.value_ok(mid, x, second(x)));
            assert(mid.value_ok(before, x, first(x)));
            assert(both(x) == (first(x) || second(x)));
            if second(x) {
                if first(x) {
                    H::eval_absorbs(
                        before.value_of(x),
                        mid.value_at(mid.child_of(x, 0)),
                        mid.value_at(mid.child_of(x, 1)),
                        self.value_at(self.child_of(x, 0)),
                        self.value_at(self.child_of(x, 1)),
                    );
                }
            } else if first(x) {
                assert forall|side: int| 0 <= side < 2 implies self.value_at(
                    self.child_of(x, side),
                ) == mid.value_at(mid.child_of(x, side)) by {
                    assert(self.kept_at(mid, second, x, side));
                    if self.child_of(x, side) is Some {
                        let c = self.child_of(x, side).unwrap();
                        assert(self.value_ok(mid, c, second(c)));
                    }
                }
            }
        }
        assert forall|x: NodeId, side: int|
            self.contains(x) && 0 <= side < 2 implies #[trigger] self.kept_at(
            before,
            both,
            x,
            side,
        ) by {
            assert(both(x) == (first(x) || second(x)));
            assert(self.kept_at(mid, second, x, side));
            assert(mid.kept_at(before, first, x, side));
            if self.child_of(x, side) is Some {
                let c = self.child_of(x, side).unwrap();
                assert(both(c) == (first(c) || second(c)));
            }
        }
    }

    /// Values and children are as in `before` where nothing was touched.
    pub(crate) proof fn lemma_values_same(&self, before: Self, touched: spec_fn(NodeId) -> bool)
        requires
            before.shape_wf(),
            self.len() == before.len(),
            forall|x: NodeId| !(#[trigger] touched(x)),
            forall|x: NodeId| self.contains(x) ==> #[trigger] self.node(x) == before.node(x),
        ensures
            self.values_from(before, touched),
            self.kept_from(before, touched),
    {
        assert forall|x: NodeId| self.contains(x) implies #[trigger] self.value_ok(
            before,
            x,
            touched(x),
        ) by {
            assert(self.node(x) == before.node(x));
            assert(!touched(x));
        }
        assert forall|x: NodeId, side: int|
            self.contains(x) && 0 <= side < 2 implies #[trigger] self.kept_at(
            before,
            touched,
            x,
            side,
        ) by {
            assert(self.node(x) == before.node(x));
            assert(before.shape_ok(x));
            if self.child_of(x, side) is Some {
                before.lemma_child_below(x, side);
                assert(!touched(self.child_of(x, side).unwrap()));
            }
        }
    }

    /// What holds of one description of what was touched holds of another
    /// that names the same nodes.
    pub(crate) proof fn lemma_values_renamed(
        &self,
        before: Self,
        touched: spec_fn(NodeId) -> bool,
        renamed: spec_fn(NodeId) -> bool,
    )
        requires
            self.values_from(before, touched),
            self.kept_from(before, touched),
            forall|x: NodeId| self.contains(x) ==> #[trigger] touched(x) == renamed(x),
        ensures
            self.values_from(before, renamed),
            self.kept_from(before, renamed),
    {
        assert forall|x: NodeId| self.contains(x) implies #[trigger] self.value_ok(
            before,
            x,
            renamed(x),
        ) by {
            assert(self.value_ok(before, x, touched(x)));
        }
        assert forall|x: NodeId, side: int|
            self.contains(x) && 0 <= side < 2 implies #[trigger] self.kept_at(
            before,
            renamed,
            x,
            side,
        ) by {
            assert(self.kept_at(before, touched, x, side));
            assert(touched(x) == renamed(x));
            if !touched(x) && self.child_of(x, side) is Some {
                let c = self.child_of(x, side).unwrap();
                assert(touched(c) == renamed(c));
            }
        }
    }

    /// Whatever was not `touched` and is not `open` has kept its children,
    /// none of which was touched.  What is open are the nodes above a node
    /// that is on its way up: they wait for their recompute, and one of
    /// them has a new child.
    pub open spec fn kept_but(
        &self,
        before: Self,
        touched: spec_fn(NodeId) -> bool,
        open: spec_fn(NodeId) -> bool,
    ) -> bool {
        &&& self.len() == before.len()
        &&& forall|id: NodeId, side: int|
            self.contains(id) && 0 <= side < 2 && !open(id) ==> #[trigger] self.kept_at(
                before,
                touched,
                id,
                side,
            )
    }

    /// Two rounds of recomputes on the way up are one round over what
    /// either touched, as long as what was touched first is not waiting
    /// any more, and what stopped waiting was touched.
    pub(crate) proof fn lemma_values_compose_open(
        &self,
        mid: Self,
        before: Self,
        first: spec_fn(NodeId) -> bool,
        second: spec_fn(NodeId) -> bool,
        both: spec_fn(NodeId) -> bool,
        open_first: spec_fn(NodeId) -> bool,
        open_second: spec_fn(NodeId) -> bool,
    )
        requires
            mid.values_from(before, first),
            mid.kept_but(before, first, open_first),
            self.values_from(mid, second),
            self.kept_but(mid, second, open_second),
            forall|x: NodeId| self.contains(x) ==> #[trigger] both(x) == (first(x) || second(x)),
            forall|x: NodeId| self.contains(x) && #[trigger] first(x) ==> !open_second(x),
            forall|x: NodeId|
                self.contains(x) && #[trigger] open_first(x) ==> open_second(x) || second(x),
        ensures
            self.values_from(before, both),
            self.kept_but(before, both, open_second),
    {
        assert forall|x: NodeId| self.contains(x) implies #[trigger] self.value_ok(
            before,
            x,
            both(x),
        ) by {
            assert(self.value_ok(mid, x, second(x)));
            assert(mid.value_ok(before, x, first(x)));
            assert(both(x) == (first(x) || second(x)));
            if second(x) {
                if first(x) {
                    H::eval_absorbs(
                        before.value_of(x),
                        mid.value_at(mid.child_of(x, 0)),
                        mid.value_at(mid.child_of(x, 1)),
                        self.value_at(self.child_of(x, 0)),
                        self.value_at(self.child_of(x, 1)),
                    );
                }
            } else if first(x) {
                assert(!open_second(x));
                assert forall|side: int| 0 <= side < 2 implies self.value_at(
                    self.child_of(x, side),
                ) == mid.value_at(mid.child_of(x, side)) by {
                    assert(self.kept_at(mid, second, x, side));
                    if self.child_of(x, side) is Some {
                        let c = self.child_of(x, side).unwrap();
                        assert(self.value_ok(mid, c, second(c)));
                    }
                }
            }
        }
        assert forall|x: NodeId, side: int|
            self.contains(x) && 0 <= side < 2 && !open_second(x) implies #[trigger] self.kept_at(
            before,
            both,
            x,
            side,
        ) by {
            assert(both(x) == (first(x) || second(x)));
            if !both(x) {
                assert(self.kept_at(mid, second, x, side));
                assert(open_first(x) ==> open_second(x) || second(x));
                assert(mid.kept_at(before, first, x, side));
                if self.child_of(x, side) is Some {
                    let c = self.child_of(x, side).unwrap();
                    assert(both(c) == (first(c) || second(c)));
                }
            }
        }
    }

    /// What was kept was kept whatever waits.
    pub(crate) proof fn lemma_kept_open(
        &self,
        before: Self,
        touched: spec_fn(NodeId) -> bool,
        open: spec_fn(NodeId) -> bool,
    )
        requires
            self.kept_from(before, touched),
        ensures
            self.kept_but(before, touched, open),
    {
        assert forall|x: NodeId, side: int|
            self.contains(x) && 0 <= side < 2 && !open(x) implies #[trigger] self.kept_at(
            before,
            touched,
            x,
            side,
        ) by {}
    }

    /// Where nothing waits, what was kept but for what waits was kept.
    pub(crate) proof fn lemma_kept_closed(
        &self,
        before: Self,
        touched: spec_fn(NodeId) -> bool,
        open: spec_fn(NodeId) -> bool,
    )
        requires
            self.kept_but(before, touched, open),
            forall|x: NodeId| self.contains(x) ==> !(#[trigger] open(x)),
        ensures
            self.kept_from(before, touched),
    {
        assert forall|x: NodeId, side: int|
            self.contains(x) && 0 <= side < 2 implies #[trigger] self.kept_at(
            before,
            touched,
            x,
            side,
        ) by {
            assert(!open(x));
        }
    }

    /// What holds of one description of what was touched and of what waits
    /// holds of another that names the same nodes.
    pub(crate) proof fn lemma_open_renamed(
        &self,
        before: Self,
        touched: spec_fn(NodeId) -> bool,
        open: spec_fn(NodeId) -> bool,
        renamed: spec_fn(NodeId) -> bool,
        reopened: spec_fn(NodeId) -> bool,
    )
        requires
            self.values_from(before, touched),
            self.kept_but(before, touched, open),
            forall|x: NodeId| self.contains(x) ==> #[trigger] touched(x) == renamed(x),
            forall|x: NodeId| self.contains(x) ==> #[trigger] open(x) == reopened(x),
        ensures
            self.values_from(before, renamed),
            self.kept_but(before, renamed, reopened),
    {
        assert forall|x: NodeId| self.contains(x) implies #[trigger] self.value_ok(
            before,
            x,
            renamed(x),
        ) by {
            assert(self.value_ok(before, x, touched(x)));
        }
        assert forall|x: NodeId, side: int|
            self.contains(x) && 0 <= side < 2 && !reopened(x) implies #[trigger] self.kept_at(
            before,
            renamed,
            x,
            side,
        ) by {
            assert(open(x) == reopened(x));
            assert(self.kept_at(before, touched, x, side));
            assert(touched(x) == renamed(x));
            if !touched(x) && self.child_of(x, side) is Some {
                let c = self.child_of(x, side).unwrap();
                assert(touched(c) == renamed(c));
            }
        }
    }
}

} // verus!
