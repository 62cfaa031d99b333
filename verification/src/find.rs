//! Searching a subtree by a three-way comparison and splaying what is found.

use vstd::prelude::*;
use std::cmp::Ordering;
use crate::forest::Forest;
use crate::helper::Helper;
use crate::node::NodeId;

verus! {

impl<T, H: Helper<T>> Forest<T, H> {
    /// The comparison may send a search from `from` down to its child `to`:
    /// to the left child on `Greater`, to the right child on `Less`.
    pub open spec fn search_step<F: Fn(&T) -> Ordering>(
        &self,
        f: &F,
        from: NodeId,
        to: NodeId,
    ) -> bool {
        ||| f.ensures((&self.value_of(from),), Ordering::Greater) && self.child_of(from, 0)
            == Some(to)
        ||| f.ensures((&self.value_of(from),), Ordering::Less) && self.child_of(from, 1) == Some(
            to,
        )
    }

    /// `path` is a way that a search with `f` may take from `from` down to
    /// `to`.
    pub open spec fn search_path<F: Fn(&T) -> Ordering>(
        &self,
        f: &F,
        from: NodeId,
        to: NodeId,
        path: Seq<NodeId>,
    ) -> bool {
        &&& path.len() > 0
        &&& path.first() == from
        &&& path.last() == to
        &&& forall|i: int|
            0 <= i < path.len() - 1 ==> self.contains(#[trigger] path[i]) && self.search_step(
                f,
                path[i],
                path[i + 1],
            )
    }

    /// A search with `f` from `from` may come to `to`.
    pub open spec fn search_reaches<F: Fn(&T) -> Ordering>(
        &self,
        f: &F,
        from: NodeId,
        to: NodeId,
    ) -> bool {
        exists|path: Seq<NodeId>| self.search_path(f, from, to, path)
    }

    /// A search with `f` may end at `at` without a find: the comparison
    /// sends it on to a child that is not there.
    pub open spec fn search_misses<F: Fn(&T) -> Ordering>(&self, f: &F, at: NodeId) -> bool {
        ||| f.ensures((&self.value_of(at),), Ordering::Greater) && self.child_of(at, 0) is None
        ||| f.ensures((&self.value_of(at),), Ordering::Less) && self.child_of(at, 1) is None
    }

    /// Searches the subtree of `id` with the comparison `f`, which says how
    /// the value of a node stands to what is looked for: on `Equal` the node
    /// is found, splayed to the root and returned; on `Greater` the search
    /// goes on in the left child, on `Less` in the right child.  Where it
    /// comes to a child that is not there, nothing is found and nothing
    /// changes.
    pub fn find<F: Fn(&T) -> Ordering>(&mut self, id: NodeId, f: F) -> (found: Option<NodeId>)
        requires
            old(self).wf(),
            old(self).contains(id),
            forall|other: NodeId| #[trigger]
                old(self).below(other, id) ==> f.requires((&old(self).value_of(other),)),
        ensures
            final(self).wf(),
            match found {
                Some(hit) => {
                    &&& old(self).search_reaches(&f, id, hit)
                    &&& f.ensures((&old(self).value_of(hit),), Ordering::Equal)
                    &&& old(self).below(hit, id)
                    &&& final(self).splayed_from(*old(self), hit)
                },
                None => {
                    &&& exists|last: NodeId|
                        old(self).below(last, id) && old(self).search_reaches(&f, id, last)
                            && old(self).search_misses(&f, last)
                    &&& final(self).unchanged_from(*old(self))
                },
            },
            old(self).augmented() ==> final(self).augmented(),
    {
        let ghost before = *self;
        let ghost mut path: Seq<NodeId> = seq![id];
        let mut cur = id;
        proof {
            assert(before.shape_ok(id));
        }
        loop
            invariant
                *self == before,
                *old(self) == before,
                before.wf(),
                before.contains(id),
                before.below(cur, id),
                before.search_path(&f, id, cur, path),
                forall|other: NodeId| #[trigger]
                    before.below(other, id) ==> f.requires((&before.value_of(other),)),
            decreases before.hi(cur) - before.lo(cur),
        {
            let side: usize = match f(self.value(cur)) {
                Ordering::Equal => {
                    self.splay(cur);
                    return Some(cur);
                },
                Ordering::Greater => 0,
                Ordering::Less => 1,
            };
            match self.child(cur, side) {
                None => {
                    proof {
                        assert(before.below(cur, id) && before.search_reaches(&f, id, cur)
                            && before.search_misses(&f, cur));
                        assert forall|other: NodeId| self.contains(other) implies #[trigger] self.node(
                            other,
                        ) == before.node(other) by {}
                    }
                    return None;
                },
                Some(next) => {
                    proof {
                        if side == 0 {
                            before.lemma_child_below(cur, 0);
                        } else {
                            before.lemma_child_below(cur, 1);
                        }
                        before.lemma_below_trans(next, cur, id);
                        assert(before.shape_ok(next));
                        let longer = path.push(next);
                        assert forall|i: int| 0 <= i < longer.len() - 1 implies before.contains(
                            #[trigger] longer[i],
                        ) && before.search_step(&f, longer[i], longer[i + 1]) by {
                            if i < path.len() - 1 {
                                assert(longer[i] == path[i]);
                                assert(longer[i + 1] == path[i + 1]);
                            }
                        }
                        path = longer;
                    }
                    cur = next;
                },
            }
        }
    }
}

} // verus!
