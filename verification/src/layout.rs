//! What follows from a well-shaped layout: subtrees are nested or disjoint,
//! the way up from a node stays inside every subtree that holds it, and no
//! tree outgrows the arena.

use vstd::prelude::*;
use vstd::set_lib::{lemma_int_range, lemma_len_subset, set_int_range};
use crate::forest::{max_int, Forest};
use crate::helper::Helper;
use crate::node::NodeId;

verus! {

impl<T, H: Helper<T>> Forest<T, H> {
    /// `top` is a proper ancestor of `id`.
    pub open spec fn above(&self, top: NodeId, id: NodeId) -> bool {
        self.below(id, top) && top != id
    }

    /// `top` is `id` or one of its proper ancestors.
    pub open spec fn at_or_above(&self, top: NodeId, id: NodeId) -> bool {
        top == id || self.above(top, id)
    }

    /// `top` is a proper ancestor of `id`, and not one of `cur`.
    pub open spec fn between(&self, top: NodeId, id: NodeId, cur: NodeId) -> bool {
        self.above(top, id) && !self.above(top, cur)
    }

    /// `x` is `id` or above it, and not above `top`: it lies on the way from
    /// `id` up to `top`.
    pub open spec fn on_way(&self, x: NodeId, id: NodeId, top: NodeId) -> bool {
        self.at_or_above(x, id) && !self.above(x, top)
    }

    /// Two nodes of one tree at one position are one node.
    pub(crate) proof fn lemma_same_pos(&self, a: NodeId, b: NodeId)
        requires
            self.shape_wf(),
            self.contains(a),
            self.contains(b),
            self.root_of(a) == self.root_of(b),
            self.pos(a) == self.pos(b),
        ensures
            a == b,
    {
        assert(self.shape_ok(a));
        assert(self.shape_ok(b));
    }

    /// A child lies below its parent, in a strictly smaller range.
    pub(crate) proof fn lemma_child_below(&self, id: NodeId, dir: int)
        requires
            self.shape_wf(),
            self.contains(id),
            0 <= dir < 2,
            self.child_of(id, dir) is Some,
        ensures
            ({
                let c = self.child_of(id, dir).unwrap();
                &&& self.contains(c)
                &&& c != id
                &&& self.parent_of(c) == Some(crate::parent::Parent::link(id, dir))
                &&& self.below(c, id)
                &&& self.lo(id) <= self.lo(c)
                &&& self.hi(c) <= self.hi(id)
                &&& self.hi(c) - self.lo(c) < self.hi(id) - self.lo(id)
                &&& dir == 0 ==> self.pos(c) < self.pos(id)
                &&& dir == 1 ==> self.pos(c) > self.pos(id)
            }),
    {
        assert(self.shape_ok(id));
        let c = self.child_of(id, dir).unwrap();
        assert(self.shape_ok(c));
    }

    /// A node that lies below `top` has its whole subtree there, and unless
    /// it is `top` itself its parent lies below `top` too.
    pub(crate) proof fn lemma_descend(&self, id: NodeId, top: NodeId)
        requires
            self.shape_wf(),
            self.below(id, top),
        ensures
            self.lo(top) <= self.lo(id),
            self.hi(id) <= self.hi(top),
            id != top ==> self.parent_of(id) is Some && self.below(
                self.parent_of(id).unwrap().holder(),
                top,
            ) && self.hi(id) - self.lo(id) < self.hi(top) - self.lo(top),
        decreases self.hi(top) - self.lo(top),
    {
        assert(self.shape_ok(top));
        assert(self.shape_ok(id));
        if id != top {
            if self.pos(id) == self.pos(top) {
                self.lemma_same_pos(id, top);
            }
            let dir: int = if self.pos(id) < self.pos(top) {
                0
            } else {
                1
            };
            let c = self.child_of(top, dir).unwrap();
            self.lemma_child_below(top, dir);
            self.lemma_descend(id, c);
            if id != c {
                let p = self.parent_of(id).unwrap().holder();
                assert(self.below(p, c));
            }
        }
    }

    /// The proper ancestors of a node are its parent and the proper
    /// ancestors of its parent.
    pub(crate) proof fn lemma_above_step(&self, id: NodeId, top: NodeId)
        requires
            self.shape_wf(),
            self.contains(id),
        ensures
            self.above(top, id) <==> match self.parent_of(id) {
                Some(p) => top == p.holder() || self.above(top, p.holder()),
                None => false,
            },
    {
        assert(self.shape_ok(id));
        if self.above(top, id) {
            self.lemma_descend(id, top);
        }
        if self.parent_of(id) is Some {
            let link = self.parent_of(id).unwrap();
            let p = link.holder();
            self.lemma_child_below(p, link.side());
            if self.above(top, p) {
                self.lemma_descend(p, top);
            }
        }
    }

    /// What lies below a node is not above it.
    pub(crate) proof fn lemma_below_not_above(&self, id: NodeId, top: NodeId)
        requires
            self.shape_wf(),
            self.below(id, top),
        ensures
            !self.above(id, top),
    {
        self.lemma_descend(id, top);
        if self.above(id, top) {
            self.lemma_descend(top, id);
        }
    }

    /// Below is transitive.
    pub(crate) proof fn lemma_below_trans(&self, id: NodeId, mid: NodeId, top: NodeId)
        requires
            self.shape_wf(),
            self.below(id, mid),
            self.below(mid, top),
        ensures
            self.below(id, top),
    {
        self.lemma_descend(mid, top);
        assert(self.shape_ok(mid));
    }

    /// What is above a proper ancestor of a node is above the node.
    pub(crate) proof fn lemma_above_trans(&self, top: NodeId, mid: NodeId, id: NodeId)
        requires
            self.shape_wf(),
            self.above(top, mid),
            self.at_or_above(mid, id),
            self.contains(id),
        ensures
            self.above(top, id),
            self.hi(id) - self.lo(id) < self.hi(top) - self.lo(top),
    {
        if mid != id {
            self.lemma_below_trans(id, mid, top);
            self.lemma_descend(id, mid);
        }
        self.lemma_descend(mid, top);
    }

    /// Two subtrees that share a node are nested.
    pub(crate) proof fn lemma_ascend(&self, id: NodeId, a: NodeId, b: NodeId)
        requires
            self.shape_wf(),
            self.below(id, a),
            self.below(id, b),
        ensures
            self.below(a, b) || self.below(b, a),
        decreases self.hi(a) - self.lo(a) - (self.hi(id) - self.lo(id)),
    {
        assert(self.shape_ok(a));
        assert(self.shape_ok(b));
        assert(self.shape_ok(id));
        self.lemma_descend(id, a);
        self.lemma_descend(id, b);
        if id != a && id != b {
            let link = self.parent_of(id).unwrap();
            let p = link.holder();
            self.lemma_child_below(p, link.side());
            self.lemma_descend(p, a);
            self.lemma_ascend(p, a, b);
        }
    }

    /// Two subtrees are nested or occupy disjoint ranges.
    pub(crate) proof fn lemma_nested_or_apart(&self, a: NodeId, b: NodeId)
        requires
            self.shape_wf(),
            self.contains(a),
            self.contains(b),
            self.root_of(a) == self.root_of(b),
        ensures
            self.below(a, b) || self.below(b, a) || self.hi(a) <= self.lo(b) || self.hi(b)
                <= self.lo(a),
            self.below(a, b) ==> self.lo(b) <= self.lo(a) && self.hi(a) <= self.hi(b),
            self.below(b, a) ==> self.lo(a) <= self.lo(b) && self.hi(b) <= self.hi(a),
    {
        assert(self.shape_ok(a));
        assert(self.shape_ok(b));
        if self.below(a, b) {
            self.lemma_descend(a, b);
        }
        if self.below(b, a) {
            self.lemma_descend(b, a);
        }
        if self.lo(a) < self.hi(b) && self.lo(b) < self.hi(a) {
            let root = self.root_of(a);
            assert(self.shape_ok(root));
            let index = max_int(self.lo(a), self.lo(b));
            assert(self.entry_ok(root, index));
            let id = self.order(root)[index];
            self.lemma_ascend(id, a, b);
        }
    }

    /// A tree has no more nodes than the arena.
    pub(crate) proof fn lemma_order_bound(&self, root: NodeId)
        requires
            self.shape_wf(),
            self.contains(root),
            self.parent_of(root) is None,
        ensures
            self.order(root).len() <= self.len(),
            self.order(root).no_duplicates(),
    {
        assert(self.shape_ok(root));
        let order = self.order(root);
        let indices = order.map_values(|id: NodeId| id.0 as int);
        assert forall|i: int, j: int|
            0 <= i < order.len() && 0 <= j < order.len() && i != j implies order[i] != order[j]
            && indices[i] != indices[j] by {
            assert(self.entry_ok(root, i));
            assert(self.entry_ok(root, j));
        }
        assert(indices.to_set().subset_of(set_int_range(0, self.len()))) by {
            assert forall|x: int| indices.to_set().contains(x) implies set_int_range(
                0,
                self.len(),
            ).contains(x) by {
                let i = choose|i: int| 0 <= i < indices.len() && indices[i] == x;
                assert(self.entry_ok(root, i));
            }
        }
        lemma_int_range(0, self.len());
        lemma_len_subset(indices.to_set(), set_int_range(0, self.len()));
        indices.unique_seq_to_set();
    }

    /// The subtree below a node is the left subtree, the node, and the right
    /// subtree, in this order.
    pub proof fn lemma_inorder_unfolds(&self, id: NodeId)
        requires
            self.shape_wf(),
            self.contains(id),
        ensures
            self.inorder(id) == self.inorder_at(self.child_of(id, 0)) + seq![id] + self.inorder_at(
                self.child_of(id, 1),
            ),
            self.inorder(id).len() == self.hi(id) - self.lo(id),
    {
        assert(self.shape_ok(id));
        if self.child_of(id, 0) is Some {
            self.lemma_child_below(id, 0);
            assert(self.shape_ok(self.child_of(id, 0).unwrap()));
        }
        if self.child_of(id, 1) is Some {
            self.lemma_child_below(id, 1);
            assert(self.shape_ok(self.child_of(id, 1).unwrap()));
        }
        assert(self.inorder(id) =~= self.inorder_at(self.child_of(id, 0)) + seq![id]
            + self.inorder_at(self.child_of(id, 1)));
    }
}

} // verus!
