//! What holds of every well-formed forest, and of the operations together.

use vstd::prelude::*;
use crate::forest::{max_int, Forest};
use crate::helper::Helper;
use crate::node::NodeId;
use crate::parent::Parent;
use crate::shape::rotate_shape;

verus! {

impl<T, H: Helper<T>> Forest<T, H> {
    /// Links are mutual: a child names its holder as its parent, on the
    /// side it hangs on, and a parent holds the child in the slot that the
    /// child's link names.
    pub proof fn lemma_links_mutual(&self, id: NodeId)
        requires
            self.wf(),
            self.contains(id),
        ensures
            forall|dir: int|
                0 <= dir < 2 ==> match #[trigger] self.child_of(id, dir) {
                    Some(c) => self.contains(c) && c != id && self.parent_of(c) == Some(
                        Parent::link(id, dir),
                    ),
                    None => true,
                },
            match self.parent_of(id) {
                Some(p) => self.contains(p.holder()) && p.holder() != id && 0 <= p.side() < 2
                    && self.child_of(p.holder(), p.side()) == Some(id),
                None => true,
            },
    {
        assert(self.shape_ok(id));
        assert forall|dir: int| 0 <= dir < 2 implies match #[trigger] self.child_of(id, dir) {
            Some(c) => self.contains(c) && c != id && self.parent_of(c) == Some(
                Parent::link(id, dir),
            ),
            None => true,
        } by {
            if self.child_of(id, dir) is Some {
                self.lemma_child_below(id, dir);
            }
        }
        if self.parent_of(id) is Some {
            let p = self.parent_of(id).unwrap();
            self.lemma_child_below(p.holder(), p.side());
        }
    }

    /// A node hangs in at most one child slot.
    pub proof fn lemma_one_holder(&self, a: NodeId, side_a: int, b: NodeId, side_b: int)
        requires
            self.wf(),
            self.contains(a),
            self.contains(b),
            0 <= side_a < 2,
            0 <= side_b < 2,
            self.child_of(a, side_a) is Some,
            self.child_of(a, side_a) == self.child_of(b, side_b),
        ensures
            a == b,
            side_a == side_b,
    {
        self.lemma_child_below(a, side_a);
        self.lemma_child_below(b, side_b);
    }

    /// The cached size of a node is one more than the sizes of its
    /// children, and is the number of nodes in its subtree; its cached
    /// depth is one more than the larger depth of its children.  A child
    /// that is not there counts as 0.
    pub proof fn lemma_aggregates(&self, id: NodeId)
        requires
            self.wf(),
            self.contains(id),
        ensures
            self.size_of(id) == 1 + self.size_at(self.child_of(id, 0)) + self.size_at(
                self.child_of(id, 1),
            ),
            self.depth_of(id) == 1 + max_int(
                self.depth_at(self.child_of(id, 0)),
                self.depth_at(self.child_of(id, 1)),
            ),
            self.size_of(id) == self.inorder(id).len(),
            1 <= self.depth_of(id) <= self.size_of(id) <= self.len(),
    {
        assert(self.shape_ok(id));
        assert(self.cache_ok(id));
        self.lemma_inorder_unfolds(id);
        self.lemma_order_bound(self.root_of(id));
        if self.child_of(id, 0) is Some {
            self.lemma_child_below(id, 0);
            assert(self.cache_ok(self.child_of(id, 0).unwrap()));
        }
        if self.child_of(id, 1) is Some {
            self.lemma_child_below(id, 1);
            assert(self.cache_ok(self.child_of(id, 1).unwrap()));
        }
    }

    /// The root of the tree of a node is the node itself where it has no
    /// parent, else the root of the tree of its parent; the in-order
    /// sequence of the tree is that of the subtree of the root.
    pub proof fn lemma_root(&self, id: NodeId)
        requires
            self.wf(),
            self.contains(id),
        ensures
            self.contains(self.root_of(id)),
            self.parent_of(self.root_of(id)) is None,
            self.root_of(id) == match self.parent_of(id) {
                Some(p) => self.root_of(p.holder()),
                None => id,
            },
            self.tree_of(id) == self.inorder(self.root_of(id)),
            self.at_or_above(self.root_of(id), id),
    {
        assert(self.shape_ok(id));
        let root = self.root_of(id);
        assert(self.shape_ok(root));
        assert(self.inorder(root) =~= self.tree_of(id));
    }

    /// The subtree of `top` holds `id` exactly if `top` is `id` or one of
    /// its ancestors, and it holds no node twice.
    pub proof fn lemma_subtree(&self, top: NodeId, id: NodeId)
        requires
            self.wf(),
            self.contains(top),
        ensures
            self.inorder(top).contains(id) <==> self.contains(id) && self.at_or_above(top, id),
            self.inorder(top).no_duplicates(),
    {
        assert(self.shape_ok(top));
        let root = self.root_of(top);
        assert(self.shape_ok(root));
        self.lemma_order_bound(root);
        let sub = self.inorder(top);
        if sub.contains(id) {
            let i = choose|i: int| 0 <= i < sub.len() && sub[i] == id;
            assert(self.entry_ok(root, self.lo(top) + i));
        }
        if self.contains(id) && self.at_or_above(top, id) {
            assert(self.shape_ok(id));
            assert(sub[self.pos(id) - self.lo(top)] == id);
        }
    }

    /// No node is its own ancestor, and of two nodes at most one is above
    /// the other.
    pub proof fn lemma_no_cycle(&self, a: NodeId, b: NodeId)
        requires
            self.wf(),
        ensures
            !self.above(a, a),
            !(self.above(a, b) && self.above(b, a)),
    {
        if self.above(a, b) {
            self.lemma_below_not_above(b, a);
        }
    }

    /// The hook leaves every value as it is.
    pub open spec fn plain_hook() -> bool {
        forall|value: T, left: Option<T>, right: Option<T>| #[trigger]
            H::eval_spec(value, left, right) == value
    }

    /// Where the hook leaves every value as it is, recomputes leave every
    /// value as it is.
    pub proof fn lemma_plain_values(&self, before: Self, touched: spec_fn(NodeId) -> bool)
        requires
            self.values_from(before, touched),
            Self::plain_hook(),
        ensures
            forall|other: NodeId|
                self.contains(other) ==> #[trigger] self.value_of(other) == before.value_of(other),
    {
        assert forall|other: NodeId| self.contains(other) implies #[trigger] self.value_of(other)
            == before.value_of(other) by {
            assert(self.value_ok(before, other, touched(other)));
        }
    }

    /// A rotation keeps the in-order sequence: the node that comes up has
    /// below it what the rotated node had, in the same order, and the tree
    /// of every node has the in-order sequence it had.  Where the hook
    /// leaves every value as it is, every node holds the value it held.
    pub proof fn lemma_rotation_keeps_order(&self, before: Self, id: NodeId, dir: int)
        requires
            before.wf(),
            before.contains(id),
            0 <= dir < 2,
            before.child_of(id, 1 - dir) is Some,
            self.rotated_from(before, id, dir),
        ensures
            self.inorder(before.riser(id, dir)) == before.inorder(id),
            forall|other: NodeId|
                self.contains(other) ==> #[trigger] self.tree_of(other) == before.tree_of(other),
            Self::plain_hook() ==> forall|other: NodeId|
                self.contains(other) ==> #[trigger] self.value_of(other) == before.value_of(other),
    {
        if Self::plain_hook() {
            self.lemma_plain_values(
                before,
                |other: NodeId| before.at_or_above(other, before.riser(id, dir)),
            );
        }
    }

    /// After a splay the node is the root of its tree, below it is the
    /// whole tree, and the tree of every node has the in-order sequence it
    /// had.  Where the hook leaves every value as it is, every node holds
    /// the value it held.
    pub proof fn lemma_splay_roots(&self, before: Self, id: NodeId)
        requires
            before.wf(),
            before.contains(id),
            self.splayed_from(before, id),
        ensures
            self.parent_of(id) is None,
            self.inorder(id) == before.tree_of(id),
            self.tree_of(id) == before.tree_of(id),
            forall|other: NodeId|
                self.contains(other) ==> #[trigger] self.tree_of(other) == before.tree_of(other),
            Self::plain_hook() ==> forall|other: NodeId|
                self.contains(other) ==> #[trigger] self.value_of(other) == before.value_of(other),
    {
        if Self::plain_hook() {
            self.lemma_plain_values(
                before,
                |other: NodeId| before.parent_of(id) is Some && before.at_or_above(other, id),
            );
        }
    }

    /// The value of a node after recomputes: recomputed from the value it
    /// had and the values that its children have now where it was touched,
    /// else the value it had.
    pub proof fn lemma_value_after(
        &self,
        before: Self,
        touched: spec_fn(NodeId) -> bool,
        id: NodeId,
    )
        requires
            self.values_from(before, touched),
            self.contains(id),
        ensures
            self.value_of(id) == if touched(id) {
                H::eval_spec(
                    before.value_of(id),
                    self.value_at(self.child_of(id, 0)),
                    self.value_at(self.child_of(id, 1)),
                )
            } else {
                before.value_of(id)
            },
    {
        assert(self.value_ok(before, id, touched(id)));
    }

    /// The value that a node would hold if its whole subtree were
    /// recomputed bottom-up, the node last.
    pub open spec fn fresh(&self, id: NodeId) -> T
        decreases self.hi(id) - self.lo(id),
    {
        H::eval_spec(self.value_of(id), self.fresh_child(id, 0), self.fresh_child(id, 1))
    }

    /// The recomputed value of the child of `id` on `side`, if there is one.
    pub open spec fn fresh_child(&self, id: NodeId, side: int) -> Option<T>
        decreases self.hi(id) - self.lo(id), 0int,
    {
        match self.child_of(id, side) {
            Some(c) => if 0 <= self.hi(c) - self.lo(c) < self.hi(id) - self.lo(id) {
                Some(self.fresh(c))
            } else {
                None
            },
            None => None,
        }
    }

    /// In an augmented forest every node holds what a recompute of its whole
    /// subtree would give it.
    pub proof fn lemma_augmented_is_fresh(&self, id: NodeId)
        requires
            self.wf(),
            self.augmented(),
            self.contains(id),
        ensures
            self.fresh(id) == self.value_of(id),
            self.fresh(id) == H::eval_spec(
                self.value_of(id),
                self.value_at(self.child_of(id, 0)),
                self.value_at(self.child_of(id, 1)),
            ),
        decreases self.hi(id) - self.lo(id),
    {
        assert(self.settled(id));
        assert(self.shape_ok(id));
        assert forall|side: int| 0 <= side < 2 implies self.fresh_child(id, side) == self.value_at(
            self.child_of(id, side),
        ) by {
            if self.child_of(id, side) is Some {
                let c = self.child_of(id, side).unwrap();
                self.lemma_child_below(id, side);
                assert(self.shape_ok(c));
                self.lemma_augmented_is_fresh(c);
            }
        }
        assert(self.fresh_child(id, 0) == self.value_at(self.child_of(id, 0)));
        assert(self.fresh_child(id, 1) == self.value_at(self.child_of(id, 1)));
    }

    /// Two well-formed forests of one shape give every node the same depth.
    pub(crate) proof fn lemma_depth_by_shape(&self, other: Self, id: NodeId)
        requires
            self.wf(),
            other.wf(),
            self.contains(id),
            self.len() == other.len(),
            self.shape() == other.shape(),
            self.arrangement().lo == other.arrangement().lo,
            self.arrangement().hi == other.arrangement().hi,
        ensures
            self.depth_of(id) == other.depth_of(id),
        decreases self.hi(id) - self.lo(id),
    {
        assert(self.shape_ok(id));
        assert(self.cache_ok(id));
        assert(other.cache_ok(id));
        self.lemma_shape(id);
        other.lemma_shape(id);
        if self.child_of(id, 0) is Some {
            self.lemma_child_below(id, 0);
            assert(self.shape_ok(self.child_of(id, 0).unwrap()));
            self.lemma_depth_by_shape(other, self.child_of(id, 0).unwrap());
        }
        if self.child_of(id, 1) is Some {
            self.lemma_child_below(id, 1);
            assert(self.shape_ok(self.child_of(id, 1).unwrap()));
            self.lemma_depth_by_shape(other, self.child_of(id, 1).unwrap());
        }
    }

    /// Recomputes in an augmented forest whose shape is then as it was
    /// leave every value as it was.
    pub(crate) proof fn lemma_values_restored(
        &self,
        before: Self,
        touched: spec_fn(NodeId) -> bool,
        id: NodeId,
    )
        requires
            self.wf(),
            before.wf(),
            before.augmented(),
            self.contains(id),
            self.len() == before.len(),
            self.shape() == before.shape(),
            self.arrangement().lo == before.arrangement().lo,
            self.arrangement().hi == before.arrangement().hi,
            self.values_from(before, touched),
        ensures
            self.value_of(id) == before.value_of(id),
        decreases self.hi(id) - self.lo(id),
    {
        assert(self.shape_ok(id));
        assert(before.settled(id));
        assert(self.value_ok(before, id, touched(id)));
        self.lemma_shape(id);
        before.lemma_shape(id);
        if self.child_of(id, 0) is Some {
            self.lemma_child_below(id, 0);
            assert(self.shape_ok(self.child_of(id, 0).unwrap()));
            self.lemma_values_restored(before, touched, self.child_of(id, 0).unwrap());
        }
        if self.child_of(id, 1) is Some {
            self.lemma_child_below(id, 1);
            assert(self.shape_ok(self.child_of(id, 1).unwrap()));
            self.lemma_values_restored(before, touched, self.child_of(id, 1).unwrap());
        }
    }

    /// A rotation is undone by the rotation of the node that came up, in
    /// the other direction: the node that comes up then is the one that
    /// went down, every node has the links, the subtree, the size and the
    /// depth it had, and in a forest that was augmented the value it had.
    pub proof fn lemma_rotation_round_trip(
        &self,
        mid: Self,
        before: Self,
        id: NodeId,
        dir: int,
    )
        requires
            before.wf(),
            before.contains(id),
            0 <= dir < 2,
            before.child_of(id, 1 - dir) is Some,
            mid.wf(),
            mid.rotated_from(before, id, dir),
            self.wf(),
            self.rotated_from(mid, before.riser(id, dir), 1 - dir),
        ensures
            mid.child_of(before.riser(id, dir), dir) == Some(id),
            self.shape() == before.shape(),
            rotate_shape(rotate_shape(before.shape(), id, dir), before.riser(id, dir), 1 - dir)
                == before.shape(),
            forall|other: NodeId|
                self.contains(other) ==> #[trigger] self.inorder(other) == before.inorder(other),
            forall|other: NodeId|
                self.contains(other) ==> #[trigger] self.size_of(other) == before.size_of(other),
            forall|other: NodeId|
                self.contains(other) ==> #[trigger] self.depth_of(other) == before.depth_of(other),
            before.augmented() ==> forall|other: NodeId|
                self.contains(other) ==> #[trigger] self.value_of(other) == before.value_of(other),
    {
        let up = before.riser(id, dir);
        before.lemma_rotation_cast(id, dir);
        assert(mid.child_of(up, dir) == before.rotated_child(id, dir, up, dir));
        mid.lemma_rotation_cast(up, 1 - dir);
        assert(mid.parent_of(id) == before.rotated_parent(id, dir, id));
        assert(mid.parent_of(up) == before.rotated_parent(id, dir, up));
        assert(mid.child_of(id, 1 - dir) == before.rotated_child(id, dir, id, 1 - dir));
        assert forall|index: int| 0 <= index < self.len() implies self.shape()[index]
            == before.shape()[index] by {
            let x = NodeId(index as usize);
            assert(before.shape_ok(x));
            assert(self.parent_of(x) == mid.rotated_parent(up, 1 - dir, x));
            assert(mid.parent_of(x) == before.rotated_parent(id, dir, x));
            assert(self.child_of(x, 0) == mid.rotated_child(up, 1 - dir, x, 0));
            assert(self.child_of(x, 1) == mid.rotated_child(up, 1 - dir, x, 1));
            assert(mid.child_of(x, 0) == before.rotated_child(id, dir, x, 0));
            assert(mid.child_of(x, 1) == before.rotated_child(id, dir, x, 1));
            if before.child_of(x, 0) is Some {
                before.lemma_child_below(x, 0);
            }
            if before.child_of(x, 1) is Some {
                before.lemma_child_below(x, 1);
            }
            if before.parent_of(x) is Some {
                before.lemma_child_below(
                    before.parent_of(x).unwrap().holder(),
                    before.parent_of(x).unwrap().side(),
                );
            }
        }
        assert(self.shape() =~= before.shape());
        assert forall|x: NodeId| self.contains(x) implies self.lo(x) == before.lo(x) && self.hi(x)
            == before.hi(x) && self.root_of(x) == before.root_of(x) && self.tree_of(x)
            == before.tree_of(x) by {
            assert(before.shape_ok(x));
            assert(before.shape_ok(before.root_of(x)));
            assert(self.lo(x) == mid.rotated_lo(up, 1 - dir, x));
            assert(self.hi(x) == mid.rotated_hi(up, 1 - dir, x));
            assert(mid.lo(x) == before.rotated_lo(id, dir, x));
            assert(mid.hi(x) == before.rotated_hi(id, dir, x));
            assert(mid.lo(up) == before.rotated_lo(id, dir, up));
            assert(mid.hi(up) == before.rotated_hi(id, dir, up));
            assert(mid.pos(id) == before.pos(id));
            assert(self.root_of(x) == mid.rotated_root(up, 1 - dir, x));
            assert(mid.root_of(x) == before.rotated_root(id, dir, x));
            assert(self.tree_of(x) == mid.tree_of(x));
            assert(mid.tree_of(x) == before.tree_of(x));
        }
        assert(self.arrangement().lo =~= before.arrangement().lo);
        assert(self.arrangement().hi =~= before.arrangement().hi);
        assert forall|x: NodeId| self.contains(x) implies #[trigger] self.size_of(x)
            == before.size_of(x) by {
            assert(self.cache_ok(x));
            assert(before.cache_ok(x));
        }
        assert forall|x: NodeId| self.contains(x) implies #[trigger] self.depth_of(x)
            == before.depth_of(x) by {
            self.lemma_depth_by_shape(before, x);
        }
        self.lemma_rotated_shape_is(mid, up, 1 - dir);
        mid.lemma_rotated_shape_is(before, id, dir);
        if before.augmented() {
            let one = |other: NodeId| before.at_or_above(other, up);
            let two = |other: NodeId| mid.at_or_above(other, id);
            let both = |other: NodeId| one(other) || two(other);
            assert forall|x: NodeId| #[trigger] both(x) == (one(x) || two(x)) by {}
            self.lemma_values_compose(mid, before, one, two, both);
            assert forall|x: NodeId| self.contains(x) implies #[trigger] self.value_of(x)
                == before.value_of(x) by {
                self.lemma_values_restored(before, both, x);
            }
        }
    }
}

} // verus!
