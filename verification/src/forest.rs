//! The arena that owns the nodes, and what it means for it to be well formed.
//!
//! Beside the nodes the forest keeps a ghost layout: for every tree the
//! in-order sequence of its nodes, and for every node the root of its tree,
//! its position in that sequence and the range of positions that its subtree
//! occupies.  Every invariant relates a node to its immediate neighbours
//! only, so a local change of links is checked locally.

use vstd::prelude::*;
use std::marker::PhantomData;
use crate::helper::Helper;
use crate::node::{Node, NodeId};
use crate::parent::Parent;

verus! {

/// The ghost layout of a forest.  All sequences but `order` are indexed by
/// node; `order` is indexed by node too and meaningful at roots.
pub struct Layout {
    /// The root of the tree that holds the node.
    pub root: Seq<NodeId>,
    /// The position of the node in the in-order sequence of its tree.
    pub pos: Seq<int>,
    /// The first position that the node's subtree occupies.
    pub lo: Seq<int>,
    /// One past the last position that the node's subtree occupies.
    pub hi: Seq<int>,
    /// At a root: the in-order sequence of its tree.
    pub order: Seq<Seq<NodeId>>,
}

/// A set of disjoint binary trees over the nodes of one arena.
pub struct Forest<T, H> {
    pub(crate) slots: Vec<Option<Node<T>>>,
    pub(crate) layout: Ghost<Layout>,
    pub(crate) hook: PhantomData<H>,
}

/// The larger of two integers.
pub open spec fn max_int(a: int, b: int) -> int {
    if a >= b {
        a
    } else {
        b
    }
}

impl<T, H: Helper<T>> Forest<T, H> {
    /// The number of nodes.
    pub open(crate) spec fn len(&self) -> int {
        self.slots.len() as int
    }

    /// The ghost layout.
    pub open(crate) spec fn arrangement(&self) -> Layout {
        self.layout@
    }

    /// The node `id` is in its slot.
    pub open(crate) spec fn present(&self, id: NodeId) -> bool {
        self.slots[id.0 as int] is Some
    }

    /// `id` names a node of this forest.
    pub open spec fn contains(&self, id: NodeId) -> bool {
        id.0 < self.len()
    }

    /// The node behind a handle.
    pub open(crate) spec fn node(&self, id: NodeId) -> Node<T> {
        self.slots[id.0 as int].unwrap()
    }

    /// The link of `id` to its parent.
    pub open spec fn parent_of(&self, id: NodeId) -> Option<Parent> {
        self.node(id).parent
    }

    /// The child of `id` on side `dir`: left for 0, right for 1.
    pub open spec fn child_of(&self, id: NodeId, dir: int) -> Option<NodeId> {
        self.node(id).children[dir]
    }

    /// The cached size of `id`.
    pub open spec fn size_of(&self, id: NodeId) -> int {
        self.node(id).size as int
    }

    /// The cached depth of `id`.
    pub open spec fn depth_of(&self, id: NodeId) -> int {
        self.node(id).depth as int
    }

    /// The value that `id` holds.
    pub open spec fn value_of(&self, id: NodeId) -> T {
        self.node(id).value
    }

    /// The cached size of an optional child; 0 where there is none.
    pub open spec fn size_at(&self, child: Option<NodeId>) -> int {
        match child {
            Some(c) => self.size_of(c),
            None => 0,
        }
    }

    /// The cached depth of an optional child; 0 where there is none.
    pub open spec fn depth_at(&self, child: Option<NodeId>) -> int {
        match child {
            Some(c) => self.depth_of(c),
            None => 0,
        }
    }

    /// The value of an optional child.
    pub open spec fn value_at(&self, child: Option<NodeId>) -> Option<T> {
        match child {
            Some(c) => Some(self.value_of(c)),
            None => None,
        }
    }

    /// The root of the tree that holds `id`.
    pub open spec fn root_of(&self, id: NodeId) -> NodeId {
        self.arrangement().root[id.0 as int]
    }

    /// The position of `id` in the in-order sequence of its tree.
    pub open spec fn pos(&self, id: NodeId) -> int {
        self.arrangement().pos[id.0 as int]
    }

    /// The first position that the subtree of `id` occupies.
    pub open spec fn lo(&self, id: NodeId) -> int {
        self.arrangement().lo[id.0 as int]
    }

    /// One past the last position that the subtree of `id` occupies.
    pub open spec fn hi(&self, id: NodeId) -> int {
        self.arrangement().hi[id.0 as int]
    }

    /// The in-order sequence of the tree whose root is `root`.
    pub open spec fn order(&self, root: NodeId) -> Seq<NodeId> {
        self.arrangement().order[root.0 as int]
    }

    /// The in-order sequence of the whole tree that holds `id`.
    pub open spec fn tree_of(&self, id: NodeId) -> Seq<NodeId> {
        self.order(self.root_of(id))
    }

    /// The in-order sequence of the subtree below `id`, `id` included.
    pub open spec fn inorder(&self, id: NodeId) -> Seq<NodeId> {
        self.tree_of(id).subrange(self.lo(id), self.hi(id))
    }

    /// The in-order sequence of an optional child's subtree.
    pub open spec fn inorder_at(&self, child: Option<NodeId>) -> Seq<NodeId> {
        match child {
            Some(c) => self.inorder(c),
            None => Seq::empty(),
        }
    }

    /// `id` lies in the subtree below `top` (`top` itself included).
    pub open spec fn below(&self, id: NodeId, top: NodeId) -> bool {
        &&& self.contains(id)
        &&& self.contains(top)
        &&& self.root_of(id) == self.root_of(top)
        &&& self.lo(top) <= self.pos(id) < self.hi(top)
    }

    /// Child slots and parent links of `id` agree with its neighbours.
    pub open spec fn links_ok(&self, id: NodeId) -> bool {
        &&& forall|dir: int|
            0 <= dir < 2 ==> match #[trigger] self.child_of(id, dir) {
                Some(c) => self.contains(c) && self.parent_of(c) == Some(Parent::link(id, dir)),
                None => true,
            }
        &&& match self.parent_of(id) {
            Some(p) => self.contains(p.holder()) && self.child_of(p.holder(), p.side()) == Some(id),
            None => true,
        }
    }

    /// The `index`-th node of the tree rooted at `root` knows its place.
    pub open spec fn entry_ok(&self, root: NodeId, index: int) -> bool {
        let id = self.order(root)[index];
        self.contains(id) && self.root_of(id) == root && self.pos(id) == index
    }

    /// The layout at `id` agrees with the links of `id`.
    pub open spec fn layout_ok(&self, id: NodeId) -> bool {
        let root = self.root_of(id);
        &&& self.contains(root)
        &&& self.parent_of(root) is None
        &&& match self.parent_of(id) {
            Some(p) => root == self.root_of(p.holder()),
            None => root == id && self.lo(id) == 0 && self.hi(id) == self.order(id).len(),
        }
        &&& 0 <= self.lo(id) <= self.pos(id) < self.hi(id) <= self.order(root).len()
        &&& self.order(root)[self.pos(id)] == id
        &&& match self.child_of(id, 0) {
            Some(c) => self.lo(c) == self.lo(id) && self.hi(c) == self.pos(id),
            None => self.lo(id) == self.pos(id),
        }
        &&& match self.child_of(id, 1) {
            Some(c) => self.lo(c) == self.pos(id) + 1 && self.hi(c) == self.hi(id),
            None => self.hi(id) == self.pos(id) + 1,
        }
        &&& self.parent_of(id) is None ==> forall|index: int|
            0 <= index < self.order(id).len() ==> #[trigger] self.entry_ok(id, index)
    }

    /// The cached size and depth of `id` agree with those of its children.
    pub open spec fn cache_ok(&self, id: NodeId) -> bool {
        &&& self.size_of(id) == self.hi(id) - self.lo(id)
        &&& self.depth_of(id) == 1 + max_int(
            self.depth_at(self.child_of(id, 0)),
            self.depth_at(self.child_of(id, 1)),
        )
        &&& self.depth_of(id) <= self.size_of(id)
    }

    /// The node is there, and its links and layout are consistent.
    pub open spec fn shape_ok(&self, id: NodeId) -> bool {
        &&& self.present(id)
        &&& self.links_ok(id)
        &&& self.layout_ok(id)
    }

    /// Links and layout are consistent everywhere.
    pub open spec fn shape_wf(&self) -> bool {
        &&& self.arrangement().root.len() == self.len()
        &&& self.arrangement().pos.len() == self.len()
        &&& self.arrangement().lo.len() == self.len()
        &&& self.arrangement().hi.len() == self.len()
        &&& self.arrangement().order.len() == self.len()
        &&& forall|id: NodeId| self.contains(id) ==> #[trigger] self.shape_ok(id)
    }

    /// Every node but the proper ancestors of `id` has its cache up to date.
    pub open spec fn cached_but_above(&self, id: NodeId) -> bool {
        forall|other: NodeId|
            self.contains(other) && !(self.below(id, other) && other != id)
                ==> #[trigger] self.cache_ok(other)
    }

    /// Every node but `id` and its proper ancestors has its cache up to
    /// date.
    pub open spec fn cached_but_from(&self, id: NodeId) -> bool {
        forall|other: NodeId|
            self.contains(other) && !(other == id || (self.below(id, other) && other != id))
                ==> #[trigger] self.cache_ok(other)
    }

    /// The forest is well formed: links are mutual, no node is its own
    /// ancestor, and every cached size and depth is up to date.
    pub open spec fn wf(&self) -> bool {
        &&& self.shape_wf()
        &&& forall|id: NodeId| self.contains(id) ==> #[trigger] self.cache_ok(id)
    }

    /// The value of `id` is what a recompute would leave.
    pub open spec fn settled(&self, id: NodeId) -> bool {
        self.value_of(id) == H::eval_spec(
            self.value_of(id),
            self.value_at(self.child_of(id, 0)),
            self.value_at(self.child_of(id, 1)),
        )
    }

    /// The caller-defined aggregate is up to date at every node.
    pub open spec fn augmented(&self) -> bool {
        forall|id: NodeId| self.contains(id) ==> #[trigger] self.settled(id)
    }

    /// `self` is `before` with one more node, `id`, which holds `value` and
    /// stands alone; nothing else has changed.
    pub open spec fn added_from(&self, before: Self, id: NodeId, value: T) -> bool {
        &&& id.0 == before.len()
        &&& self.len() == before.len() + 1
        &&& self.parent_of(id) is None
        &&& self.child_of(id, 0) is None
        &&& self.child_of(id, 1) is None
        &&& self.value_of(id) == value
        &&& self.size_of(id) == 1
        &&& self.depth_of(id) == 1
        &&& self.inorder(id) == seq![id]
        &&& forall|other: NodeId|
            before.contains(other) ==> #[trigger] self.node(other) == before.node(other)
                && self.inorder(other) == before.inorder(other)
                && self.root_of(other) == before.root_of(other)
    }

    /// A node whose links and layout, and those of its neighbours and of
    /// its tree, are as they were in a well-shaped `before`, is well shaped.
    pub(crate) proof fn lemma_same_node_ok(&self, before: Self, id: NodeId)
        requires
            before.contains(id),
            before.shape_ok(id),
            self.len() >= before.len(),
            self.present(id),
            self.parent_of(id) == before.parent_of(id),
            self.child_of(id, 0) == before.child_of(id, 0),
            self.child_of(id, 1) == before.child_of(id, 1),
            self.same_layout_at(before, id),
            self.same_layout_at(before, before.root_of(id)),
            self.order(before.root_of(id)) == before.order(before.root_of(id)),
            self.parent_of(before.root_of(id)) is None,
            forall|dir: int|
                0 <= dir < 2 ==> match #[trigger] before.child_of(id, dir) {
                    Some(c) => self.parent_of(c) == before.parent_of(c) && self.same_layout_at(
                        before,
                        c,
                    ),
                    None => true,
                },
            match before.parent_of(id) {
                Some(p) => self.child_of(p.holder(), p.side()) == Some(id) && self.same_layout_at(
                    before,
                    p.holder(),
                ),
                None => true,
            },
            forall|index: int|
                0 <= index < before.order(before.root_of(id)).len() ==> self.same_layout_at(
                    before,
                    #[trigger] before.order(before.root_of(id))[index],
                ),
        ensures
            self.shape_ok(id),
    {
        let root = before.root_of(id);
        assert forall|dir: int| 0 <= dir < 2 implies match #[trigger] self.child_of(id, dir) {
            Some(c) => self.contains(c) && self.parent_of(c) == Some(Parent::link(id, dir)),
            None => true,
        } by {
            assert(before.child_of(id, dir) == self.child_of(id, dir));
        }
        assert(before.child_of(id, 0) == self.child_of(id, 0));
        assert(before.child_of(id, 1) == self.child_of(id, 1));
        if self.parent_of(id) is None {
            assert forall|index: int| 0 <= index < self.order(id).len() implies #[trigger] self.entry_ok(
                id,
                index,
            ) by {
                assert(before.entry_ok(id, index));
                let m = before.order(root)[index];
                assert(self.same_layout_at(before, m));
            }
        }
    }

    /// The layout of `id` is as in `before`.
    pub open spec fn same_layout_at(&self, before: Self, id: NodeId) -> bool {
        &&& self.root_of(id) == before.root_of(id)
        &&& self.pos(id) == before.pos(id)
        &&& self.lo(id) == before.lo(id)
        &&& self.hi(id) == before.hi(id)
    }

    /// The node `id` is there and has the links it had in `before`.
    pub open spec fn same_links_at(&self, before: Self, id: NodeId) -> bool {
        &&& self.present(id)
        &&& self.parent_of(id) == before.parent_of(id)
        &&& self.child_of(id, 0) == before.child_of(id, 0)
        &&& self.child_of(id, 1) == before.child_of(id, 1)
    }

    /// The forest has the nodes, the links and the layout of `before`; values
    /// and cached aggregates may differ.
    pub open spec fn same_shape(&self, before: Self) -> bool {
        &&& self.len() == before.len()
        &&& self.arrangement() == before.arrangement()
        &&& forall|id: NodeId| self.contains(id) ==> #[trigger] self.same_links_at(before, id)
    }

    /// Whatever has the shape of a well-shaped forest is well shaped.
    pub(crate) proof fn lemma_same_shape(&self, before: Self)
        requires
            before.shape_wf(),
            self.same_shape(before),
        ensures
            self.shape_wf(),
    {
        assert forall|id: NodeId| self.contains(id) implies #[trigger] self.shape_ok(id) by {
            assert(before.shape_ok(id));
            assert(self.same_links_at(before, id));
            assert forall|dir: int| 0 <= dir < 2 implies match #[trigger] self.child_of(id, dir) {
                Some(c) => self.contains(c) && self.parent_of(c) == Some(Parent::link(id, dir)),
                None => true,
            } by {
                assert(before.child_of(id, dir) == self.child_of(id, dir));
                if self.child_of(id, dir) is Some {
                    assert(self.same_links_at(before, self.child_of(id, dir).unwrap()));
                }
            }
            if self.parent_of(id) is Some {
                assert(self.same_links_at(before, self.parent_of(id).unwrap().holder()));
            }
            assert(self.same_links_at(before, before.root_of(id)));
            if self.parent_of(id) is None {
                assert forall|index: int| 0 <= index < self.order(id).len() implies #[trigger] self.entry_ok(
                    id,
                    index,
                ) by {
                    assert(before.entry_ok(id, index));
                }
            }
        }
    }

    /// An empty forest.
    pub fn new() -> (forest: Self)
        ensures
            forest.wf(),
            forest.len() == 0,
    {
        Forest {
            slots: Vec::new(),
            layout: Ghost(
                Layout {
                    root: Seq::empty(),
                    pos: Seq::empty(),
                    lo: Seq::empty(),
                    hi: Seq::empty(),
                    order: Seq::empty(),
                },
            ),
            hook: PhantomData,
        }
    }

    /// Adds a node that holds `value` and stands alone.
    pub fn new_node(&mut self, value: T) -> (id: NodeId)
        requires
            old(self).wf(),
        ensures
            final(self).wf(),
            final(self).added_from(*old(self), id, value),
            old(self).augmented() && H::eval_spec(value, None, None) == value
                ==> final(self).augmented(),
    {
        let id = NodeId(self.slots.len());
        self.slots.push(Some(Node::new(value)));
        self.layout = Ghost(
            Layout {
                root: self.arrangement().root.push(id),
                pos: self.arrangement().pos.push(0),
                lo: self.arrangement().lo.push(0),
                hi: self.arrangement().hi.push(1),
                order: self.arrangement().order.push(seq![id]),
            },
        );
        proof {
            let before = *old(self);
            assert forall|other: NodeId| self.contains(other) implies #[trigger] self.shape_ok(
                other,
            ) by {
                if other == id {
                    assert(self.entry_ok(id, 0));
                } else {
                    assert(before.shape_ok(other));
                    let root = before.root_of(other);
                    assert(before.shape_ok(root));
                    assert forall|index: int| 0 <= index < before.order(root).len() implies
                        self.same_layout_at(before, #[trigger] before.order(root)[index]) by {
                        assert(before.entry_ok(root, index));
                    }
                    self.lemma_same_node_ok(before, other);
                }
            }
            assert forall|other: NodeId| self.contains(other) implies #[trigger] self.cache_ok(
                other,
            ) by {
                if other != id {
                    assert(before.shape_ok(other));
                    assert(before.cache_ok(other));
                }
            }
            assert(self.inorder(id) =~= seq![id]);
            assert forall|other: NodeId| before.contains(other) implies #[trigger] self.node(other)
                == before.node(other) && self.inorder(other) == before.inorder(other)
                && self.root_of(other) == before.root_of(other) by {
                assert(before.shape_ok(other));
            }
            if before.augmented() && H::eval_spec(value, None, None) == value {
                assert forall|other: NodeId| self.contains(other) implies #[trigger] self.settled(
                    other,
                ) by {
                    if other != id {
                        assert(before.settled(other));
                        assert(before.shape_ok(other));
                    }
                }
            }
        }
        id
    }

    /// Whether `id` names a node of this forest.
    pub fn has(&self, id: NodeId) -> (known: bool)
        ensures
            known == self.contains(id),
    {
        id.0 < self.slots.len()
    }

    /// The node behind a handle.
    pub(crate) fn node_ref(&self, id: NodeId) -> (node: &Node<T>)
        requires
            self.contains(id),
            self.present(id),
        ensures
            *node == self.node(id),
    {
        self.slots[id.0].as_ref().unwrap()
    }

    /// The node behind a handle.
    pub fn get(&self, id: NodeId) -> (node: &Node<T>)
        requires
            self.wf(),
            self.contains(id),
        ensures
            *node == self.node(id),
    {
        proof {
            assert(self.shape_ok(id));
        }
        self.node_ref(id)
    }

    /// The link of `id` to its parent, if it has one.
    pub fn parent(&self, id: NodeId) -> (link: Option<Parent>)
        requires
            self.wf(),
            self.contains(id),
        ensures
            link == self.parent_of(id),
    {
        self.get(id).parent
    }

    /// Whether `id` has no parent.
    pub fn is_root(&self, id: NodeId) -> (root: bool)
        requires
            self.wf(),
            self.contains(id),
        ensures
            root == (self.parent_of(id) is None),
    {
        self.get(id).parent.is_none()
    }

    /// The child of `id` in direction `dir`, if there is one.
    pub fn child(&self, id: NodeId, dir: usize) -> (child: Option<NodeId>)
        requires
            self.wf(),
            self.contains(id),
            dir < 2,
        ensures
            child == self.child_of(id, dir as int),
    {
        self.get(id).children[dir]
    }

    /// The number of nodes in the subtree below `id`, `id` included.
    pub fn size(&self, id: NodeId) -> (size: usize)
        requires
            self.wf(),
            self.contains(id),
        ensures
            size == self.size_of(id),
            size == self.inorder(id).len(),
    {
        proof {
            assert(self.cache_ok(id));
            self.lemma_inorder_unfolds(id);
        }
        self.get(id).size
    }

    /// The height of the subtree below `id`: 1 for a leaf.
    pub fn depth(&self, id: NodeId) -> (depth: usize)
        requires
            self.wf(),
            self.contains(id),
        ensures
            depth == self.depth_of(id),
    {
        self.get(id).depth
    }

    /// The value that `id` holds.
    pub fn value(&self, id: NodeId) -> (value: &T)
        requires
            self.wf(),
            self.contains(id),
        ensures
            *value == self.value_of(id),
    {
        &self.get(id).value
    }

    /// `self` is `before` but for the value of `id`, which is `value`.
    pub open spec fn revalued_from(&self, before: Self, id: NodeId, value: T) -> bool {
        &&& self.same_shape(before)
        &&& self.size_of(id) == before.size_of(id)
        &&& self.depth_of(id) == before.depth_of(id)
        &&& self.value_of(id) == value
        &&& forall|other: NodeId|
            self.contains(other) && other != id ==> #[trigger] self.node(other) == before.node(
                other,
            )
    }

    /// A change of one value keeps a forest well formed.
    pub(crate) proof fn lemma_revalued(&self, before: Self, id: NodeId, value: T)
        requires
            before.wf(),
            before.contains(id),
            self.len() == before.len(),
            self.arrangement() == before.arrangement(),
            self.slots@ == before.slots@.update(
                id.0 as int,
                Some(Node { value, ..before.node(id) }),
            ),
        ensures
            self.revalued_from(before, id, value),
            self.wf(),
    {
        assert forall|other: NodeId| self.contains(other) implies #[trigger] self.same_links_at(
            before,
            other,
        ) by {
            assert(before.shape_ok(other));
        }
        self.lemma_same_shape(before);
        assert forall|other: NodeId| self.contains(other) implies #[trigger] self.cache_ok(
            other,
        ) by {
            assert(before.cache_ok(other));
            assert(before.shape_ok(other));
            if before.child_of(other, 0) is Some {
                assert(before.links_ok(other));
            }
        }
    }

    /// Mutable access to the value that `id` holds.  The shape and the cached
    /// sizes and depths stay as they are.
    pub fn value_mut(&mut self, id: NodeId) -> (value: &mut T)
        requires
            old(self).wf(),
            old(self).contains(id),
        ensures
            *value == old(self).value_of(id),
            final(self).revalued_from(*old(self), id, *final(value)),
            final(self).wf(),
    {
        proof {
            assert(self.shape_ok(id));
        }
        let ghost before = *self;
        let ghost after = *final(self);
        let node = self.slots[id.0].as_mut().unwrap();
        let value = &mut node.value;
        proof {
            after.lemma_revalued(before, id, *final(value));
        }
        value
    }
}

} // verus!
