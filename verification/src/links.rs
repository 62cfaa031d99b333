//! Writing single links.  These leave a forest in a state that is not well
//! shaped; the operations that use them restore the shape before they
//! return.

use vstd::prelude::*;
use crate::forest::Forest;
use crate::helper::Helper;
use crate::node::NodeId;
use crate::parent::Parent;

verus! {

impl<T, H: Helper<T>> Forest<T, H> {
    /// Every node is there.
    pub open(crate) spec fn filled(&self) -> bool {
        forall|index: int| 0 <= index < self.len() ==> (#[trigger] self.slots[index]) is Some
    }

    /// `self` is `before` but for the links of `id`, which are as given.
    pub open(crate) spec fn relinked_from(
        &self,
        before: Self,
        id: NodeId,
        parent: Option<Parent>,
        left: Option<NodeId>,
        right: Option<NodeId>,
    ) -> bool {
        &&& self.filled()
        &&& self.len() == before.len()
        &&& self.arrangement() == before.arrangement()
        &&& self.parent_of(id) == parent
        &&& self.child_of(id, 0) == left
        &&& self.child_of(id, 1) == right
        &&& self.node(id).size == before.node(id).size
        &&& self.node(id).depth == before.node(id).depth
        &&& self.node(id).value == before.node(id).value
        &&& forall|index: int|
            0 <= index < self.len() && index != id.0 ==> #[trigger] self.slots[index]
                == before.slots[index]
    }

    /// Writes the parent link of `id`.
    pub(crate) fn write_parent(&mut self, id: NodeId, link: Option<Parent>)
        requires
            old(self).filled(),
            old(self).contains(id),
        ensures
            final(self).relinked_from(
                *old(self),
                id,
                link,
                old(self).child_of(id, 0),
                old(self).child_of(id, 1),
            ),
    {
        let mut node = self.slots[id.0].take().unwrap();
        node.parent = link;
        self.slots[id.0] = Some(node);
    }

    /// Writes the child slot `dir` of `id`.
    pub(crate) fn write_child(&mut self, id: NodeId, dir: usize, child: Option<NodeId>)
        requires
            old(self).filled(),
            old(self).contains(id),
            dir < 2,
        ensures
            final(self).relinked_from(
                *old(self),
                id,
                old(self).parent_of(id),
                if dir == 0 {
                    child
                } else {
                    old(self).child_of(id, 0)
                },
                if dir == 1 {
                    child
                } else {
                    old(self).child_of(id, 1)
                },
            ),
    {
        let mut node = self.slots[id.0].take().unwrap();
        node.children[dir] = child;
        self.slots[id.0] = Some(node);
    }
}

} // verus!
