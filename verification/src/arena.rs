//! Slot storage for the nodes of a list.
//!
//! A node is addressed by its handle, the index of the slot that holds it.
//! A vacated slot is left as a tombstone and its index is kept for reuse, so
//! a removed node is released at once and its storage is handed to the next
//! node that is inserted.

use vstd::prelude::*;
use crate::node::Node;

verus! {

pub(crate) struct Arena<T: Copy> {
    /// `Some` for a slot that holds a node, `None` for a tombstone.
    slots: Vec<Option<Node<T>>>,
    /// The indices of the tombstones, each exactly once.
    vacant: Vec<usize>,
}

impl<T: Copy> View for Arena<T> {
    type V = Map<usize, Node<T>>;

    /// The live nodes by handle.
    closed spec fn view(&self) -> Map<usize, Node<T>> {
        Map::new(
            |h: usize| h < self.slots@.len() && self.slots@[h as int] is Some,
            |h: usize| self.slots@[h as int]->0,
        )
    }
}

impl<T: Copy> Arena<T> {
    /// Slot `h` exists and holds a tombstone.
    spec fn vacated(&self, h: usize) -> bool {
        h < self.slots@.len() && self.slots@[h as int] is None
    }

    /// The vacancy list names the tombstones, all of them and nothing else.
    pub(crate) closed spec fn wf(&self) -> bool {
        &&& self.vacant@.no_duplicates()
        &&& forall|k: int| 0 <= k < self.vacant@.len() ==> self.vacated(#[trigger] self.vacant@[k])
        &&& forall|h: usize| #[trigger] self.vacated(h) ==> self.vacant@.contains(h)
    }

    /// An arena without nodes.
    pub(crate) fn new() -> (arena: Self)
        ensures
            arena.wf(),
            arena@ == Map::<usize, Node<T>>::empty(),
    {
        Arena { slots: Vec::new(), vacant: Vec::new() }
    }

    /// Stores `node` and returns the handle under which it now lives. The
    /// handle named no live node before the call.
    pub(crate) fn insert(&mut self, node: Node<T>) -> (handle: usize)
        requires
            old(self).wf(),
        ensures
            final(self).wf(),
            !old(self)@.dom().contains(handle),
            final(self)@ == old(self)@.insert(handle, node),
    {
        match self.vacant.pop() {
            Some(handle) => {
                self.slots[handle] = Some(node);
                proof {
                    let before = old(self).vacant@;
                    assert forall|h: usize| #[trigger] self.vacated(h) implies self.vacant@.contains(
                        h,
                    ) by {
                        assert(old(self).vacated(h));
                        let k = choose|k: int| 0 <= k < before.len() && before[k] == h;
                        assert(self.vacant@[k] == h);
                    }
                }
                handle
            },
            None => {
                let handle = self.slots.len();
                self.slots.push(Some(node));
                proof {
                    assert forall|h: usize| #[trigger] self.vacated(h) implies self.vacant@.contains(
                        h,
                    ) by {
                        assert(old(self).vacated(h));
                    }
                }
                handle
            },
        }
    }

    /// Takes the node under `handle` out of the arena and vacates its slot.
    pub(crate) fn remove(&mut self, handle: usize) -> (node: Node<T>)
        requires
            old(self).wf(),
            old(self)@.dom().contains(handle),
        ensures
            final(self).wf(),
            node == old(self)@[handle],
            final(self)@ == old(self)@.remove(handle),
    {
        let node = self.slots[handle].take().unwrap();
        self.vacant.push(handle);
        proof {
            let before = old(self).vacant@;
            assert forall|h: usize| #[trigger] self.vacated(h) implies self.vacant@.contains(h) by {
                if h == handle {
                    assert(self.vacant@[before.len() as int] == handle);
                } else {
                    assert(old(self).vacated(h));
                    let k = choose|k: int| 0 <= k < before.len() && before[k] == h;
                    assert(self.vacant@[k] == h);
                }
            }
        }
        node
    }

    /// Replaces the forward link of the node under `handle`.
    pub(crate) fn set_next(&mut self, handle: usize, next: Option<usize>)
        requires
            old(self).wf(),
            old(self)@.dom().contains(handle),
        ensures
            final(self).wf(),
            final(self)@ == old(self)@.insert(handle, (Node { next, ..old(self)@[handle] })),
    {
        if let Some(node) = &mut self.slots[handle] {
            node.next = next;
        }
        proof {
            assert forall|h: usize| #[trigger] self.vacated(h) implies self.vacant@.contains(h) by {
                assert(old(self).vacated(h));
            }
        }
    }

    /// Replaces the backward link of the node under `handle`.
    pub(crate) fn set_prev(&mut self, handle: usize, prev: Option<usize>)
        requires
            old(self).wf(),
            old(self)@.dom().contains(handle),
        ensures
            final(self).wf(),
            final(self)@ == old(self)@.insert(handle, (Node { prev, ..old(self)@[handle] })),
    {
        if let Some(node) = &mut self.slots[handle] {
            node.prev = prev;
        }
        proof {
            assert forall|h: usize| #[trigger] self.vacated(h) implies self.vacant@.contains(h) by {
                assert(old(self).vacated(h));
            }
        }
    }
}

} // verus!
