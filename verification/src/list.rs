//! The list: a chain of nodes with a handle to each end.

use vstd::prelude::*;
use crate::arena::Arena;
use crate::model::{inserted, remainder, taken, End};
use crate::node::Node;

verus! {

/// A doubly-linked list of small copyable values.
///
/// `head` and `tail` name the first and the last node; both are absent
/// exactly when the list is empty, and both name the same node when it holds
/// one element. As a value the list is the sequence of its elements, first
/// element at index 0.
pub struct List<T: Copy> {
    arena: Arena<T>,
    head: Option<usize>,
    tail: Option<usize>,
    /// The handles of the nodes in the order of the chain, head first.
    chain: Ghost<Seq<usize>>,
}

/// The forward link of the node at position `i` of `chain`:
/// the handle that follows, absent at the last position.
pub open spec fn successor(chain: Seq<usize>, i: int) -> Option<usize> {
    if i + 1 < chain.len() {
        Some(chain[i + 1])
    } else {
        None
    }
}

/// The backward link of the node at position `i` of `chain`:
/// the handle that precedes, absent at the first position.
pub open spec fn predecessor(chain: Seq<usize>, i: int) -> Option<usize> {
    if 0 < i {
        Some(chain[i - 1])
    } else {
        None
    }
}

impl<T: Copy> View for List<T> {
    type V = Seq<T>;

    closed spec fn view(&self) -> Seq<T> {
        Seq::new(self.chain@.len(), |i: int| self.arena@[self.chain@[i]].value)
    }
}

impl<T: Copy> List<T> {
    /// The node at position `i` of the chain is live and carries the links
    /// to its two neighbours.
    spec fn linked(&self, i: int) -> bool {
        let node = self.arena@[self.chain@[i]];
        &&& self.arena@.dom().contains(self.chain@[i])
        &&& node.next == successor(self.chain@, i)
        &&& node.prev == predecessor(self.chain@, i)
    }

    /// The structural invariant: the nodes form one chain from `head` to
    /// `tail` that visits each live node exactly once, every backward link
    /// mirrors the forward link into its node, and the arena holds no node
    /// outside the chain.
    pub closed spec fn wf(&self) -> bool {
        let chain = self.chain@;
        &&& self.arena.wf()
        &&& chain.no_duplicates()
        &&& forall|i: int| 0 <= i < chain.len() ==> #[trigger] self.linked(i)
        &&& forall|h: usize| #[trigger] self.arena@.dom().contains(h) ==> chain.contains(h)
        &&& self.head == if chain.len() == 0 { None } else { Some(chain.first()) }
        &&& self.tail == if chain.len() == 0 { None } else { Some(chain.last()) }
    }

    /// An empty list.
    pub fn new() -> (list: Self)
        ensures
            list.wf(),
            list@ == Seq::<T>::empty(),
            list.handles() == Seq::<usize>::empty(),
    {
        List { arena: Arena::new(), head: None, tail: None, chain: Ghost(Seq::empty()) }
    }

    /// Inserts `value` as the new first element.
    ///
    /// A node is created for it under a handle that named no node before.
    /// It becomes the head and the former head, if there was one, follows
    /// it; in an empty list it becomes the tail as well. Every other node
    /// keeps its handle and its place.
    pub fn push_front(&mut self, value: T)
        requires
            old(self).wf(),
        ensures
            final(self).wf(),
            final(self)@ == inserted(old(self)@, End::Front, value),
            final(self).handles().len() == old(self).handles().len() + 1,
            final(self).handles().drop_first() == old(self).handles(),
            old(self).node(final(self).handles().first()) is None,
    {
        let mut node = Node::new(value);
        match self.head.take() {
            None => {
                let handle = self.arena.insert(node);
                self.head = Some(handle);
                self.tail = self.head;
                proof {
                    self.chain@ = seq![handle];
                }
            },
            Some(current_head) => {
                assert(old(self).linked(0));
                node.next = Some(current_head);
                let handle = self.arena.insert(node);
                self.head = Some(handle);
                self.arena.set_prev(current_head, Some(handle));
                proof {
                    let before = old(self).chain@;
                    self.chain@ = seq![handle] + before;
                    let after = self.chain@;
                    assert forall|i: int| 0 <= i < before.len() implies before[i] != handle by {
                        assert(old(self).linked(i));
                    }
                    assert forall|i: int| 0 <= i < after.len() implies #[trigger] self.linked(i) by {
                        if i >= 1 {
                            assert(old(self).linked(i - 1));
                        }
                    }
                    assert forall|h: usize| #[trigger]
                        self.arena@.dom().contains(h) implies after.contains(h) by {
                        if h != handle {
                            let k = choose|k: int| 0 <= k < before.len() && before[k] == h;
                            assert(after[k + 1] == h);
                        }
                    }
                }
            },
        }
    }

    /// Inserts `value` as the new last element.
    ///
    /// A node is created for it under a handle that named no node before.
    /// It becomes the tail and follows the former tail, if there was one;
    /// in an empty list it becomes the head as well. Every other node keeps
    /// its handle and its place.
    pub fn push_back(&mut self, value: T)
        requires
            old(self).wf(),
        ensures
            final(self).wf(),
            final(self)@ == inserted(old(self)@, End::Back, value),
            final(self).handles().len() == old(self).handles().len() + 1,
            final(self).handles().drop_last() == old(self).handles(),
            old(self).node(final(self).handles().last()) is None,
    {
        let mut node = Node::new(value);
        match self.tail.take() {
            None => {
                let handle = self.arena.insert(node);
                self.head = Some(handle);
                self.tail = self.head;
                proof {
                    self.chain@ = seq![handle];
                }
            },
            Some(current_tail) => {
                assert(old(self).linked(old(self).chain@.len() - 1));
                node.prev = Some(current_tail);
                let handle = self.arena.insert(node);
                self.tail = Some(handle);
                self.arena.set_next(current_tail, self.tail);
                proof {
                    let before = old(self).chain@;
                    self.chain@ = before.push(handle);
                    let after = self.chain@;
                    assert forall|i: int| 0 <= i < before.len() implies before[i] != handle by {
                        assert(old(self).linked(i));
                    }
                    assert forall|i: int| 0 <= i < after.len() implies #[trigger] self.linked(i) by {
                        if i < before.len() {
                            assert(old(self).linked(i));
                        }
                    }
                    assert forall|h: usize| #[trigger]
                        self.arena@.dom().contains(h) implies after.contains(h) by {
                        if h != handle {
                            let k = choose|k: int| 0 <= k < before.len() && before[k] == h;
                            assert(after[k] == h);
                        }
                    }
                }
            },
        }
    }

    /// Removes the first element and returns its value; on an empty list
    /// returns `None` and changes nothing.
    ///
    /// The node that held the element is released at once: its handle
    /// resolves to nothing afterwards. The node that followed it, if there
    /// was one, becomes the head; otherwise the list is empty.
    pub fn pop_front(&mut self) -> (value: Option<T>)
        requires
            old(self).wf(),
        ensures
            final(self).wf(),
            value == taken(old(self)@, End::Front),
            final(self)@ == remainder(old(self)@, End::Front),
            final(self).handles() == remainder(old(self).handles(), End::Front),
            old(self).head_handle() matches Some(removed) ==> final(self).node(removed) is None,
            old(self)@.len() == 0 ==> *final(self) == *old(self),
    {
        match self.head.take() {
            None => None,
            Some(head) => {
                assert(old(self).linked(0));
                let node = self.arena.remove(head);
                match node.next {
                    None => {
                        self.tail.take();
                    },
                    Some(next) => {
                        assert(old(self).linked(1));
                        self.arena.set_prev(next, None);
                        self.head = Some(next);
                    },
                }
                proof {
                    let before = old(self).chain@;
                    self.chain@ = before.drop_first();
                    let after = self.chain@;
                    assert forall|i: int| 0 <= i < after.len() implies #[trigger] self.linked(i) by {
                        assert(old(self).linked(i + 1));
                    }
                    assert forall|h: usize| #[trigger]
                        self.arena@.dom().contains(h) implies after.contains(h) by {
                        let k = choose|k: int| 0 <= k < before.len() && before[k] == h;
                        assert(after[k - 1] == h);
                    }
                }
                Some(node.value)
            },
        }
    }

    /// Removes the last element and returns its value; on an empty list
    /// returns `None` and changes nothing.
    ///
    /// The node that held the element is released at once: its handle
    /// resolves to nothing afterwards. The node that preceded it, if there
    /// was one, becomes the tail; otherwise the list is empty.
    pub fn pop_back(&mut self) -> (value: Option<T>)
        requires
            old(self).wf(),
        ensures
            final(self).wf(),
            value == taken(old(self)@, End::Back),
            final(self)@ == remainder(old(self)@, End::Back),
            final(self).handles() == remainder(old(self).handles(), End::Back),
            old(self).tail_handle() matches Some(removed) ==> final(self).node(removed) is None,
            old(self)@.len() == 0 ==> *final(self) == *old(self),
    {
        match self.tail.take() {
            None => None,
            Some(tail) => {
                let ghost last = old(self).chain@.len() - 1;
                assert(old(self).linked(last));
                let node = self.arena.remove(tail);
                match node.prev {
                    None => {
                        self.head.take();
                    },
                    Some(prev) => {
                        // The backward link observes a node that the chain
                        // from the head still owns, so it resolves.
                        assert(old(self).linked(last - 1));
                        self.arena.set_next(prev, None);
                        self.tail = Some(prev);
                    },
                }
                proof {
                    let before = old(self).chain@;
                    self.chain@ = before.drop_last();
                    let after = self.chain@;
                    assert forall|i: int| 0 <= i < after.len() implies #[trigger] self.linked(i) by {
                        assert(old(self).linked(i));
                    }
                    assert forall|h: usize| #[trigger]
                        self.arena@.dom().contains(h) implies after.contains(h) by {
                        let k = choose|k: int| 0 <= k < before.len() && before[k] == h;
                        assert(after[k] == h);
                    }
                }
                Some(node.value)
            },
        }
    }
}

/// The shape of the chain, as far as a client may reason about it.
impl<T: Copy> List<T> {
    /// The handles of the nodes in the order of the chain, first node at
    /// index 0. A node keeps its handle for as long as it is in the list.
    pub closed spec fn handles(&self) -> Seq<usize> {
        self.chain@
    }

    /// The handle of the first node; absent for an empty list.
    pub closed spec fn head_handle(&self) -> Option<usize> {
        self.head
    }

    /// The handle of the last node; absent for an empty list.
    pub closed spec fn tail_handle(&self) -> Option<usize> {
        self.tail
    }

    /// Resolves `handle`: the live node that it names, or nothing where the
    /// node has been removed or never existed.
    pub closed spec fn node(&self, handle: usize) -> Option<Node<T>> {
        if self.arena@.dom().contains(handle) {
            Some(self.arena@[handle])
        } else {
            None
        }
    }

    /// One step along the forward link from the node at `at`.
    pub open spec fn step_next(&self, at: Option<usize>) -> Option<usize> {
        match at {
            Some(handle) => match self.node(handle) {
                Some(node) => node.next,
                None => None,
            },
            None => None,
        }
    }

    /// One step along the backward link from the node at `at`.
    pub open spec fn step_prev(&self, at: Option<usize>) -> Option<usize> {
        match at {
            Some(handle) => match self.node(handle) {
                Some(node) => node.prev,
                None => None,
            },
            None => None,
        }
    }

    /// Where `steps` forward steps from `from` lead.
    pub open spec fn walk_next(&self, from: Option<usize>, steps: nat) -> Option<usize>
        decreases steps,
    {
        if steps == 0 {
            from
        } else {
            self.step_next(self.walk_next(from, (steps - 1) as nat))
        }
    }

    /// Where `steps` backward steps from `from` lead.
    pub open spec fn walk_prev(&self, from: Option<usize>, steps: nat) -> Option<usize>
        decreases steps,
    {
        if steps == 0 {
            from
        } else {
            self.step_prev(self.walk_prev(from, (steps - 1) as nat))
        }
    }

    /// The handles account for the whole structure: there is one per
    /// element and none occurs twice; the ends are the first and the last of
    /// them; exactly the handles resolve to a node; and the node at position
    /// `i` holds the element at index `i` and the handles of its two
    /// neighbours.
    pub proof fn law_handles_describe_the_chain(&self)
        requires
            self.wf(),
        ensures
            self.handles().len() == self@.len(),
            self.handles().no_duplicates(),
            self.head_handle() == (if self@.len() == 0 {
                None
            } else {
                Some(self.handles().first())
            }),
            self.tail_handle() == (if self@.len() == 0 {
                None
            } else {
                Some(self.handles().last())
            }),
            forall|h: usize| #[trigger] self.node(h) is Some <==> self.handles().contains(h),
            forall|i: int|
                0 <= i < self@.len() ==> #[trigger] self.node(self.handles()[i]) == Some(
                    (Node {
                        value: self@[i],
                        next: successor(self.handles(), i),
                        prev: predecessor(self.handles(), i),
                    }),
                ),
    {
        assert forall|h: usize| self.handles().contains(h) implies #[trigger] self.node(
            h,
        ) is Some by {
            let i = choose|i: int| 0 <= i < self.chain@.len() && self.chain@[i] == h;
            assert(self.linked(i));
        }
        assert forall|i: int| 0 <= i < self@.len() implies #[trigger] self.node(
            self.handles()[i],
        ) == Some(
            Node {
                value: self@[i],
                next: successor(self.handles(), i),
                prev: predecessor(self.handles(), i),
            },
        ) by {
            assert(self.linked(i));
        }
    }

    /// `k` forward steps from the head lead to the node at position `k`.
    proof fn lemma_walk_next(&self, k: nat)
        requires
            self.wf(),
            k < self.chain@.len(),
        ensures
            self.walk_next(self.head, k) == Some(self.chain@[k as int]),
        decreases k,
    {
        if k > 0 {
            self.lemma_walk_next((k - 1) as nat);
            assert(self.linked(k - 1));
        }
    }

    /// `k` backward steps from the tail lead to the node at position `k`,
    /// counted from the end.
    proof fn lemma_walk_prev(&self, k: nat)
        requires
            self.wf(),
            k < self.chain@.len(),
        ensures
            self.walk_prev(self.tail, k) == Some(self.chain@[self.chain@.len() - 1 - k]),
        decreases k,
    {
        if k > 0 {
            self.lemma_walk_prev((k - 1) as nat);
            assert(self.linked(self.chain@.len() - k));
        }
    }

    /// A list is empty exactly when it has no head, and exactly when it has
    /// no tail.
    pub proof fn law_ends_present_together(&self)
        requires
            self.wf(),
        ensures
            self@.len() == 0 <==> self.head_handle() is None,
            self@.len() == 0 <==> self.tail_handle() is None,
    {
    }

    /// In a list of `n >= 1` elements, `n - 1` forward steps from the head
    /// reach the tail, and no fewer do; `n - 1` backward steps from the tail
    /// reach the head, and no fewer do. Nothing follows the tail and nothing
    /// precedes the head.
    pub proof fn law_walks_meet_the_ends(&self)
        requires
            self.wf(),
            self@.len() > 0,
        ensures
            self.walk_next(self.head_handle(), (self@.len() - 1) as nat) == self.tail_handle(),
            self.walk_prev(self.tail_handle(), (self@.len() - 1) as nat) == self.head_handle(),
            forall|k: nat|
                k < self@.len() - 1 ==> #[trigger] self.walk_next(self.head_handle(), k)
                    != self.tail_handle(),
            forall|k: nat|
                k < self@.len() - 1 ==> #[trigger] self.walk_prev(self.tail_handle(), k)
                    != self.head_handle(),
            self.step_next(self.tail_handle()) is None,
            self.step_prev(self.head_handle()) is None,
    {
        let n = self.chain@.len();
        self.lemma_walk_next((n - 1) as nat);
        self.lemma_walk_prev((n - 1) as nat);
        assert forall|k: nat| k < n - 1 implies #[trigger] self.walk_next(self.head_handle(), k)
            != self.tail_handle() by {
            self.lemma_walk_next(k);
        }
        assert forall|k: nat| k < n - 1 implies #[trigger] self.walk_prev(self.tail_handle(), k)
            != self.head_handle() by {
            self.lemma_walk_prev(k);
        }
        assert(self.linked(n - 1));
        assert(self.linked(0));
    }

    /// The node reached by `k` forward steps from the head is live and holds
    /// the element at index `k`; so does the node reached by `k` backward
    /// steps from the tail for the element at index `k` from the end.
    pub proof fn law_walk_finds_element(&self, k: nat)
        requires
            self.wf(),
            k < self@.len(),
        ensures
            self.walk_next(self.head_handle(), k) matches Some(handle) && self.node(
                handle,
            ) matches Some(node) && node.value == self@[k as int],
            self.walk_prev(self.tail_handle(), k) matches Some(handle) && self.node(
                handle,
            ) matches Some(node) && node.value == self@[self@.len() - 1 - k],
    {
        self.lemma_walk_next(k);
        self.lemma_walk_prev(k);
        assert(self.linked(k as int));
        assert(self.linked(self.chain@.len() - 1 - k));
    }

    /// The backward links mirror the forward links: `a` is followed by `b`
    /// exactly when `b` is preceded by `a`.
    pub proof fn law_links_mirror(&self, a: usize, b: usize)
        requires
            self.wf(),
        ensures
            self.step_next(Some(a)) == Some(b) <==> self.step_prev(Some(b)) == Some(a),
    {
        if self.step_next(Some(a)) == Some(b) {
            let i = choose|i: int| 0 <= i < self.chain@.len() && self.chain@[i] == a;
            assert(self.linked(i));
            assert(self.linked(i + 1));
        }
        if self.step_prev(Some(b)) == Some(a) {
            let j = choose|j: int| 0 <= j < self.chain@.len() && self.chain@[j] == b;
            assert(self.linked(j));
            assert(self.linked(j - 1));
        }
    }

    /// Every live node lies on the chain, at exactly one distance from the
    /// head: no node is kept that the head does not reach, and the chain
    /// visits no node twice.
    pub proof fn law_chain_holds_every_node(&self, handle: usize)
        requires
            self.wf(),
            self.node(handle) is Some,
        ensures
            exists|k: nat|
                k < self@.len() && #[trigger] self.walk_next(self.head_handle(), k) == Some(
                    handle,
                ),
            forall|j: nat, k: nat|
                j < self@.len() && k < self@.len() && #[trigger] self.walk_next(
                    self.head_handle(),
                    j,
                ) == Some(handle) && #[trigger] self.walk_next(self.head_handle(), k) == Some(
                    handle,
                ) ==> j == k,
    {
        let i = choose|i: int| 0 <= i < self.chain@.len() && self.chain@[i] == handle;
        self.lemma_walk_next(i as nat);
        assert forall|j: nat, k: nat|
            j < self@.len() && k < self@.len() && #[trigger] self.walk_next(
                self.head_handle(),
                j,
            ) == Some(handle) && #[trigger] self.walk_next(self.head_handle(), k) == Some(
                handle,
            ) implies j == k by {
            self.lemma_walk_next(j);
            self.lemma_walk_next(k);
        }
    }
}

} // verus!
