//! One element of a list together with its two adjacency links.

use vstd::prelude::*;

verus! {

/// A single element container. `next` names the node that follows and keeps
/// it in the chain; `prev` names the node that precedes and merely observes
/// it. Either link is absent at the corresponding end of the chain.
pub struct Node<T: Copy> {
    pub value: T,
    pub next: Option<usize>,
    pub prev: Option<usize>,
}

impl<T: Copy> Node<T> {
    /// A node that holds `value` and is linked to nothing.
    pub fn new(value: T) -> (node: Self)
        ensures
            node.value == value,
            node.next is None,
            node.prev is None,
    {
        Node { value, next: None, prev: None }
    }
}

} // verus!
