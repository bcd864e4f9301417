//! A generic doubly-linked list with constant-time insertion and removal at
//! both ends.
//!
//! Nodes live in an arena; a node is named by its handle, the index of its
//! slot. The forward link of a node is the owning one: a node stays in the
//! arena exactly as long as the chain that starts at the head reaches it.
//! The backward link only observes its target.

mod arena;
pub mod laws;
pub mod list;
pub mod model;
pub mod node;

pub use list::List;
pub use model::End;
pub use node::Node;
