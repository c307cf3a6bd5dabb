//! An adaptive radix tree: an ordered, in-memory index from byte-string keys
//! to `u64` values, with path compression and four inner-node size classes.
//!
//! The mathematical model of a tree is [`tree::Tree`]; every executable
//! operation is specified against it, and the laws that relate the
//! operations to each other are proved in [`laws`].

pub mod art;
pub mod bytes;
pub mod cell;
pub mod laws;
pub mod node;
pub mod node256;
pub mod node48;
pub mod static_node;
pub mod tree;

pub use art::Art;
pub use cell::Cell;
pub use node::InnerNode;
pub use node::Node;
