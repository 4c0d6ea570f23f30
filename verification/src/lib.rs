//! A generic prefix tree that maps sequences of key elements to values and
//! answers longest-match queries.
//!
//! Every node holds a single key element; there is no path compression.

pub mod equality;
pub mod laws;
pub mod model;
pub mod node;

pub use node::ErrType;
pub use node::Trie;
