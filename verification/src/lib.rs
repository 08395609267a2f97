//! Adapter and serializer for a streaming HTML parsing pipeline.
//!
//! The crate models a document tree as an arena of nodes, drives a
//! streaming tokenizer/tree-builder session through a small state
//! machine, and serializes a subtree back into a stream of markup
//! events with an explicit, verified traversal.

pub mod dom;
pub mod driver;
pub mod emit;
pub mod laws;
pub mod serialize;
