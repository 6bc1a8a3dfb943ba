//! Patches: a graph of nodes and wires, and the document that stores it.

pub mod document;
pub mod laws;
pub mod types;
pub mod validate;
