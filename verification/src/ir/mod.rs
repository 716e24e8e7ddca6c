//! Serializable snapshot of a model, and the passes that build and run it.

pub mod builder;
pub mod eval;
pub mod graph;
pub mod laws;
pub mod links;
pub mod schema;
pub mod sameness;
pub mod scope;
pub mod tables;
