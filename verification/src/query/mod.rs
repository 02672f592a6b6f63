//! The query engine: cached computations that are redone only where
//! something that they depend on has changed.
pub mod assoc;
pub mod cache;
pub mod dep_graph;
pub mod engine;
pub mod job;
pub mod laws;
pub mod lru;
pub mod message;
pub mod node_set;
pub mod provider;
pub mod system;
pub mod vtable;
