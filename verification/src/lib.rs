//! Verified core of a static analyser: the octagon abstract domain, borrow
//! facts and rules, name resolution, loop problems and the query engine.
pub mod ast;
pub mod gather;
pub mod hir;
pub mod keyset;
pub mod list;
pub mod loops;
pub mod octagon;
pub mod place;
pub mod polonius;
pub mod query;
pub mod region_tree;
pub mod resolver;
mod share;
pub mod symbol;
pub mod text;
pub mod types;
