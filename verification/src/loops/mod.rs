//! Loop problems: loops over scalar variables as transitions.
pub mod big;
pub mod guards;
pub mod laws;
pub mod lower;
pub mod problem;
pub mod readers;
pub mod separate;
