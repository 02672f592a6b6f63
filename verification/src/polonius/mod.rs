//! Borrow checking by rules over facts.
pub mod calls;
pub mod causes;
pub mod crossings;
pub mod csv;
pub mod errors;
pub mod exits;
pub mod extract;
pub mod extraction;
pub mod facts;
pub mod input;
pub mod laws;
pub mod outputs;
pub mod point;
pub mod reports;
pub mod rules;
pub mod signature;
pub mod steps;
pub mod tables;
pub mod traces;
