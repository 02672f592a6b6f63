//! Name resolution.
pub mod builtins;
pub mod checked;
pub mod declared;
pub mod diag;
pub mod found;
pub mod growth;
pub mod kinds;
pub mod laws;
pub mod mentions;
pub mod names;
pub mod parts;
pub mod reported;
pub mod resolve;
pub mod state;
pub mod syntax;
pub mod table;
pub mod values;
