//! The octagon abstract domain: difference-bound matrices over `2n` nodes.
//!
//! Variable `x` owns two nodes, `2x` (its value) and `2x + 1` (its negation).
//! The cell `(i, j)` bounds `node i - node j`; a cell stores twice the bound,
//! so that half-integers are exact.  The bounds of a single variable sit on
//! the self-dual cells `(2x, 2x + 1)` and `(2x + 1, 2x)`.
pub mod any;
pub mod arith;
pub mod closure;
pub mod dbm;
pub mod expr;
pub mod exact;
pub mod grid;
pub mod detect;
pub mod linear;
pub mod parity;
pub mod points;
pub mod precise;
pub mod room;
pub mod second;
pub mod sound;
pub mod tight;
pub mod transfer;
pub mod unmirrored;
pub mod variables;
