//! Solver for triangular peg solitaire.
//!
//! A board of side length `n` has `n * (n + 1) / 2` slots, numbered from 1.
//! A jump moves a peg two slots in a straight line over an adjacent occupied
//! peg into an empty slot, removing the jumped peg.  The solver performs a
//! breadth-first search over board states and reports a shortest move list
//! that leaves exactly one peg, or that no such list exists.

pub mod board;
pub mod search;
pub mod triangle;
