//! Sparse Conway's Game of Life on an unbounded two-dimensional grid.
//!
//! Only living cells are stored; absence from the store means the cell is
//! dead. The engine computes each generation as a pure function of the
//! previous one, and a plain-text snapshot format connects the world to the
//! outside.

pub mod gol;
pub mod parse;
