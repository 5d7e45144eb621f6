//! A constraint-propagation solver for 9x9 Sudoku grids.
//!
//! A grid of optional digits is turned into a grid of candidate sets, which is
//! narrowed by peer elimination and hidden singles until nothing changes or a
//! cell runs out of candidates.

pub mod cell;
pub mod board;
pub mod grid;
pub mod solver;
pub mod nav;
