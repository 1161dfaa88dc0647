//! A verified 9x9 Sudoku solver.
//!
//! The board is a 9x9 grid of digits where 0 marks an empty cell. The solver
//! keeps one bitmask per row, column and 3x3 box recording the digits already
//! placed, and fills the empty cells by backtracking search, always branching
//! on a most-constrained empty cell first. `solver::solve` returns a completed
//! grid exactly when the puzzle has a valid completion, and proves it.

pub mod board;
pub mod constraints;
pub mod solver;
