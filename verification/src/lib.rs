//! A 9x9 Sudoku solver: board representation, candidate computation by
//! row/column/box exclusion, and exhaustive backtracking search, with
//! machine-checked contracts for each step.

pub mod board;
pub mod candidates;
pub mod solver;

pub use board::{new_board, Sudoku};
pub use candidates::{col_vals, cube_vals, options_for, row_vals};
pub use solver::{find_first_empty, solve_sudoku};
