//! A verified model of the classic 9x9 digit-placement puzzle.
//!
//! The library has three parts: the mathematical model of a grid and its
//! uniqueness rules (`model`), a board type whose mutations preserve those
//! rules (`sudoku_board`), and a backtracking search that fills the empty
//! cells or proves that none of its completions is consistent
//! (`sudoku_solver`).

pub mod model;
pub mod sudoku_board;
pub mod sudoku_solver;
