//! A 9x9 Sudoku engine: per-cell candidate sets, a grid with row, column and
//! block views, a constraint-propagation pass and a backtracking search.

pub mod base;
pub mod solve;
