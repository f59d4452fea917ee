//! Backtracking search for the first solution of a grid.

pub mod search;
pub mod solutions;

pub use search::{brute_force, brute_force_with_exclude, SolverResult};
