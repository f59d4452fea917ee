//! Candidate sets, the index type and the grid, with the checks of the Sudoku rules,
//! the propagation pass and the text forms of a puzzle.

pub mod exclude;
pub mod game_state;
pub mod grid;
pub mod index;
pub mod number_set;
pub mod regions;
pub mod text;
pub mod validity;

pub use exclude::{compute_exclude, ij2sk, sk2ij};
pub use game_state::{
    format_game_state, game_to_solver_state, parse_game_state, solver_to_game_state, GameStateCell,
};
pub use grid::Sudoku;
pub use index::Ix;
pub use index::Ix::{Ix1, Ix2, Ix3, Ix4, Ix5, Ix6, Ix7, Ix8, Ix9};
pub use number_set::NumberSet;
pub use regions::{conv_sudoku_type, Regions};
