//! A 9x9 Sudoku solver: unit trackers, a cache of candidates, propagation
//! by naked and hidden singles, and backtracking search over copies of the
//! board, with its contracts proved.
pub mod board;
pub mod error;
pub mod laws;
pub mod parse;
pub mod rules;
pub mod unit;

pub use board::Sudoku;
pub use error::SolveError;
pub use rules::Line;
pub use unit::{row_column_to_box, Axis};
