//! A solver for 9×9 Sudoku puzzles.
//!
//! A puzzle is a [`Sudoku`]: eighty-one cells in row-major order, each either holding a digit or
//! listing the digits it may still take. [`Sudoku::solve`] runs one elimination pass over the
//! board, [`Sudoku::propagate`] repeats it until nothing changes, and [`master_solve`] branches
//! where elimination stalls and returns every completion of the puzzle, each exactly once.
pub mod board;
pub mod cell;
pub mod error;
pub mod grid;
pub mod laws;
pub mod pass_facts;
pub mod propagate;
pub mod search;
pub mod search_facts;
pub mod text;

pub use board::{Position, Sudoku};
pub use cell::{CellView, OptionVector};
pub use error::SudokuError;
pub use search::master_solve;
