//! Sudoku puzzle generation by constraint propagation.
//!
//! A [`Sudoku`] holds, for each of the 81 cells, the set of digits that are
//! still possible there. The elimination engine ([`Sudoku::reduce_options`])
//! narrows those sets by logical deduction, and [`create_puzzle`] reveals cells
//! of a solved grid until deduction alone recovers the whole grid.

pub mod model;
pub mod grid;
pub mod logic;
pub mod engine;
pub mod validate;
pub mod shuffle;
pub mod generate;

pub use grid::Sudoku;
pub use generate::create_puzzle;
pub use validate::count_equal_options;
pub use model::{DIMENSION, DIMENSIONPWR2};
