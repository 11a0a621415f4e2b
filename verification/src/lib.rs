//! Sudoku boards: a constraint-tracked 9×9 grid, a randomized generator of
//! complete grids, a solution counter that decides uniqueness, and a carver
//! that blanks cells while the puzzle keeps exactly one solution.

pub mod rules;
pub mod solutions;
pub mod board;
pub mod carver;
pub mod generator;
pub mod laws;
pub mod random;
pub mod uniqueness;

pub use board::Sudoku;
