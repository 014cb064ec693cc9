//! A 9x9 Sudoku solver: a grid of cells holding 0 (empty) or a digit 1-9,
//! a constraint-propagation pre-pass, and a depth-first backtracking search.

pub mod grid;
pub mod rules;
pub mod solver;
pub mod text;

pub use grid::Board;
pub use grid::Pos;
pub use solver::SolveResult;
