//! Solver for 16x16 hexadecimal Sudoku puzzles: a board that tracks, for
//! every row, column and 4x4 box, the digits already placed there, and a
//! backtracking search that always branches on the most constrained cell.
pub mod bitset;
pub mod board;
pub mod loader;
pub mod solver;

pub use board::{HexPuzzle, Possible, EMPTY};
pub use loader::LoadError;
pub use solver::solve;
