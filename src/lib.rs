//! A 9x9 Sudoku solver: constraint propagation followed by a depth-first,
//! chronologically backtracking search over an explicit stack of frames.

pub mod board;
pub mod search;
pub mod laws;
