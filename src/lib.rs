//! Counting placements of non-attacking queens.
//!
//! [`board`] decides whether a set of queens on a rectangular board is a
//! complete, attack-free placement; [`search`] counts the complete placements
//! on a square board by depth-first backtracking over one column per row.
pub mod board;
pub mod search;

pub use board::{Board, BoardView, Coord, Line};
pub use search::{solve, solve_helper};
