//! Solver for generalized peg solitaire boards.
//!
//! A board is a flat sequence of characters: rows separated by a row break,
//! surrounded by a border of unreachable cells two cells deep, so that a jump
//! from any playable cell stays inside the sequence.

pub mod board;
pub mod rules;
pub mod solver;

pub use board::{
    clear_border, validate_board, GameBoard, GameMove, MoveDirection, CENTER_HOLE, CENTER_PEG,
    EMPTY, HOLE, MAX_COLUMN_COUNT, PEG, ROW_BREAK,
};
pub use solver::{Solver, SolverError};
