//! A verified 9x9 Sudoku engine: the grid data model, the placement and
//! solved-state rules, the randomized backtracking generator, and the carve
//! step that turns a full solution into a playable puzzle.
//!
//! The interactive shell around the engine (argument parsing, the command
//! prompt, text rendering) lives outside this crate; it drives the engine
//! only through the contracts stated here.

pub mod cell;
pub mod digits;
pub mod game;
pub mod grid;
mod rng;
pub mod solvability;
