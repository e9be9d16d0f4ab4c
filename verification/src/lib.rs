//! Sudoku on the classic 9×9 board: a placement validator, a backtracking
//! solver, a puzzle generator and a plain-text codec.
//!
//! Every executable function carries a contract over the board model of
//! [`grid`], and the laws that tie the functions together are stated as
//! public proof functions next to them.

pub mod generators;
pub mod grid;
pub mod loader;
mod random;
pub mod validators;
