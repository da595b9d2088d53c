//! The rules of 2048 on a 4x4 grid, the integer parts of the move heuristic,
//! the screens and dialogs of the game,
//! and the achievement tracker, with their contracts.
pub mod ai;
pub mod achievements;
pub mod game;
