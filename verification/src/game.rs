//! The rules for finding and starting the game.

pub mod launcher;
pub mod paths;
