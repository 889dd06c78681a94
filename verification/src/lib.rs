//! Configuration handling for the Old World launcher: the sectioned,
//! include-capable LTX format, the flat `user.ltx` command file, and the
//! small pure rules around launching the game.

pub mod config;
pub mod game;
pub mod options;
pub mod ordered;
pub mod text;
