//! The configuration files the launcher reads and writes.

pub mod axr_options;
pub mod defaults_reader;
pub mod launcher_config;
pub mod ltx_grammar;
pub mod ltx_loader;
pub mod ltx_parser;
pub mod ltx_roundtrip;
pub mod ltx_writer;
pub mod user_ltx;
