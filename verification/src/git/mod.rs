//! What the library knows of git: command lines, the output of the binary,
//! and the log of rewrite events.

pub mod cli_parser;
pub mod repository;
pub mod status;
pub mod rewrite_log;
