//! Line-level authorship tracking for a git wrapper: which lines of a commit
//! were written by a person and which by an AI session.
//!
//! The crate holds the tracking engine only. Everything that touches the
//! repository on disk or the `git` binary lives with the caller, which hands
//! this library plain values and gets plain values back.

pub mod authorship;
pub mod commands;
pub mod error;
pub mod git;
pub mod log_fmt;
pub mod text;
pub mod utils;
