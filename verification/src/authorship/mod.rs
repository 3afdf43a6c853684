//! The authorship engine: byte attributions, their projection onto lines and
//! the published per-commit log.

pub mod attribution_tracker;
pub mod edit_script;
pub mod post_commit;
pub mod rebase_authorship;
pub mod stats;
pub mod authorship_log;
pub mod authorship_log_serialization;
pub mod transcript;
pub mod working_log;
