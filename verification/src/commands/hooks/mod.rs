//! What each wrapped command decides from its arguments.

pub mod commit_hooks;
pub mod push_hooks;
pub mod reset_hooks;
