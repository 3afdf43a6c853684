//! What the wrapped git commands decide before and after git runs.

pub mod blame;
pub mod checkpoint;
pub mod checkpoint_agent;
pub mod ci_handlers;
pub mod git_handlers;
pub mod hooks;
