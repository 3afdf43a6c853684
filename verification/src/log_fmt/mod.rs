//! The line-based format of the working log.

pub mod working_log;
