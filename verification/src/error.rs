//! The errors of the library.

use vstd::prelude::*;

verus! {

/// What can go wrong inside the library.
#[derive(Debug)]
pub enum GitAiError {
    /// The git binary exited with a failure.
    GitCliError { code: Option<i32>, stderr: String, args: Vec<String> },
    /// The input handed over by an agent hook is malformed.
    PresetError(String),
    /// Any other failure, with its message.
    Generic(String),
}

} // verus!
