//! What an agent hook asks of a checkpoint.

use vstd::prelude::*;

use crate::authorship::transcript::AiTranscript;
use crate::authorship::working_log::{AgentId, CheckpointKind};

verus! {

/// The request that a preset makes of a checkpoint.
#[derive(Debug)]
pub struct AgentRunResult {
    pub agent_id: AgentId,
    pub transcript: Option<AiTranscript>,
    pub checkpoint_kind: CheckpointKind,
    pub repo_working_dir: Option<String>,
    /// The files that the agent has edited.
    pub edited_filepaths: Option<Vec<String>>,
    /// The files that a person is about to hand to the agent.
    pub will_edit_filepaths: Option<Vec<String>>,
}

} // verus!
