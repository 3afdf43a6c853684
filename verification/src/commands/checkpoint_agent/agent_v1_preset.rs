//! The first version of the agent hook input.

use vstd::prelude::*;

use crate::authorship::transcript::AiTranscript;
use crate::authorship::working_log::{AgentId, CheckpointKind};
use crate::commands::checkpoint_agent::agent_presets::AgentRunResult;
use crate::error::GitAiError;

verus! {

/// The preset for agents that report in the first version of the hook input.
pub struct AgentV1Preset;

/// What an agent reports through the hook: that a person is about to hand
/// files over, or that the agent has edited files.
#[derive(Debug)]
pub enum AgentV1Input {
    Human { repo_working_dir: String, will_edit_filepaths: Option<Vec<String>> },
    AiAgent {
        repo_working_dir: String,
        edited_filepaths: Option<Vec<String>>,
        transcript: AiTranscript,
        agent_name: String,
        model: String,
        conversation_id: String,
    },
}

impl AgentV1Preset {
    /// The checkpoint that the input asks for. A report of a person asks for
    /// a human checkpoint under the agent id `human`; a report of an agent
    /// for an agent checkpoint of its tool and conversation. Fails where
    /// there is no input.
    pub fn run(&self, hook_input: Option<AgentV1Input>) -> (r: Result<AgentRunResult, GitAiError>)
        ensures
            match (hook_input, r) {
                (None, Err(GitAiError::PresetError(_))) => true,
                (Some(AgentV1Input::Human { repo_working_dir, will_edit_filepaths }), Ok(result)) => {
                    &&& result.checkpoint_kind == CheckpointKind::Human
                    &&& result.agent_id.tool@ == "human"@
                    &&& result.agent_id.id@ == "human"@
                    &&& result.agent_id.model@ == "human"@
                    &&& result.transcript is None
                    &&& result.repo_working_dir == Some(repo_working_dir)
                    &&& result.will_edit_filepaths == will_edit_filepaths
                    &&& result.edited_filepaths is None
                },
                (
                    Some(
                        AgentV1Input::AiAgent {
                            repo_working_dir,
                            edited_filepaths,
                            transcript,
                            agent_name,
                            model,
                            conversation_id,
                        },
                    ),
                    Ok(result),
                ) => {
                    &&& result.checkpoint_kind == CheckpointKind::AiAgent
                    &&& result.agent_id == (AgentId { tool: agent_name, id: conversation_id, model })
                    &&& result.transcript == Some(transcript)
                    &&& result.repo_working_dir == Some(repo_working_dir)
                    &&& result.edited_filepaths == edited_filepaths
                    &&& result.will_edit_filepaths is None
                },
                _ => false,
            },
    {
        match hook_input {
            None => Err(
                GitAiError::PresetError("--hook-input is required for AgentV1 preset".to_owned()),
            ),
            Some(AgentV1Input::Human { repo_working_dir, will_edit_filepaths }) => Ok(
                AgentRunResult {
                    agent_id: AgentId {
                        tool: "human".to_owned(),
                        id: "human".to_owned(),
                        model: "human".to_owned(),
                    },
                    will_edit_filepaths,
                    checkpoint_kind: CheckpointKind::Human,
                    transcript: None,
                    repo_working_dir: Some(repo_working_dir),
                    edited_filepaths: None,
                },
            ),
            Some(
                AgentV1Input::AiAgent {
                    repo_working_dir,
                    edited_filepaths,
                    transcript,
                    agent_name,
                    model,
                    conversation_id,
                },
            ) => Ok(
                AgentRunResult {
                    agent_id: AgentId { tool: agent_name, id: conversation_id, model },
                    repo_working_dir: Some(repo_working_dir),
                    transcript: Some(transcript),
                    checkpoint_kind: CheckpointKind::AiAgent,
                    edited_filepaths,
                    will_edit_filepaths: None,
                },
            ),
        }
    }
}

} // verus!
