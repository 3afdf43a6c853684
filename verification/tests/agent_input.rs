use git_ai::authorship::transcript::{AiTranscript, Message};
use git_ai::authorship::working_log::CheckpointKind;
use git_ai::commands::checkpoint_agent::agent_v1_preset::{AgentV1Input, AgentV1Preset};
use git_ai::error::GitAiError;

#[test]
fn report_of_a_person_asks_for_a_human_checkpoint() {
    let input = AgentV1Input::Human {
        repo_working_dir: "/work".to_string(),
        will_edit_filepaths: Some(vec!["a.rs".to_string()]),
    };
    let result = AgentV1Preset.run(Some(input)).unwrap();
    assert!(result.checkpoint_kind == CheckpointKind::Human);
    assert_eq!(result.agent_id.tool, "human");
    assert_eq!(result.agent_id.id, "human");
    assert_eq!(result.agent_id.model, "human");
    assert!(result.transcript.is_none());
    assert_eq!(result.repo_working_dir.as_deref(), Some("/work"));
    assert_eq!(result.will_edit_filepaths, Some(vec!["a.rs".to_string()]));
    assert_eq!(result.edited_filepaths, None);
}

#[test]
fn report_of_an_agent_asks_for_an_agent_checkpoint() {
    let mut transcript = AiTranscript::new();
    transcript.messages.push(Message::user("add a test".to_string(), None));
    let input = AgentV1Input::AiAgent {
        repo_working_dir: "/work".to_string(),
        edited_filepaths: Some(vec!["b.rs".to_string()]),
        transcript,
        agent_name: "cursor".to_string(),
        model: "model-3".to_string(),
        conversation_id: "conv-7".to_string(),
    };
    let result = AgentV1Preset.run(Some(input)).unwrap();
    assert!(result.checkpoint_kind == CheckpointKind::AiAgent);
    assert_eq!(result.agent_id.tool, "cursor");
    assert_eq!(result.agent_id.id, "conv-7");
    assert_eq!(result.agent_id.model, "model-3");
    assert_eq!(result.transcript.unwrap().messages().len(), 1);
    assert_eq!(result.repo_working_dir.as_deref(), Some("/work"));
    assert_eq!(result.edited_filepaths, Some(vec!["b.rs".to_string()]));
    assert_eq!(result.will_edit_filepaths, None);
}

#[test]
fn missing_input_is_a_preset_error() {
    match AgentV1Preset.run(None) {
        Err(GitAiError::PresetError(message)) => assert!(message.contains("--hook-input")),
        _ => panic!("expected a preset error"),
    }
}
