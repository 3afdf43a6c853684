use git_ai::authorship::working_log::{Checkpoint as LogCheckpoint, CheckpointKind};
use git_ai::log_fmt::working_log::{AgentMetadata, Checkpoint, Line, WorkingLogEntry};

#[test]
fn test_line_contains() {
    let single = Line::Single(5);
    let range = Line::Range(10, 15);

    assert!(single.contains(5));
    assert!(!single.contains(6));

    assert!(range.contains(10));
    assert!(range.contains(12));
    assert!(range.contains(15));
    assert!(!range.contains(9));
    assert!(!range.contains(16));
}

#[test]
fn test_working_log_entry_covers_line() {
    let entry = WorkingLogEntry::new(
        "src/xyz.rs".to_string(),
        vec![Line::Single(1), Line::Range(2, 5), Line::Single(10)],
        vec![],
    );

    assert!(entry.covers_line(1));
    assert!(entry.covers_line(2));
    assert!(entry.covers_line(5));
    assert!(entry.covers_line(10));
    assert!(!entry.covers_line(6));
    assert!(!entry.covers_line(11));
}

#[test]
fn line_has_start_and_end() {
    assert_eq!((Line::Single(5).start(), Line::Single(5).end()), (5, 5));
    assert_eq!((Line::Range(10, 15).start(), Line::Range(10, 15).end()), (10, 15));
}

#[test]
fn entry_collects_added_and_deleted_lines() {
    let mut entry = WorkingLogEntry::new("src/xyz.rs".to_string(), vec![], vec![]);
    entry.add_added_line(3);
    entry.add_added_range(7, 9);
    entry.add_deleted_line(20);
    entry.add_deleted_range(30, 31);
    assert_eq!(entry.added_lines, vec![Line::Single(3), Line::Range(7, 9)]);
    assert_eq!(entry.deleted_lines, vec![Line::Single(20), Line::Range(30, 31)]);
    assert_eq!(
        entry.all_lines(),
        vec![Line::Single(3), Line::Range(7, 9), Line::Single(20), Line::Range(30, 31)]
    );
    assert!(entry.covers_line(8) && entry.covers_line(31) && !entry.covers_line(10));
}

#[test]
fn checkpoint_is_stamped_with_the_time_of_the_call() {
    let entry = WorkingLogEntry::new("src/xyz.rs".to_string(), vec![Line::Single(1)], vec![]);
    let checkpoint =
        Checkpoint::new("abc123".to_string(), "".to_string(), "agent".to_string(), vec![entry]);
    assert!(checkpoint.timestamp > 0);
    assert_eq!(checkpoint.snapshot, "abc123");
    assert_eq!(checkpoint.author, "agent");
    assert_eq!(checkpoint.entries.len(), 1);
    assert!(checkpoint.agent_metadata.is_none());
    assert!(checkpoint.prompt.is_none());

    let with_metadata = Checkpoint::new_with_metadata(
        "abc123".to_string(),
        "".to_string(),
        "agent".to_string(),
        vec![],
        AgentMetadata { model: "model-3".to_string(), human_author: Some("john.doe".to_string()) },
    );
    let metadata = with_metadata.agent_metadata.as_ref().unwrap();
    assert_eq!(metadata.model, "model-3");
    assert_eq!(metadata.human_author.as_deref(), Some("john.doe"));
    assert!(with_metadata.timestamp >= checkpoint.timestamp);
}

#[test]
fn checkpoint_of_the_working_log_is_stamped_in_milliseconds() {
    let checkpoint =
        LogCheckpoint::new(CheckpointKind::AiTab, "snap".to_string(), "dev".to_string(), vec![]);
    assert!(checkpoint.timestamp > 1_000_000_000_000);
    assert_eq!(checkpoint.kind, CheckpointKind::AiTab);
    assert!(checkpoint.agent_id.is_none() && checkpoint.transcript.is_none());
    assert_eq!(CheckpointKind::Human.to_str(), "human");
    assert_eq!(CheckpointKind::AiAgent.to_str(), "ai_agent");
    assert_eq!(CheckpointKind::AiTab.to_str(), "ai_tab");
}
