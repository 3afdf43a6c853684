use git_ai::authorship::transcript::AiTranscript;
use git_ai::authorship::working_log::{AgentId, Checkpoint, CheckpointKind};
use git_ai::authorship::edit_script::EditOp;
use git_ai::authorship::working_log::WorkingLogEntry;
use git_ai::commands::checkpoint::{
    add_previous_files, checkpoint_pathspec, combined_snapshot_hash, compute_line_stats, content_hash,
    count_line_changes, count_script_lines, filter_paths_in_repo, get_all_files, is_text_content, path_in_workdir, run,
    TrackedFile,
};
use git_ai::commands::checkpoint_agent::agent_presets::AgentRunResult;
use git_ai::git::status::{EntryKind, StatusCode, StatusEntry};

const BASE: &str = "base line 1\nbase line 2\n";

fn status(kind: EntryKind, staged: StatusCode, unstaged: StatusCode, path: &str) -> StatusEntry {
    StatusEntry { kind, staged, unstaged, path: path.to_string(), orig_path: None }
}

fn file_of(path: &str, previous: &str, current: &str) -> TrackedFile {
    TrackedFile {
        path: path.to_string(),
        previous_content: previous.to_string(),
        current_content: current.to_string(),
        blame: vec![],
    }
}

fn hashes(files: &[TrackedFile]) -> Vec<(String, String)> {
    files.iter().map(|f| (f.path.clone(), content_hash(&f.current_content))).collect()
}

/// Runs a checkpoint the way the command does: lists the files from the
/// status, runs, and appends the checkpoint to the working log.
fn trigger(
    log: &mut Vec<Checkpoint>,
    author: &str,
    kind: CheckpointKind,
    statuses: &[StatusEntry],
    contents: &[(&str, &str, &str)],
    agent: Option<&AgentRunResult>,
    ts: u128,
) -> (usize, usize, usize) {
    let statuses: Vec<StatusEntry> = statuses
        .iter()
        .map(|s| status(s.kind, s.staged, s.unstaged, &s.path))
        .collect();
    let is_text = vec![true; statuses.len()];
    let listed = get_all_files(&statuses, &is_text);
    let files: Vec<TrackedFile> = listed
        .iter()
        .map(|path| {
            let (_, previous, current) =
                contents.iter().find(|(p, _, _)| p == path).expect("content of a listed file");
            file_of(path, previous, current)
        })
        .collect();
    let outcome =
        run(author, kind, false, log, &files, &hashes(&files), agent, ts).expect("checkpoint");
    if let Some(checkpoint) = outcome.checkpoint {
        log.push(checkpoint);
    }
    assert_eq!(outcome.checkpoints_len, log.len());
    (outcome.entries_len, outcome.files_len, outcome.checkpoints_len)
}

#[test]
fn test_checkpoint_with_staged_changes() {
    let mut log = Vec::new();
    let current = format!("{}{}", BASE, "New line added by user\n");
    let statuses =
        [status(EntryKind::Ordinary, StatusCode::Modified, StatusCode::Unmodified, "test.txt")];

    let (entries_len, files_len, _checkpoints_len) = trigger(
        &mut log,
        "Aidan",
        CheckpointKind::Human,
        &statuses,
        &[("test.txt", BASE, &current)],
        None,
        1000,
    );

    assert_eq!(files_len, 1, "Should have 1 file with changes");
    assert_eq!(
        entries_len, 1,
        "Should have 1 file entry in checkpoint (staged changes should be tracked)"
    );
}

#[test]
fn test_checkpoint_with_unstaged_changes() {
    let mut log = Vec::new();
    let current = format!("{}{}", BASE, "New line added by user\n");
    let statuses =
        [status(EntryKind::Ordinary, StatusCode::Unmodified, StatusCode::Modified, "test.txt")];

    let (entries_len, files_len, _checkpoints_len) = trigger(
        &mut log,
        "Aidan",
        CheckpointKind::Human,
        &statuses,
        &[("test.txt", BASE, &current)],
        None,
        1000,
    );

    assert_eq!(files_len, 1, "Should have 1 file with changes");
    assert_eq!(entries_len, 1, "Should have 1 file entry in checkpoint");
}

#[test]
fn test_checkpoint_with_staged_changes_after_previous_checkpoint() {
    let mut log = Vec::new();
    let first = format!("{}{}", BASE, "First change\n");
    let statuses =
        [status(EntryKind::Ordinary, StatusCode::Modified, StatusCode::Unmodified, "test.txt")];

    let (entries_len_1, files_len_1, _) = trigger(
        &mut log,
        "Aidan",
        CheckpointKind::Human,
        &statuses,
        &[("test.txt", BASE, &first)],
        None,
        1000,
    );

    assert_eq!(files_len_1, 1, "First checkpoint: should have 1 file with changes");
    assert_eq!(entries_len_1, 1, "First checkpoint: should have 1 file entry");

    let second = format!("{}{}", first, "Second change\n");
    let (entries_len_2, files_len_2, _) = trigger(
        &mut log,
        "Aidan",
        CheckpointKind::Human,
        &statuses,
        &[("test.txt", &first, &second)],
        None,
        2000,
    );

    println!("Second checkpoint: entries_len={}, files_len={}", entries_len_2, files_len_2);
    assert_eq!(files_len_2, 1, "Second checkpoint: should have 1 file with changes");
    assert_eq!(
        entries_len_2, 1,
        "Second checkpoint: should have 1 file entry in checkpoint (staged changes should be tracked)"
    );
}

#[test]
fn test_checkpoint_then_stage_then_checkpoint_again() {
    let mut log = Vec::new();
    let current = format!("{}{}", BASE, "New line added\n");
    let unstaged =
        [status(EntryKind::Ordinary, StatusCode::Unmodified, StatusCode::Modified, "test.txt")];

    let (entries_len_1, files_len_1, _) = trigger(
        &mut log,
        "Aidan",
        CheckpointKind::Human,
        &unstaged,
        &[("test.txt", BASE, &current)],
        None,
        1000,
    );
    assert_eq!(files_len_1, 1, "First checkpoint: should detect 1 file");
    assert_eq!(entries_len_1, 1, "First checkpoint: should create 1 entry");

    let staged =
        [status(EntryKind::Ordinary, StatusCode::Modified, StatusCode::Unmodified, "test.txt")];
    let (entries_len_2, files_len_2, checkpoints_len) = trigger(
        &mut log,
        "Aidan",
        CheckpointKind::Human,
        &staged,
        &[("test.txt", &current, &current)],
        None,
        2000,
    );
    assert_eq!(files_len_2, 1, "Second checkpoint: file is still staged");
    assert_eq!(
        entries_len_2, 0,
        "Second checkpoint: no NEW changes, so no new entry (already checkpointed)"
    );
    assert_eq!(checkpoints_len, 1);
}

#[test]
fn test_checkpoint_skips_conflicted_files() {
    let mut log = Vec::new();
    let feature = format!("{}{}", BASE, "Feature branch change\n");
    let main = format!("{}{}", BASE, "Main branch change\n");
    let modified =
        [status(EntryKind::Ordinary, StatusCode::Modified, StatusCode::Unmodified, "test.txt")];

    // the two branches, "feature-branch" and the base branch, each change the file
    let mut feature_log = Vec::new();
    trigger(
        &mut feature_log,
        "FeatureUser",
        CheckpointKind::Human,
        &modified,
        &[("test.txt", BASE, &feature)],
        None,
        1000,
    );
    trigger(
        &mut log,
        "MainUser",
        CheckpointKind::Human,
        &modified,
        &[("test.txt", BASE, &main)],
        None,
        2000,
    );

    // merging "Feature commit" into "Main commit" leaves the file unmerged
    let conflicted =
        [status(EntryKind::Unmerged, StatusCode::Unmerged, StatusCode::Unmerged, "test.txt")];
    let has_conflicts = conflicted.iter().any(|s| s.kind == EntryKind::Unmerged);
    assert!(has_conflicts, "Should have merge conflicts");

    let mut merge_log = Vec::new();
    let (entries_len, files_len, _) = trigger(
        &mut merge_log,
        "Human",
        CheckpointKind::Human,
        &conflicted,
        &[("test.txt", &main, "<<<<<<< ours\n")],
        None,
        3000,
    );

    assert_eq!(files_len, 0, "Should have 0 files (conflicted file should be skipped)");
    assert_eq!(entries_len, 0, "Should have 0 entries (conflicted file should be skipped)");
}

#[test]
fn checkpoint_of_an_agent_carries_agent_and_transcript() {
    let mut log = Vec::new();
    let current = format!("{}{}", BASE, "New line added\n");
    let statuses =
        [status(EntryKind::Ordinary, StatusCode::Modified, StatusCode::Unmodified, "test.txt")];
    let request = AgentRunResult {
        agent_id: AgentId {
            tool: "test_tool".to_string(),
            id: "test_session".to_string(),
            model: "test_model".to_string(),
        },
        transcript: Some(AiTranscript { messages: vec![] }),
        checkpoint_kind: CheckpointKind::AiAgent,
        repo_working_dir: None,
        edited_filepaths: Some(vec!["test.txt".to_string()]),
        will_edit_filepaths: None,
    };

    let (entries_len, files_len, _) = trigger(
        &mut log,
        "test_user",
        CheckpointKind::AiAgent,
        &statuses,
        &[("test.txt", BASE, &current)],
        Some(&request),
        1000,
    );

    assert_eq!(files_len, 1);
    assert_eq!(entries_len, 1);
    let checkpoint = &log[0];
    assert_eq!(checkpoint.agent_id, Some(request.agent_id));
    assert_eq!(checkpoint.transcript, Some(AiTranscript { messages: vec![] }));
    assert_eq!(checkpoint.author, "test_user");
    assert_eq!(checkpoint.timestamp, 1000);
    assert_eq!(checkpoint.line_stats.ai_agent_additions, 1);
    assert_eq!(checkpoint.line_stats.ai_agent_deletions, 0);
    let entry = &checkpoint.entries[0];
    assert_eq!(entry.blob_sha, content_hash(&current));
    // the base lines go to a person just before the checkpoint, the new line to the session
    assert_eq!(entry.attributions.len(), 2);
    assert_eq!((entry.attributions[0].start, entry.attributions[0].end), (0, BASE.len()));
    assert_eq!(entry.attributions[0].author_id, "human");
    assert_eq!(entry.attributions[0].timestamp, 999);
    assert_eq!((entry.attributions[1].start, entry.attributions[1].end), (BASE.len(), current.len()));
    assert_eq!(entry.attributions[1].timestamp, 1000);
    assert_eq!(entry.attributions[1].author_id.len(), 16);
    assert_eq!(entry.line_attributions.len(), 2);
    assert_eq!((entry.line_attributions[0].start_line, entry.line_attributions[0].end_line), (1, 2));
    assert_eq!((entry.line_attributions[1].start_line, entry.line_attributions[1].end_line), (3, 3));
}

#[test]
fn test_checkpoint_with_paths_outside_repo() {
    let mut log = Vec::new();
    let current = format!("{}{}", BASE, "New line added\n");
    let request = AgentRunResult {
        agent_id: AgentId {
            tool: "test_tool".to_string(),
            id: "test_session".to_string(),
            model: "test_model".to_string(),
        },
        transcript: Some(AiTranscript { messages: vec![] }),
        checkpoint_kind: CheckpointKind::AiAgent,
        repo_working_dir: None,
        edited_filepaths: Some(vec![
            "/tmp/outside_file.txt".to_string(),
            "../outside_parent.txt".to_string(),
            "test.txt".to_string(), // This one is valid
        ]),
        will_edit_filepaths: None,
    };

    // the status is asked for the paths inside the repository only
    let pathspec = checkpoint_pathspec("/home/dev/repo", Some(&request));
    assert_eq!(pathspec, Some(vec!["test.txt".to_string()]));
    let everything = [
        status(EntryKind::Ordinary, StatusCode::Modified, StatusCode::Unmodified, "test.txt"),
        status(EntryKind::Untracked, StatusCode::Untracked, StatusCode::Untracked, "other.txt"),
    ];
    let narrowed: Vec<StatusEntry> = everything
        .iter()
        .filter(|s| pathspec.as_ref().unwrap().contains(&s.path))
        .map(|s| status(s.kind, s.staged, s.unstaged, &s.path))
        .collect();

    let result: Result<(usize, usize, usize), String> = Ok(trigger(
        &mut log,
        "test_user",
        CheckpointKind::AiAgent,
        &narrowed,
        &[("test.txt", BASE, &current)],
        Some(&request),
        1000,
    ));

    assert!(
        result.is_ok(),
        "Checkpoint should succeed even with paths outside repo: {:?}",
        result.as_ref().err()
    );
    let (entries_len, files_len, _) = result.unwrap();
    assert_eq!(files_len, 1, "Should process 1 valid file");
    assert_eq!(entries_len, 1, "Should create 1 entry");
}

#[test]
fn paths_are_judged_by_their_names() {
    assert!(path_in_workdir("/repo", "src/a.rs"));
    assert!(path_in_workdir("/repo", "./src/../b.rs"));
    assert!(!path_in_workdir("/repo", "../b.rs"));
    assert!(!path_in_workdir("/repo", "src/../../b.rs"));
    assert!(path_in_workdir("/repo", "../repo/b.rs"));
    assert!(path_in_workdir("/repo", "/repo/src/a.rs"));
    assert!(path_in_workdir("/repo/", "/repo"));
    assert!(!path_in_workdir("/repo", "/repository/a.rs"));
    assert!(!path_in_workdir("/repo", "/tmp/a.rs"));
    assert_eq!(filter_paths_in_repo("/repo", &vec!["/tmp/x".to_string()]), None);
    assert_eq!(filter_paths_in_repo("/repo", &vec![]), None);
    assert_eq!(checkpoint_pathspec("/repo", None), None);
}

#[test]
fn ignored_and_untouched_files_are_not_looked_at() {
    let statuses = vec![
        status(EntryKind::Ignored, StatusCode::Ignored, StatusCode::Ignored, "target/x"),
        status(EntryKind::Ordinary, StatusCode::Unmodified, StatusCode::Unmodified, "same.txt"),
        status(EntryKind::Untracked, StatusCode::Untracked, StatusCode::Untracked, "new.txt"),
        status(EntryKind::Ordinary, StatusCode::Unmodified, StatusCode::Deleted, "gone.txt"),
        status(EntryKind::Ordinary, StatusCode::Modified, StatusCode::Unmodified, "image.png"),
    ];
    assert!(statuses[3].is_deleted() && statuses[3].has_change());
    assert!(!statuses[0].has_change() && !statuses[1].has_change());
    let files = get_all_files(&statuses, &vec![true, true, true, true, false]);
    assert_eq!(files, vec!["new.txt".to_string(), "gone.txt".to_string()]);
}

#[test]
fn text_has_no_zero_byte_at_its_start() {
    assert!(is_text_content(b"hello\n"));
    assert!(is_text_content(b""));
    assert!(!is_text_content(b"he\0llo"));
    let mut late = vec![b'a'; 8192];
    late.push(0);
    assert!(is_text_content(&late));
    late[8191] = 0;
    assert!(!is_text_content(&late));
}

#[test]
fn snapshot_hash_does_not_depend_on_the_order_of_files() {
    let a = ("a.txt".to_string(), content_hash("one"));
    let b = ("b/c.txt".to_string(), content_hash("two"));
    let one = combined_snapshot_hash(&vec![a.clone(), b.clone()]);
    let other = combined_snapshot_hash(&vec![b.clone(), a.clone()]);
    assert_eq!(one, other);
    assert_eq!(one.len(), 64);
    assert_ne!(one, combined_snapshot_hash(&vec![a.clone()]));
    // the digest of the paths and hashes in the order of the paths
    let input = format!("{}{}{}{}", a.0, a.1, b.0, b.1);
    assert_eq!(one, content_hash(&input));
    assert_eq!(
        content_hash("abc"),
        "ba7816bf8f01cfea414140de5dae2223b00361a396177a9cb410ff61f20015ad"
    );
}

#[test]
fn line_changes_are_counted_by_kind() {
    assert_eq!(count_line_changes("a\nb\nc\n", "a\nX\nY\nc\n"), (2, 1));
    assert_eq!(count_line_changes("", "a\nb"), (2, 0));
    assert_eq!(count_line_changes("a\nb\n", ""), (0, 2));
    assert_eq!(count_line_changes("same\n", "same\n"), (0, 0));
    let files = vec![file_of("a", "x\n", "x\ny\nz\n"), file_of("b", "1\n2\n", "2\n")];
    let stats = compute_line_stats(&files, &vec![], CheckpointKind::AiTab).unwrap();
    assert_eq!((stats.ai_tab_additions, stats.ai_tab_deletions), (2, 1));
    assert_eq!((stats.human_additions, stats.ai_agent_additions), (0, 0));
    let mut full = Checkpoint::at(CheckpointKind::Human, "s".to_string(), "a".to_string(), vec![], 1);
    full.line_stats.human_additions = u32::MAX - 1;
    assert!(compute_line_stats(&files, &vec![full], CheckpointKind::Human).is_err());
}

#[test]
fn files_of_earlier_checkpoints_are_added_once() {
    let entry = |file: &str| WorkingLogEntry::new(file.to_string(), String::new(), vec![], vec![]);
    let entries = vec![entry("a.rs"), entry("b.rs"), entry("c.bin"), entry("b.rs"), entry("d.rs")];
    let mut files = vec!["a.rs".to_string()];
    add_previous_files(&mut files, &entries, &vec![true, true, false, true, true]);
    assert_eq!(files, vec!["a.rs".to_string(), "b.rs".to_string(), "d.rs".to_string()]);
}

#[test]
fn lines_end_at_a_carriage_return_too() {
    assert_eq!(count_line_changes("a\rb\r", "a\rb\rc\r"), (1, 0));
    assert_eq!(count_line_changes("a\r\nb\r\n", "b\r\n"), (0, 1));
}

#[test]
fn script_lines_are_counted_step_by_step() {
    let script = vec![
        EditOp::Equal { old_index: 0, new_index: 0, len: 4 },
        EditOp::Delete { old_index: 4, old_len: 2, new_index: 4 },
        EditOp::Insert { old_index: 6, new_index: 4, new_len: 3 },
        EditOp::Replace { old_index: 6, old_len: 5, new_index: 7, new_len: 1 },
    ];
    assert_eq!(count_script_lines(&script), (4, 7));
    assert_eq!(count_script_lines(&vec![]), (0, 0));
}
