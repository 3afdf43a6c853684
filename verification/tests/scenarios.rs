use git_ai::authorship::authorship_log::LineRange;
use git_ai::authorship::authorship_log_serialization::{
    generate_short_hash, AttestationEntry, AuthorshipLog, FileAttestation,
};
use git_ai::authorship::post_commit::post_commit;
use git_ai::authorship::rebase_authorship::{rewrite_authorship_after_rebase, FileVersions};
use git_ai::authorship::transcript::{AiTranscript, Message};
use git_ai::authorship::working_log::{AgentId, Checkpoint, CheckpointKind};
use git_ai::commands::checkpoint::{content_hash, run, TrackedFile};
use git_ai::commands::checkpoint_agent::agent_presets::AgentRunResult;

fn request() -> AgentRunResult {
    AgentRunResult {
        agent_id: AgentId {
            tool: "cursor".to_string(),
            id: "session-1".to_string(),
            model: "model-x".to_string(),
        },
        transcript: Some(AiTranscript {
            messages: vec![Message::user("add lines".to_string(), None)],
        }),
        checkpoint_kind: CheckpointKind::AiAgent,
        repo_working_dir: None,
        edited_filepaths: None,
        will_edit_filepaths: None,
    }
}

fn session_hash() -> String {
    generate_short_hash("session-1", "cursor")
}

/// Takes a checkpoint of one file and keeps its snapshot.
fn checkpoint(
    log: &mut Vec<Checkpoint>,
    blobs: &mut Vec<(String, String)>,
    ai: bool,
    path: &str,
    previous: &str,
    current: &str,
    ts: u128,
) {
    let files = vec![TrackedFile {
        path: path.to_string(),
        previous_content: previous.to_string(),
        current_content: current.to_string(),
        blame: vec![],
    }];
    let hash = content_hash(current);
    blobs.push((hash.clone(), current.to_string()));
    let hashes = vec![(path.to_string(), hash)];
    let agent = request();
    let outcome = if ai {
        run("dev", CheckpointKind::AiAgent, false, log, &files, &hashes, Some(&agent), ts)
    } else {
        run("dev", CheckpointKind::Human, false, log, &files, &hashes, None, ts)
    }
    .unwrap();
    if let Some(cp) = outcome.checkpoint {
        log.push(cp);
    }
}

fn lines(path: &str, lines: &[u32]) -> Vec<(String, Vec<u32>)> {
    vec![(path.to_string(), lines.to_vec())]
}

#[test]
fn ai_additions_on_top_of_a_base_commit() {
    let base = "Base line 1\nBase line 2\n";
    let with_ai = "Base line 1\nBase line 2\nNEW\nHello\nWorld\n";
    let (mut log, mut blobs) = (Vec::new(), Vec::new());
    checkpoint(&mut log, &mut blobs, true, "test.txt", base, with_ai, 1000);

    let outcome = post_commit(
        &log,
        Some("base-sha"),
        "dev <dev@example.com>",
        &vec!["test.txt".to_string()],
        &lines("test.txt", &[3, 4, 5]),
        &vec![],
        &blobs,
    );

    let published = outcome.authorship_log;
    assert_eq!(
        published.attestations,
        vec![FileAttestation {
            file_path: "test.txt".to_string(),
            entries: vec![AttestationEntry {
                hash: session_hash(),
                line_ranges: vec![LineRange::Range(3, 5)],
            }],
        }]
    );
    assert_eq!(published.metadata.base_commit_sha, "base-sha");
    assert_eq!(published.metadata.human_author, Some("dev <dev@example.com>".to_string()));
    assert_eq!(published.metadata.prompts.len(), 1);
    let (hash, record) = &published.metadata.prompts[0];
    assert_eq!(*hash, session_hash());
    assert_eq!(record.agent_id.tool, "cursor");
    assert_eq!(record.messages, vec![Message::user("add lines".to_string(), None)]);
    assert_eq!(record.overriden_lines, 0);
    assert!(outcome.working_log.is_none());
}

#[test]
fn line_of_an_agent_that_a_person_rewrites_goes_to_the_person() {
    let base = "Base line 1\nBase line 2\n";
    let with_ai = "Base line 1\nBase line 2\nNEW\nHello\nWorld\n";
    let edited = "Base line 1\nBase line 2\nHUMAN EDITED AI LINE\nHello\nWorld\n";
    let (mut log, mut blobs) = (Vec::new(), Vec::new());
    checkpoint(&mut log, &mut blobs, true, "test.txt", base, with_ai, 1000);
    checkpoint(&mut log, &mut blobs, false, "test.txt", with_ai, edited, 2000);

    let outcome = post_commit(
        &log,
        Some("base-sha"),
        "dev",
        &vec!["test.txt".to_string()],
        &lines("test.txt", &[3, 4, 5]),
        &vec![],
        &blobs,
    );

    let published = outcome.authorship_log;
    assert_eq!(published.attestations.len(), 1);
    assert_eq!(published.attestations[0].entries[0].line_ranges, vec![LineRange::Range(4, 5)]);
    assert_eq!(published.metadata.prompts[0].1.overriden_lines, 1);
}

#[test]
fn unstaged_lines_stay_in_the_working_log() {
    let base = "line1\nline2\nline3\n";
    let staged = "line1\nline2\nline3\nai_a\nai_b\n";
    let all = "line1\nline2\nline3\nai_a\nai_b\nunstaged_a\nunstaged_b\n";
    let (mut log, mut blobs) = (Vec::new(), Vec::new());
    checkpoint(&mut log, &mut blobs, true, "test.txt", base, staged, 1000);
    checkpoint(&mut log, &mut blobs, true, "test.txt", staged, all, 2000);

    let outcome = post_commit(
        &log,
        Some("base-sha"),
        "dev",
        &vec!["test.txt".to_string()],
        &lines("test.txt", &[4, 5]),
        &lines("test.txt", &[6, 7]),
        &blobs,
    );

    assert_eq!(
        outcome.authorship_log.attestations[0].entries,
        vec![AttestationEntry { hash: session_hash(), line_ranges: vec![LineRange::Range(4, 5)] }]
    );
    // only the second checkpoint holds the two unstaged lines
    let kept = outcome.working_log.expect("a working log for the new commit");
    assert_eq!(kept.len(), 1);
    assert_eq!(kept[0].entries.len(), 1);
    let entry = &kept[0].entries[0];
    let start = staged.len();
    assert_eq!(entry.attributions.len(), 1);
    assert_eq!(
        (entry.attributions[0].start, entry.attributions[0].end),
        (start, start + "unstaged_a\nunstaged_b".len())
    );
    assert_eq!(entry.attributions[0].author_id, session_hash());
    assert_eq!(entry.line_attributions.len(), 1);
    assert_eq!(
        (entry.line_attributions[0].start_line, entry.line_attributions[0].end_line),
        (6, 7)
    );
}

#[test]
fn first_commit_of_a_repository_with_both_kinds_of_author() {
    let human = "human1\nhuman2\n";
    let both = "human1\nhuman2\nAI3\nAI4\n";
    let (mut log, mut blobs) = (Vec::new(), Vec::new());
    checkpoint(&mut log, &mut blobs, false, "new.txt", "", human, 1000);
    checkpoint(&mut log, &mut blobs, true, "new.txt", human, both, 2000);

    let outcome = post_commit(
        &log,
        None,
        "dev",
        &vec!["new.txt".to_string()],
        &lines("new.txt", &[1, 2, 3, 4]),
        &vec![],
        &blobs,
    );

    assert_eq!(outcome.authorship_log.metadata.base_commit_sha, "initial");
    assert_eq!(
        outcome.authorship_log.attestations[0].entries,
        vec![AttestationEntry { hash: session_hash(), line_ranges: vec![LineRange::Range(3, 4)] }]
    );
}

#[test]
fn files_that_the_commit_does_not_change_are_left_out() {
    let (mut log, mut blobs) = (Vec::new(), Vec::new());
    checkpoint(&mut log, &mut blobs, true, "a.txt", "", "ai\n", 1000);
    checkpoint(&mut log, &mut blobs, true, "b.txt", "", "ai\n", 2000);

    let outcome = post_commit(
        &log,
        Some("base"),
        "dev",
        &vec!["b.txt".to_string()],
        &lines("b.txt", &[1]),
        &vec![],
        &blobs,
    );

    assert_eq!(outcome.authorship_log.attestations.len(), 1);
    assert_eq!(outcome.authorship_log.attestations[0].file_path, "b.txt");
}

#[test]
fn rebase_without_conflict_carries_the_note_over() {
    let mut source = AuthorshipLog::new();
    let mut file = FileAttestation::new("feature.txt".to_string());
    file.add_entry(AttestationEntry::new("abc".to_string(), vec![LineRange::Single(1)]));
    source.attestations.push(file);
    let versions = vec![FileVersions {
        path: "feature.txt".to_string(),
        source_content: "// AI\n".to_string(),
        new_content: "// AI\n".to_string(),
    }];

    let rewritten = rewrite_authorship_after_rebase(&source, &versions);

    assert_eq!(rewritten.attestations, source.attestations);
    // the same log again gives the same note
    assert_eq!(rewrite_authorship_after_rebase(&source, &versions), rewritten);
}

#[test]
fn rebase_moves_lines_with_the_content() {
    let mut source = AuthorshipLog::new();
    let mut file = FileAttestation::new("f.txt".to_string());
    file.add_entry(AttestationEntry::new("abc".to_string(), vec![LineRange::Range(2, 3)]));
    source.attestations.push(file);
    let mut gone = FileAttestation::new("gone.txt".to_string());
    gone.add_entry(AttestationEntry::new("abc".to_string(), vec![LineRange::Single(1)]));
    source.attestations.push(gone);
    let versions = vec![FileVersions {
        path: "f.txt".to_string(),
        source_content: "a\nai1\nai2\nb\n".to_string(),
        new_content: "top\nnew\na\nai1\nchanged\nb\n".to_string(),
    }];

    let rewritten = rewrite_authorship_after_rebase(&source, &versions);

    assert_eq!(rewritten.attestations.len(), 1);
    assert_eq!(rewritten.attestations[0].file_path, "f.txt");
    assert_eq!(rewritten.attestations[0].entries[0].line_ranges, vec![LineRange::Single(4)]);
}

#[test]
fn one_checkpoint_or_two_publish_the_same_lines() {
    let base = "Base line 1\nBase line 2\n";
    let half = "Base line 1\nBase line 2\nNEW\n";
    let whole = "Base line 1\nBase line 2\nNEW\nHello\nWorld\n";

    let (mut at_once, mut blobs_at_once) = (Vec::new(), Vec::new());
    checkpoint(&mut at_once, &mut blobs_at_once, true, "test.txt", base, whole, 1000);

    let (mut in_steps, mut blobs_in_steps) = (Vec::new(), Vec::new());
    checkpoint(&mut in_steps, &mut blobs_in_steps, true, "test.txt", base, half, 1000);
    checkpoint(&mut in_steps, &mut blobs_in_steps, true, "test.txt", half, whole, 2000);
    assert_eq!(at_once.len(), 1);
    assert_eq!(in_steps.len(), 2);

    let publish = |log: &Vec<Checkpoint>, blobs: &Vec<(String, String)>| {
        post_commit(
            log,
            Some("base-sha"),
            "dev <dev@example.com>",
            &vec!["test.txt".to_string()],
            &lines("test.txt", &[3, 4, 5]),
            &vec![],
            blobs,
        )
        .authorship_log
    };
    let first = publish(&at_once, &blobs_at_once);
    let second = publish(&in_steps, &blobs_in_steps);
    assert_eq!(first.attestations, second.attestations);
    assert_eq!(
        first.attestations,
        vec![FileAttestation {
            file_path: "test.txt".to_string(),
            entries: vec![AttestationEntry {
                hash: session_hash(),
                line_ranges: vec![LineRange::Range(3, 5)],
            }],
        }]
    );
}

#[test]
fn session_hash_is_the_start_of_a_digest() {
    // SHA-256 of "cursor:session-1", its first sixteen digits
    assert_eq!(generate_short_hash("session-1", "cursor"), "62e68fddf6c0cbec");
    assert_ne!(generate_short_hash("session-1", "cursor"), generate_short_hash("cursor", "session-1"));
}
