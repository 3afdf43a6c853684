use git_ai::authorship::authorship_log::LineRange;
use git_ai::authorship::authorship_log_serialization::{
    generate_short_hash, AttestationEntry, AuthorshipLog, FileAttestation, PromptRecord,
};
use git_ai::authorship::post_commit::{collect_committed_hunks, post_commit};
use git_ai::authorship::rebase_authorship::{
    amend_authorship, matches_pathspec, merge_pathspec_reset, reconstruct_working_log_after_reset,
    squash_authorship, ResetFile,
};
use git_ai::authorship::transcript::Message;
use git_ai::authorship::working_log::{AgentId, Checkpoint, CheckpointKind, WorkingLogEntry};
use git_ai::commands::checkpoint::content_hash;
use git_ai::commands::git_handlers::{rewrite_plan, RewritePlan};
use git_ai::commands::hooks::commit_hooks::after_pre_commit_checkpoint;
use git_ai::git::rewrite_log::{
    CherryPickEvent, MergeSquashEvent, RebaseInteractiveEvent, RebaseState, RewriteLogEvent,
};
use git_ai::commands::ci_handlers::{handle_ci, handle_ci_local, CiCommand, CiEvent, LocalCiError};
use git_ai::git::repository::{branch_log_args, range_ends, rebase_pairs};

fn s(v: &[&str]) -> Vec<String> {
    v.iter().map(|x| x.to_string()).collect()
}

fn agent() -> AgentId {
    AgentId { tool: "cursor".to_string(), id: "session-1".to_string(), model: "m".to_string() }
}

fn log_of(path: &str, hash: &str, ranges: Vec<LineRange>) -> AuthorshipLog {
    let mut log = AuthorshipLog::new();
    let mut file = FileAttestation::new(path.to_string());
    file.add_entry(AttestationEntry::new(hash.to_string(), ranges));
    log.attestations.push(file);
    log.metadata.prompts.push((
        hash.to_string(),
        PromptRecord {
            agent_id: agent(),
            human_author: Some("dev".to_string()),
            messages: vec![Message::user("do it".to_string(), None)],
            overriden_lines: 0,
        },
    ));
    log
}

#[test]
fn reset_turns_a_commit_into_uncommitted_work() {
    // the commit that is left behind adds "X\n", written by an agent
    let hash = generate_short_hash("session-1", "cursor");
    let log = log_of("x.txt", &hash, vec![LineRange::Single(1)]);
    let added = collect_committed_hunks(&vec![("x.txt".to_string(), vec![1])]);
    let files = vec![ResetFile { path: "x.txt".to_string(), content: "X\n".to_string() }];

    let checkpoints = reconstruct_working_log_after_reset(&log, &added, &files, "dev", 5000);

    assert_eq!(checkpoints.len(), 1);
    let checkpoint = &checkpoints[0];
    assert_eq!(checkpoint.kind, CheckpointKind::AiAgent);
    assert_eq!(checkpoint.agent_id, Some(agent()));
    assert_eq!(checkpoint.timestamp, 5000);
    assert_eq!(checkpoint.entries.len(), 1);
    let entry = &checkpoint.entries[0];
    assert_eq!(entry.file, "x.txt");
    assert_eq!(entry.blob_sha, content_hash("X\n"));
    assert_eq!(entry.line_attributions.len(), 1);
    assert_eq!((entry.line_attributions[0].start_line, entry.line_attributions[0].end_line), (1, 1));
    assert_eq!(entry.line_attributions[0].author_id, hash);
    assert_eq!((entry.attributions[0].start, entry.attributions[0].end), (0, 2));

    // committing again gives the authorship of the commit that was left behind
    let again = post_commit(
        &checkpoints,
        Some("c1"),
        "dev",
        &vec!["x.txt".to_string()],
        &vec![("x.txt".to_string(), vec![1])],
        &vec![],
        &vec![],
    );
    assert_eq!(again.authorship_log.attestations, log.attestations);
    assert_eq!(again.authorship_log.metadata.prompts[0].0, hash);
}

#[test]
fn reset_of_a_commit_without_attested_lines_leaves_no_checkpoint() {
    let log = log_of("x.txt", "h", vec![LineRange::Single(9)]);
    let added = collect_committed_hunks(&vec![("x.txt".to_string(), vec![1, 2])]);
    let files = vec![ResetFile { path: "x.txt".to_string(), content: "a\nb\n".to_string() }];
    assert_eq!(reconstruct_working_log_after_reset(&log, &added, &files, "dev", 1), vec![]);
}

#[test]
fn later_commits_count_in_a_squash() {
    let first = log_of("a.rs", "h1", vec![LineRange::Range(1, 5)]);
    let mut second = log_of("a.rs", "h2", vec![LineRange::Range(4, 6)]);
    second.attestations.push(FileAttestation {
        file_path: "b.rs".to_string(),
        entries: vec![AttestationEntry::new("h2".to_string(), vec![LineRange::Single(1)])],
    });

    let squashed = squash_authorship(&vec![first.clone(), second.clone()]);

    assert_eq!(squashed.attestations.len(), 2);
    assert_eq!(
        squashed.attestations[0].entries,
        vec![
            AttestationEntry::new("h1".to_string(), vec![LineRange::Range(1, 3)]),
            AttestationEntry::new("h2".to_string(), vec![LineRange::Range(4, 6)]),
        ]
    );
    assert_eq!(squashed.attestations[1].file_path, "b.rs");
    let hashes: Vec<&str> = squashed.metadata.prompts.iter().map(|p| p.0.as_str()).collect();
    assert_eq!(hashes, vec!["h1", "h2"]);
    assert_eq!(squash_authorship(&vec![first.clone()]), first);
    assert_eq!(squash_authorship(&vec![]), AuthorshipLog::new());
}

#[test]
fn amendment_keeps_what_is_still_added_under_what_came_since() {
    let original = log_of("a.rs", "h1", vec![LineRange::Range(1, 5)]);
    let since = log_of("a.rs", "h2", vec![LineRange::Single(2)]);
    let still_added = collect_committed_hunks(&vec![("a.rs".to_string(), vec![1, 2, 3, 8])]);

    let amended = amend_authorship(&original, &still_added, &since);

    assert_eq!(
        amended.attestations[0].entries,
        vec![
            AttestationEntry::new("h1".to_string(), vec![LineRange::Single(1), LineRange::Single(3)]),
            AttestationEntry::new("h2".to_string(), vec![LineRange::Single(2)]),
        ]
    );
}

fn checkpoint_of(files: &[&str]) -> Checkpoint {
    let entries = files
        .iter()
        .map(|f| WorkingLogEntry::new(f.to_string(), "blob".to_string(), vec![], vec![]))
        .collect();
    Checkpoint::at(CheckpointKind::Human, "snap".to_string(), "dev".to_string(), entries, 1)
}

#[test]
fn reset_of_some_paths_replaces_only_what_it_names() {
    assert!(matches_pathspec("src/a.rs", &s(&["docs/", "src/"])));
    assert!(matches_pathspec("src/a.rs", &s(&["src/a.rs"])));
    assert!(!matches_pathspec("src/a.rs", &s(&["src/b", "a.rs"])));
    let existing = vec![checkpoint_of(&["src/a.rs", "docs/x.md"]), checkpoint_of(&["src/b.rs"])];
    let rebuilt = vec![checkpoint_of(&["src/a.rs", "other.txt"]), checkpoint_of(&["other.txt"])];

    let merged = merge_pathspec_reset(&existing, &rebuilt, &s(&["src/"]));

    let files: Vec<Vec<&str>> =
        merged.iter().map(|c| c.entries.iter().map(|e| e.file.as_str()).collect()).collect();
    assert_eq!(files, vec![vec!["docs/x.md"], vec!["src/a.rs"]]);
}

#[test]
fn ci_subcommands() {
    assert_eq!(handle_ci(&s(&[])), CiCommand::Help);
    assert_eq!(handle_ci(&s(&["github"])), CiCommand::GithubHelp);
    assert_eq!(handle_ci(&s(&["github", "run"])), CiCommand::GithubRun);
    assert_eq!(handle_ci(&s(&["github", "install", "x"])), CiCommand::GithubInstall);
    assert_eq!(handle_ci(&s(&["github", "fly"])), CiCommand::UnknownGithub("fly".to_string()));
    assert_eq!(handle_ci(&s(&["local"])), CiCommand::LocalHelp);
    assert_eq!(
        handle_ci(&s(&["local", "merge", "--base-ref", "main"])),
        CiCommand::Local { event: "merge".to_string(), args: s(&["--base-ref", "main"]) }
    );
    assert_eq!(handle_ci(&s(&["gitlab"])), CiCommand::Unknown("gitlab".to_string()));
}

#[test]
fn local_ci_needs_every_flag_of_a_merge() {
    let full = s(&[
        "--head-sha", "h", "--merge-commit-sha", "m", "--base-ref", "main", "--head-ref", "f",
        "--base-sha", "b",
    ]);
    assert_eq!(
        handle_ci_local("merge", &full),
        Ok(CiEvent::Merge {
            merge_commit_sha: "m".to_string(),
            head_ref: "f".to_string(),
            head_sha: "h".to_string(),
            base_ref: "main".to_string(),
            base_sha: "b".to_string(),
        })
    );
    assert_eq!(
        handle_ci_local("merge", &s(&["--merge-commit-sha", "m", "--head-ref", "f"])),
        Err(LocalCiError::Required("--base-ref".to_string()))
    );
    assert_eq!(
        handle_ci_local("merge", &s(&["--base-ref", "x", "--merge-commit-sha"])),
        Err(LocalCiError::MissingValue("--merge-commit-sha".to_string()))
    );
    assert_eq!(
        handle_ci_local("push", &full),
        Err(LocalCiError::UnknownEvent("push".to_string()))
    );
}

#[test]
fn commits_of_a_branch() {
    assert_eq!(
        branch_log_args(&s(&["-C", "r"]), "feature", &s(&["refs/heads/main", "refs/heads/x"])),
        s(&[
            "-C", "r", "--no-pager", "log", "--format=%H", "--reverse", "--ancestry-path",
            "feature", "--not", "refs/heads/main", "refs/heads/x",
        ])
    );
    assert_eq!(
        branch_log_args(&s(&[]), "feature", &s(&[])),
        s(&["--no-pager", "log", "--format=%H", "--reverse", "--ancestry-path", "feature"])
    );
    assert_eq!(range_ends(&s(&["a", "b", "c"])).unwrap(), ("a".to_string(), "c".to_string()));
    assert!(range_ends(&s(&[])).is_err());
    assert_eq!(
        rebase_pairs(&s(&["o1", "o2", "o3"]), &s(&["n1", "n2"])),
        vec![("o1".to_string(), "n1".to_string()), ("o2".to_string(), "n2".to_string())]
    );
}

#[test]
fn events_ask_for_their_rewrite() {
    let squash = RewriteLogEvent::merge_squash(MergeSquashEvent::new(
        "feature".to_string(),
        "f1".to_string(),
        "main".to_string(),
        "m1".to_string(),
    ));
    let commit = RewriteLogEvent::commit(Some("m1".to_string()), "c1".to_string());
    assert_eq!(
        rewrite_plan(commit.clone(), &vec![squash.clone()]),
        RewritePlan::Publish {
            base_commit: Some("m1".to_string()),
            commit_sha: "c1".to_string(),
            squashed: Some("f1".to_string()),
        }
    );
    // a squash merge into another commit, or one further back, does not count
    let other = RewriteLogEvent::commit(Some("m0".to_string()), "c1".to_string());
    assert_eq!(
        rewrite_plan(other, &vec![squash.clone()]),
        RewritePlan::Publish {
            base_commit: Some("m0".to_string()),
            commit_sha: "c1".to_string(),
            squashed: None,
        }
    );
    assert_eq!(
        rewrite_plan(commit.clone(), &vec![commit.clone(), squash.clone()]),
        RewritePlan::Publish {
            base_commit: Some("m1".to_string()),
            commit_sha: "c1".to_string(),
            squashed: None,
        }
    );
    assert_eq!(
        rewrite_plan(RewriteLogEvent::commit_amend("c1".to_string(), "c2".to_string()), &vec![]),
        RewritePlan::Amend { original_commit: "c1".to_string(), amended_commit_sha: "c2".to_string() }
    );
    let interactive = RewriteLogEvent::rebase_interactive(RebaseInteractiveEvent::new(
        "base".to_string(),
        2,
        RebaseState::Complete,
        s(&["a", "b"]),
        s(&["x", "y"]),
    ));
    assert_eq!(
        rewrite_plan(interactive, &vec![]),
        RewritePlan::CarryOver { original_commits: s(&["a", "b"]), new_commits: s(&["x", "y"]) }
    );
    let picked = |new: Option<&str>| {
        RewriteLogEvent::cherry_pick(CherryPickEvent::new(
            "src".to_string(),
            "main".to_string(),
            new.map(|n| n.to_string()),
            new.is_some(),
            vec![],
        ))
    };
    assert_eq!(
        rewrite_plan(picked(Some("new")), &vec![]),
        RewritePlan::CarryOver { original_commits: s(&["src"]), new_commits: s(&["new"]) }
    );
    assert_eq!(rewrite_plan(picked(None), &vec![]), RewritePlan::Nothing);
    assert_eq!(rewrite_plan(squash, &vec![]), RewritePlan::Nothing);
}

#[test]
fn pre_commit_hook_counts_unless_the_repository_is_bare() {
    assert!(after_pre_commit_checkpoint(false, false));
    assert!(after_pre_commit_checkpoint(true, false));
    assert!(!after_pre_commit_checkpoint(true, true));
}
