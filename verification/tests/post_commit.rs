use git_ai::authorship::post_commit::post_commit;
use git_ai::authorship::working_log::{Checkpoint, CheckpointKind};
use git_ai::commands::checkpoint::{content_hash, run, TrackedFile};

fn checkpoint_human(log: &mut Vec<Checkpoint>, author: &str, path: &str, previous: &str, current: &str, ts: u128) {
    let files = vec![TrackedFile {
        path: path.to_string(),
        previous_content: previous.to_string(),
        current_content: current.to_string(),
        blame: vec![],
    }];
    let hashes = vec![(path.to_string(), content_hash(current))];
    let outcome = run(author, CheckpointKind::Human, false, log, &files, &hashes, None, ts).unwrap();
    if let Some(checkpoint) = outcome.checkpoint {
        log.push(checkpoint);
    }
}

#[test]
fn test_post_commit_empty_repo_with_checkpoint() {
    // a repository without commits: the file is new, and checkpointed twice
    let mut log = Vec::new();
    checkpoint_human(&mut log, "test_user", "test.txt", "", "Hello, world!\n", 1000);
    checkpoint_human(
        &mut log,
        "test_user",
        "test.txt",
        "Hello, world!\n",
        "Hello, world!\nSecond line\n",
        2000,
    );
    assert_eq!(log.len(), 2);

    // "Initial commit": there is no base commit
    let outcome = post_commit(
        &log,
        None,
        "test_user",
        &vec!["test.txt".to_string()],
        &vec![("test.txt".to_string(), vec![1, 2])],
        &vec![],
        &vec![],
    );

    assert_eq!(
        outcome.authorship_log.metadata.base_commit_sha, "initial",
        "post_commit should handle empty repo (base_commit=None) without errors"
    );
    assert_eq!(outcome.authorship_log.metadata.human_author.as_deref(), Some("test_user"));
    assert!(outcome.authorship_log.attestations.is_empty());
    assert!(outcome.working_log.is_none());
}

#[test]
fn test_post_commit_empty_repo_no_checkpoint() {
    // "test.txt" holds "Hello, world!\n" and was never checkpointed
    let log: Vec<Checkpoint> = Vec::new();

    // "Initial commit"
    let outcome = post_commit(
        &log,
        None,
        "test_user",
        &vec!["test.txt".to_string()],
        &vec![("test.txt".to_string(), vec![1])],
        &vec![],
        &vec![],
    );

    assert!(
        outcome.working_log.is_none(),
        "post_commit should handle empty repo with no checkpoints without errors"
    );
    let authorship_log = outcome.authorship_log;
    assert_eq!(authorship_log.metadata.base_commit_sha, "initial");
    assert!(
        authorship_log.attestations.is_empty(),
        "Should have empty attestations when no checkpoints exist"
    );
}
