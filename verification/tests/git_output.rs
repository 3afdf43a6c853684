use git_ai::git::repository::{is_branch, other_branches, parse_tree_entry, qualify_branch};
use git_ai::git::rewrite_log::{
    append_event_to_log, join_records, keep_newest, prepend_event, records_of_jsonl,
    AuthorshipLogsSyncedEvent, CherryPickEvent, RewriteLogEvent, MAX_EVENTS,
};
use git_ai::git::status::{parse_status, EntryKind, StatusCode};
use git_ai::text::{parse_u32, split, str_eq, str_starts_with, trim, Separator};

fn s(v: &[&str]) -> Vec<String> {
    v.iter().map(|x| x.to_string()).collect()
}

fn chars(s: &str) -> Vec<char> {
    s.chars().collect()
}

#[test]
fn status_is_read_record_by_record() {
    let out = "# branch.oid abc\n\
1 .M N... 100644 100644 100644 1111 2222 src/with space.rs\n\
1 D. N... 100644 000000 000000 1111 0000 gone.txt\n\
2 R. N... 100644 100644 100644 1111 2222 R100 new name.txt\told name.txt\n\
u UU N... 100644 100644 100644 100644 1 2 3 conflict.txt\n\
? fresh.txt\n\
! target/\n";
    let entries = parse_status(out);
    assert_eq!(entries.len(), 6);
    assert_eq!(entries[0].kind, EntryKind::Ordinary);
    assert_eq!((entries[0].staged, entries[0].unstaged), (StatusCode::Unmodified, StatusCode::Modified));
    assert_eq!(entries[0].path, "src/with space.rs");
    assert_eq!((entries[1].staged, entries[1].unstaged), (StatusCode::Deleted, StatusCode::Unmodified));
    assert_eq!(entries[2].kind, EntryKind::Renamed);
    assert_eq!(entries[2].path, "new name.txt");
    assert_eq!(entries[2].orig_path, Some("old name.txt".to_string()));
    assert_eq!(entries[3].kind, EntryKind::Unmerged);
    assert_eq!(entries[3].path, "conflict.txt");
    assert_eq!((entries[4].kind, entries[4].path.as_str()), (EntryKind::Untracked, "fresh.txt"));
    assert_eq!((entries[5].kind, entries[5].path.as_str()), (EntryKind::Ignored, "target/"));
    assert!(!entries[3].has_change() && !entries[5].has_change() && entries[4].has_change());
}

#[test]
fn tree_entry_is_found_by_path() {
    let out = "100644 blob aaa\tsrc/a.rs\u{0}100755 blob bbb\tsrc/a.rs.bak\u{0}";
    let entry = parse_tree_entry(out, "src/a.rs").unwrap();
    assert_eq!((entry.mode.as_str(), entry.object_type.as_str(), entry.oid.as_str()), ("100644", "blob", "aaa"));
    assert_eq!(entry.path, "src/a.rs");
    assert_eq!(parse_tree_entry(out, "src/a.rs.bak").unwrap().oid, "bbb");
    // no record of this very path: the first one
    assert_eq!(parse_tree_entry(out, "src").unwrap().oid, "aaa");
    assert!(parse_tree_entry("", "x").is_err());
    assert!(parse_tree_entry("100644 blob\tx\u{0}", "x").is_err());
}

#[test]
fn branch_names() {
    assert!(is_branch("refs/heads/main"));
    assert!(!is_branch("refs/tags/v1"));
    assert_eq!(qualify_branch(Some("refs/heads/main\n"), "main"), "refs/heads/main");
    assert_eq!(qualify_branch(Some(" \n"), "main"), "refs/heads/main");
    assert_eq!(qualify_branch(None, "refs/remotes/o/x"), "refs/remotes/o/x");
    assert_eq!(
        other_branches("refs/heads/a\nrefs/heads/main\n\nrefs/heads/b\n", "refs/heads/main"),
        s(&["refs/heads/a", "refs/heads/b"])
    );
}

#[test]
fn rewrite_log_keeps_the_newest_events() {
    let event = |n: usize| RewriteLogEvent::commit(None, format!("sha{}", n));
    let many: Vec<RewriteLogEvent> = (0..MAX_EVENTS + 5).map(event).collect();
    let kept = keep_newest(many.clone());
    assert_eq!(kept.len(), MAX_EVENTS);
    assert_eq!(kept[0], event(0));
    assert_eq!(kept[MAX_EVENTS - 1], event(MAX_EVENTS - 1));
    let more = prepend_event(kept, event(999));
    assert_eq!(more.len(), MAX_EVENTS);
    assert_eq!(more[0], event(999));
    assert_eq!(more[1], event(0));
    assert_eq!(prepend_event(vec![], event(1)), vec![event(1)]);
}

#[test]
fn rewrite_log_is_written_newest_first() {
    assert_eq!(append_event_to_log("{\"a\":1}", None), "{\"a\":1}\n");
    assert_eq!(append_event_to_log("new", Some(&s(&["old1", "old2"]))), "new\nold1\nold2");
    let many: Vec<String> = (0..MAX_EVENTS).map(|n| format!("e{}", n)).collect();
    let content = append_event_to_log("new", Some(&many));
    let lines: Vec<&str> = content.lines().collect();
    assert_eq!(lines.len(), MAX_EVENTS);
    assert_eq!(lines[0], "new");
    assert_eq!(lines[MAX_EVENTS - 1], format!("e{}", MAX_EVENTS - 2));
    assert_eq!(join_records(&s(&[])), "");
    assert_eq!(join_records(&s(&["x"])), "x");
}

#[test]
fn records_are_the_lines_that_are_not_blank() {
    assert_eq!(records_of_jsonl("{\"a\":1}\n\n  \n {\"b\":2} \r\n{\"c\":3}"), s(&["{\"a\":1}", " {\"b\":2} ", "{\"c\":3}"]));
    assert_eq!(records_of_jsonl(""), s(&[]));
}

#[test]
fn events_hold_what_they_are_given() {
    let pick = CherryPickEvent::new("def456".to_string(), "main".to_string(), Some("ghi789".to_string()), true, vec![]);
    match RewriteLogEvent::cherry_pick(pick) {
        RewriteLogEvent::CherryPick { cherry_pick } => {
            assert_eq!(cherry_pick.source_commit, "def456");
            assert_eq!(cherry_pick.new_commit_sha, Some("ghi789".to_string()));
        }
        _ => panic!("Expected CherryPick event"),
    }
    match RewriteLogEvent::merge("feature".to_string(), "main".to_string(), Some("abc123".to_string()), true, vec![]) {
        RewriteLogEvent::Merge { merge } => {
            assert_eq!(merge.source_branch, "feature");
            assert!(merge.success && merge.conflicts.is_empty());
        }
        _ => panic!("Expected Merge event"),
    }
    let synced = AuthorshipLogsSyncedEvent::new(s(&["a"]), s(&["origin"]));
    assert_eq!((synced.synced, synced.origin), (s(&["a"]), s(&["origin"])));
    assert!(synced.timestamp > 0);
}

#[test]
fn text_helpers() {
    assert!(str_eq("héllo", "héllo") && !str_eq("héllo", "hello") && !str_eq("a", "ab"));
    assert!(str_starts_with("--author=x", "--author=") && !str_starts_with("--auth", "--author="));
    assert_eq!(trim(&chars(" \t x y \r\n")), chars("x y"));
    assert_eq!(trim(&chars("   ")), chars(""));
    assert_eq!(parse_u32(&chars("42")), Some(42));
    assert_eq!(parse_u32(&chars("+7")), Some(7));
    assert_eq!(parse_u32(&chars("4294967295")), Some(u32::MAX));
    assert_eq!(parse_u32(&chars("4294967296")), None);
    assert_eq!(parse_u32(&chars("")), None);
    assert_eq!(parse_u32(&chars("+")), None);
    assert_eq!(parse_u32(&chars("1x")), None);
    assert_eq!(parse_u32(&chars("-1")), None);
    assert_eq!(
        split(&chars("a,,b,"), Separator::Char(','), true, true),
        vec![chars("a"), chars(""), chars("b"), chars("")]
    );
    assert_eq!(split(&chars("  a  b "), Separator::Blank, false, false), vec![chars("a"), chars("b")]);
}

#[test]
fn events_and_checkpoints_hold_the_time_they_are_given() {
    let event = git_ai::git::rewrite_log::AuthorshipLogsSyncedEvent::at(
        vec!["a".to_string()],
        vec!["origin".to_string()],
        1_700_000_000,
    );
    assert_eq!(event.synced, vec!["a".to_string()]);
    assert_eq!(event.origin, vec!["origin".to_string()]);
    assert_eq!(event.timestamp, 1_700_000_000);

    let checkpoint = git_ai::log_fmt::working_log::Checkpoint::at(
        "snap".to_string(),
        "diff".to_string(),
        "dev".to_string(),
        vec![],
        None,
        42,
    );
    assert_eq!(checkpoint.snapshot, "snap");
    assert_eq!(checkpoint.diff, "diff");
    assert_eq!(checkpoint.author, "dev");
    assert_eq!(checkpoint.timestamp, 42);
    assert!(checkpoint.agent_metadata.is_none() && checkpoint.prompt.is_none());
}
