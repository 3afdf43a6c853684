use git_ai::git::repository::{
    check_first_parent, commit_tree_request, fmt_git_date, get_default_remote,
    expect_object_type, global_args_for_exec, infer_refname, parse_diff_added_lines,
    parse_hunk_header, parse_list, parse_parents, parse_remotes_with_urls, parse_signature,
    signature_time, Signature, Time,
};

fn s(v: &[&str]) -> Vec<String> {
    v.iter().map(|x| x.to_string()).collect()
}

#[test]
fn hunk_header_names_the_added_lines() {
    assert_eq!(parse_hunk_header("@@ -10,2 +15,5 @@"), Some(vec![15, 16, 17, 18, 19]));
    assert_eq!(parse_hunk_header("@@ -1 +1 @@ fn main() {"), Some(vec![1]));
    assert_eq!(parse_hunk_header("@@ -3,2 +2,0 @@"), Some(vec![]));
    assert_eq!(parse_hunk_header("@@ -0,0 +1,3 @@"), Some(vec![1, 2, 3]));
}

#[test]
fn hunk_header_that_reads_otherwise_names_nothing() {
    assert_eq!(parse_hunk_header("no marker here"), None);
    assert_eq!(parse_hunk_header("@@ -1,2 @@"), None);
    assert_eq!(parse_hunk_header("@@ -1,2 +x,1 @@"), None);
    assert_eq!(parse_hunk_header("@@ -1,2 +4294967295,1 @@"), None);
    assert_eq!(parse_hunk_header("@@ -1,2 +4294967294,1 @@"), Some(vec![4294967294]));
}

#[test]
fn diff_gives_sorted_lines_by_file() {
    let diff = "diff --git a/src/a.rs b/src/a.rs\n\
index 1111111..2222222 100644\n\
--- a/src/a.rs\n\
+++ b/src/a.rs\n\
@@ -4,0 +5,2 @@ fn a() {\n\
+one\n\
+two\n\
@@ -1 +1 @@\n\
-old\n\
+new\n\
diff --git a/gone.txt b/gone.txt\n\
deleted file mode 100644\n\
--- a/gone.txt\n\
+++ /dev/null\n\
@@ -1,2 +0,0 @@\n\
-x\n\
-y\n\
diff --git a/b.txt b/b.txt\n\
--- a/b.txt\n\
+++ b/b.txt\n\
@@ -2,0 +3 @@\n\
+three\n\
@@ -9,2 +9,0 @@\n\
-gone\n";
    let added = parse_diff_added_lines(diff).unwrap();
    assert_eq!(
        added,
        vec![("src/a.rs".to_string(), vec![1, 5, 6]), ("b.txt".to_string(), vec![3])]
    );
}

#[test]
fn diff_with_only_deleted_lines_keeps_the_file_without_lines() {
    let diff = "--- a/b.txt\n+++ b/b.txt\n@@ -9,2 +8,0 @@\n-gone\n";
    assert_eq!(parse_diff_added_lines(diff).unwrap(), vec![("b.txt".to_string(), vec![])]);
}

#[test]
fn no_pager_is_added_once() {
    assert_eq!(global_args_for_exec(&s(&["-C", ".."])), s(&["-C", "..", "--no-pager"]));
    assert_eq!(global_args_for_exec(&s(&["--no-pager", "-C", "x"])), s(&["--no-pager", "-C", "x"]));
    assert_eq!(global_args_for_exec(&s(&[])), s(&["--no-pager"]));
}

#[test]
fn default_remote_prefers_origin() {
    assert_eq!(get_default_remote(&s(&[])), None);
    assert_eq!(get_default_remote(&s(&["upstream", "origin"])), Some("origin".to_string()));
    assert_eq!(get_default_remote(&s(&["upstream", "fork"])), Some("upstream".to_string()));
}

#[test]
fn list_skips_blank_lines() {
    assert_eq!(
        parse_list("refs/heads/main\n\n  refs/heads/feature \r\nrefs/tags/v1"),
        s(&["refs/heads/main", "refs/heads/feature", "refs/tags/v1"])
    );
    assert_eq!(parse_list(""), s(&[]));
}

#[test]
fn git_date_has_seconds_and_offset() {
    assert_eq!(fmt_git_date(Time::new(1700000000, 330)), "1700000000 +0530");
    assert_eq!(fmt_git_date(Time::new(0, 0)), "0 +0000");
    assert_eq!(fmt_git_date(Time::new(-5, -480)), "-5 -0800");
    assert_eq!(fmt_git_date(Time::new(12, -5)), "12 -0005");
}

#[test]
fn signature_time_is_read_from_rfc3339() {
    let t = signature_time("1996-12-19T16:39:57-08:00");
    assert_eq!(t.seconds(), 851042397);
    assert_eq!(t.offset_minutes(), -480);
    let epoch = signature_time("not a time");
    assert_eq!((epoch.seconds(), epoch.offset_minutes()), (0, 0));
}

#[test]
fn commit_tree_request_carries_both_identities() {
    let author = Signature::new(
        " Ada ".to_string(),
        "ada@example.com".to_string(),
        "2024-01-02T03:04:05+01:00".to_string(),
    );
    let committer = Signature::new(
        "Bob".to_string(),
        "bob@example.com".to_string(),
        "2024-01-02T03:04:06Z".to_string(),
    );
    let request =
        commit_tree_request(&s(&["-C", "repo"]), &author, &committer, "abc", &s(&["first", "second"]))
            .unwrap();
    assert_eq!(
        request.args,
        s(&["-C", "repo", "--no-pager", "commit-tree", "abc", "-p", "first", "-p", "second"])
    );
    assert_eq!(request.env[0], ("GIT_AUTHOR_NAME".to_string(), "Ada".to_string()));
    assert_eq!(request.env[2], ("GIT_AUTHOR_DATE".to_string(), "1704161045 +0100".to_string()));
    assert_eq!(request.env[5], ("GIT_COMMITTER_DATE".to_string(), "1704164646 +0000".to_string()));
    assert_eq!(request.env.len(), 6);
}

#[test]
fn commit_tree_request_needs_name_and_email() {
    let nameless =
        Signature::new("  ".to_string(), "a@b".to_string(), "2024-01-02T03:04:05Z".to_string());
    let full =
        Signature::new("Bob".to_string(), "b@b".to_string(), "2024-01-02T03:04:05Z".to_string());
    assert!(commit_tree_request(&s(&[]), &nameless, &full, "t", &s(&[])).is_err());
    assert!(commit_tree_request(&s(&[]), &full, &nameless, "t", &s(&[])).is_err());
    assert!(commit_tree_request(&s(&[]), &full, &full, "t", &s(&[])).is_ok());
}

#[test]
fn reference_moves_only_from_the_first_parent() {
    assert!(check_first_parent(None, &s(&[])).is_ok());
    assert!(check_first_parent(Some("abc"), &s(&["abc\n", "def"])).is_ok());
    assert!(check_first_parent(Some("abc"), &s(&["def", "abc"])).is_err());
    assert!(check_first_parent(Some("abc"), &s(&[])).is_err());
}

#[test]
fn signature_is_read_line_by_line() {
    let signature = parse_signature("  Ada Lovelace \nada@example.com\n2024-03-01T10:00:00+01:00\n");
    assert_eq!(signature.name(), Some("Ada Lovelace"));
    assert_eq!(signature.email(), Some("ada@example.com"));
    assert_eq!(signature.when().seconds(), 1709283600);
    assert_eq!(signature.when().offset_minutes(), 60);

    let short = parse_signature("Ada\n");
    assert_eq!(short.name(), Some("Ada"));
    assert_eq!(short.email(), None);
    assert_eq!(short.when().seconds(), 0);
}

#[test]
fn refname_is_given_or_inferred() {
    let one = s(&["refs/heads/topic"]);
    let two = s(&["refs/heads/topic", "refs/heads/main"]);
    assert_eq!(infer_refname(Some("refs/heads/x".to_string()), &one, None), "refs/heads/x");
    assert_eq!(infer_refname(None, &one, Some("refs/heads/main".to_string())), "refs/heads/topic");
    assert_eq!(infer_refname(None, &two, Some("refs/heads/main".to_string())), "refs/heads/main");
    assert_eq!(infer_refname(None, &s(&[]), None), "HEAD");
}

#[test]
fn object_type_is_checked() {
    assert!(expect_object_type("commit", "commit").is_ok());
    match expect_object_type("tree", "commit") {
        Err(git_ai::error::GitAiError::Generic(message)) => {
            assert_eq!(message, "Object is not a commit (type: tree)")
        }
        _ => panic!("expected an error"),
    }
}

#[test]
fn remotes_are_listed_once_with_their_first_address() {
    let output = "origin\thttps://example.com/a.git (fetch)\n\
                  origin\tssh://example.com/a.git (push)\n\
                  \n\
                  lonely\n\
                  fork  git@example.com:b.git (fetch)\n";
    assert_eq!(
        parse_remotes_with_urls(output),
        vec![
            ("origin".to_string(), "https://example.com/a.git".to_string()),
            ("fork".to_string(), "git@example.com:b.git".to_string()),
        ]
    );
    assert_eq!(parse_remotes_with_urls(""), vec![]);
}

#[test]
fn parents_are_the_words_of_the_output() {
    assert_eq!(parse_parents("abc def\n"), s(&["abc", "def"]));
    assert_eq!(parse_parents("  abc\n"), s(&["abc"]));
    assert_eq!(parse_parents("\n"), s(&[]));
}
