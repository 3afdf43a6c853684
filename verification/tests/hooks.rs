use git_ai::commands::hooks::commit_hooks::{
    commit_post_command_hook, commit_pre_command_hook, extract_author_from_args,
    get_commit_default_author, AuthorSources,
};
use git_ai::commands::hooks::push_hooks::{
    choose_push_remote, extract_remote_from_push_args, is_push_option_with_inline_value,
    option_consumes_separate_value, should_push_authorship,
};
use git_ai::commands::hooks::reset_hooks::{
    extract_pathspecs, extract_tree_ish, get_pathspec_from_file_path, has_pathspec_from_file,
    has_reset_mode_flag, is_pathspec_nul, post_reset_plan, preserve_working_dir_plan,
    read_pathspecs_from_file, PreservePlan, ResetPlan,
};
use git_ai::git::cli_parser::ParsedGitInvocation;
use git_ai::git::rewrite_log::RewriteLogEvent;

fn s(v: &[&str]) -> Vec<String> {
    v.iter().map(|x| x.to_string()).collect()
}

fn reset(args: &[&str]) -> ParsedGitInvocation {
    ParsedGitInvocation {
        global_args: vec![],
        command: Some("reset".to_string()),
        command_args: s(args),
        saw_end_of_opts: false,
        is_help: false,
    }
}

#[test]
fn author_is_read_from_either_form() {
    assert_eq!(extract_author_from_args(&s(&["-m", "x", "--author=Ada <a@b>"])), Some("Ada <a@b>".to_string()));
    assert_eq!(extract_author_from_args(&s(&["--author", "Bob", "-m", "x"])), Some("Bob".to_string()));
    assert_eq!(extract_author_from_args(&s(&["-m", "x", "--author"])), None);
    assert_eq!(extract_author_from_args(&s(&["--author="])), Some("".to_string()));
    assert_eq!(extract_author_from_args(&s(&[])), None);
}

fn sources() -> AuthorSources {
    AuthorSources {
        resolved_author: None,
        env_name: None,
        config_name: None,
        env_email: None,
        config_email: None,
        env_fallback_email: None,
    }
}

#[test]
fn default_author_follows_the_precedence_of_git() {
    assert_eq!(get_commit_default_author(&sources()), "unknown");
    let mut src = sources();
    src.config_name = Some(" Config Name ".to_string());
    src.config_email = Some("config@example.com".to_string());
    assert_eq!(get_commit_default_author(&src), "Config Name <config@example.com>");
    src.env_name = Some("Env Name".to_string());
    src.env_email = Some("   ".to_string());
    assert_eq!(get_commit_default_author(&src), "Env Name <config@example.com>");
    src.resolved_author = Some("Resolved <r@example.com>\n".to_string());
    assert_eq!(get_commit_default_author(&src), "Resolved <r@example.com>");
}

#[test]
fn fallback_address_gives_name_and_address() {
    let mut src = sources();
    src.env_fallback_email = Some("jane@example.com ".to_string());
    assert_eq!(get_commit_default_author(&src), "jane <jane@example.com>");
    src.env_fallback_email = Some("@example.com".to_string());
    assert_eq!(get_commit_default_author(&src), "@example.com");
    src.env_name = Some("Jane".to_string());
    src.env_fallback_email = None;
    assert_eq!(get_commit_default_author(&src), "Jane");
}

#[test]
fn commit_records_a_commit_or_an_amendment() {
    assert!(commit_pre_command_hook(&s(&["-m", "x"])));
    assert!(!commit_pre_command_hook(&s(&["--dry-run"])));
    assert_eq!(
        commit_post_command_hook(&s(&["-m", "x"]), true, Some("old".to_string()), Some("new".to_string())),
        Some(RewriteLogEvent::commit(Some("old".to_string()), "new".to_string()))
    );
    assert_eq!(
        commit_post_command_hook(&s(&["--amend"]), true, Some("old".to_string()), Some("new".to_string())),
        Some(RewriteLogEvent::commit_amend("old".to_string(), "new".to_string()))
    );
    assert_eq!(
        commit_post_command_hook(&s(&["--amend"]), true, None, Some("new".to_string())),
        Some(RewriteLogEvent::commit(None, "new".to_string()))
    );
    assert_eq!(commit_post_command_hook(&s(&[]), false, None, Some("new".to_string())), None);
    assert_eq!(commit_post_command_hook(&s(&["--dry-run"]), true, None, Some("new".to_string())), None);
    assert_eq!(commit_post_command_hook(&s(&[]), true, Some("old".to_string()), None), None);
}

#[test]
fn push_options_with_values() {
    assert!(option_consumes_separate_value("--repo"));
    assert!(option_consumes_separate_value("-o"));
    assert!(!option_consumes_separate_value("--force"));
    assert_eq!(
        is_push_option_with_inline_value("--repo=origin"),
        Some(("--repo".to_string(), "origin".to_string()))
    );
    assert_eq!(
        is_push_option_with_inline_value("-cuser.name=x=y"),
        Some(("-cuser.name".to_string(), "x=y".to_string()))
    );
    assert_eq!(is_push_option_with_inline_value("-C/tmp"), Some(("-C".to_string(), "/tmp".to_string())));
    assert_eq!(is_push_option_with_inline_value("-C"), None);
    assert_eq!(is_push_option_with_inline_value("--force"), None);
}

#[test]
fn remote_of_a_push() {
    let known = s(&["origin", "upstream"]);
    assert_eq!(extract_remote_from_push_args(&s(&["upstream", "main"]), &known), Some("upstream".to_string()));
    assert_eq!(extract_remote_from_push_args(&s(&["--force", "-o", "ci.skip", "fork"]), &known), Some("fork".to_string()));
    assert_eq!(extract_remote_from_push_args(&s(&["--repo=there", "x"]), &known), Some("there".to_string()));
    assert_eq!(extract_remote_from_push_args(&s(&["--repo", "there"]), &known), Some("there".to_string()));
    assert_eq!(extract_remote_from_push_args(&s(&["--repo"]), &known), None);
    assert_eq!(extract_remote_from_push_args(&s(&["--", "last"]), &known), Some("last".to_string()));
    assert_eq!(extract_remote_from_push_args(&s(&["--"]), &known), None);
    assert_eq!(extract_remote_from_push_args(&s(&["--force"]), &known), None);
    // a known remote that only stands as the value of an option
    assert_eq!(extract_remote_from_push_args(&s(&["-o", "origin"]), &known), Some("origin".to_string()));
    assert_eq!(extract_remote_from_push_args(&s(&["--exec"]), &known), None);
}

#[test]
fn notes_follow_a_plain_push_only() {
    assert!(should_push_authorship(&s(&["origin", "main"]), true));
    assert!(!should_push_authorship(&s(&["origin", "main"]), false));
    assert!(!should_push_authorship(&s(&["--dry-run"]), true));
    assert!(!should_push_authorship(&s(&["-d", "origin", "x"]), true));
    assert!(!should_push_authorship(&s(&["--delete", "origin", "x"]), true));
    assert!(!should_push_authorship(&s(&["--mirror"]), true));
    let known = s(&["origin"]);
    assert_eq!(
        choose_push_remote(&s(&["--force"]), &known, Some("up".to_string()), Some("origin".to_string())),
        Some("up".to_string())
    );
    assert_eq!(choose_push_remote(&s(&[]), &known, None, Some("origin".to_string())), Some("origin".to_string()));
    assert_eq!(choose_push_remote(&s(&["fork"]), &known, Some("up".to_string()), None), Some("fork".to_string()));
    assert_eq!(choose_push_remote(&s(&[]), &known, None, None), None);
}

#[test]
fn reset_names_its_target() {
    assert_eq!(extract_tree_ish(&reset(&["--hard", "HEAD~1"])), "HEAD~1");
    assert_eq!(extract_tree_ish(&reset(&["--soft"])), "HEAD");
    assert_eq!(extract_tree_ish(&reset(&["abc", "--", "src/a.rs"])), "abc");
    assert_eq!(extract_tree_ish(&reset(&[])), "HEAD");
    assert_eq!(extract_tree_ish(&reset(&["--", "a.txt"])), "HEAD");
    assert_eq!(extract_tree_ish(&reset(&["-q", "--", "a.txt", "b.txt"])), "HEAD");
    assert_eq!(extract_tree_ish(&reset(&["-q", "abc", "def", "--"])), "abc");
    assert_eq!(extract_tree_ish(&reset(&["a.txt"])), "a.txt");
    assert!(has_reset_mode_flag(&reset(&["--keep", "x"])));
    assert!(!has_reset_mode_flag(&reset(&["x"])));
}

#[test]
fn reset_names_its_pathspecs() {
    assert_eq!(extract_pathspecs(&reset(&["HEAD", "--", "a.rs", "b.rs"]), ""), s(&["a.rs", "b.rs"]));
    assert_eq!(extract_pathspecs(&reset(&["--mixed", "HEAD~1"]), ""), s(&[]));
    assert_eq!(extract_pathspecs(&reset(&["abc", "a.rs", "b.rs"]), ""), s(&["a.rs", "b.rs"]));
    assert_eq!(extract_pathspecs(&reset(&["a.rs"]), ""), s(&["a.rs"]));
    assert_eq!(extract_pathspecs(&reset(&["--", "a.rs", "--", "-x"]), ""), s(&["a.rs", "-x"]));
    assert_eq!(extract_pathspecs(&reset(&["-q", "--", "a.rs"]), ""), s(&["a.rs"]));
}

#[test]
fn pathspecs_are_read_from_a_file() {
    let from_file = reset(&["--pathspec-from-file=list.txt", "HEAD"]);
    assert_eq!(get_pathspec_from_file_path(&from_file), Some("list.txt".to_string()));
    assert!(has_pathspec_from_file(&from_file));
    assert!(!is_pathspec_nul(&from_file));
    assert_eq!(extract_pathspecs(&from_file, "a.rs\n\nb.rs\r\n"), s(&["a.rs", "b.rs"]));
    let separate = reset(&["--pathspec-from-file", "-", "--pathspec-file-nul"]);
    assert_eq!(get_pathspec_from_file_path(&separate), Some("-".to_string()));
    assert!(is_pathspec_nul(&separate));
    assert_eq!(extract_pathspecs(&separate, "a.rs\0\0b c.rs\0"), s(&["a.rs", "b c.rs"]));
    assert_eq!(get_pathspec_from_file_path(&reset(&["--pathspec-from-file"])), None);
    assert_eq!(read_pathspecs_from_file("x\ny", false), s(&["x", "y"]));
    assert_eq!(read_pathspecs_from_file("x\ny", true), s(&["x\ny"]));
}

#[test]
fn reset_plans() {
    assert_eq!(post_reset_plan(&reset(&["--hard", "x"]), false, true), ResetPlan::DiscardWorkingLog);
    assert_eq!(
        post_reset_plan(&reset(&["--soft", "x"]), false, true),
        ResetPlan::PreserveWorkingDir { pathspecs_only: false }
    );
    assert_eq!(
        post_reset_plan(&reset(&["x", "--", "a"]), true, true),
        ResetPlan::PreserveWorkingDir { pathspecs_only: true }
    );
    assert_eq!(post_reset_plan(&reset(&["--keep", "x"]), false, true), ResetPlan::Skip);
    assert_eq!(post_reset_plan(&reset(&["--hard", "x"]), false, false), ResetPlan::Skip);
    assert_eq!(preserve_working_dir_plan("a", "a", true), PreservePlan::Nothing);
    assert_eq!(preserve_working_dir_plan("a", "b", true), PreservePlan::Reconstruct);
    assert_eq!(preserve_working_dir_plan("a", "b", false), PreservePlan::DiscardOld);
}

#[test]
fn invocation_is_put_together_again() {
    let parsed = ParsedGitInvocation {
        global_args: s(&["-C", "."]),
        command: Some("--weird".to_string()),
        command_args: s(&["a", "--", "b"]),
        saw_end_of_opts: true,
        is_help: false,
    };
    assert_eq!(parsed.to_invocation_vec(), s(&["-C", ".", "--", "--weird", "a", "--", "b"]));
    assert_eq!(parsed.pos_command(0), Some("a".to_string()));
    assert_eq!(parsed.pos_command(1), Some("b".to_string()));
    assert_eq!(parsed.pos_command(2), None);
    assert!(parsed.has_command_flag("--"));
    assert!(!parsed.has_command_flag("-x"));
}

#[test]
fn environment_comes_before_configuration() {
    let mut src = sources();
    src.env_fallback_email = Some("e@env.org".to_string());
    src.config_name = Some("Cfg".to_string());
    src.config_email = Some("c@cfg.org".to_string());
    assert_eq!(get_commit_default_author(&src), "e <e@env.org>");
    src.env_fallback_email = Some("@env.org".to_string());
    assert_eq!(get_commit_default_author(&src), "Cfg <@env.org>");
    src.env_email = Some("author@env.org".to_string());
    src.env_name = Some("Env".to_string());
    assert_eq!(get_commit_default_author(&src), "Env <author@env.org>");
}
