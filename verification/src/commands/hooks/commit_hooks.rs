//! `git commit`: who the author of the commit is, and what the commit means
//! for the rewrite log.

use vstd::prelude::*;
use vstd::string::StringExecFns;

use crate::commands::hooks::push_hooks::{char_position, dry_run, find_char, is_dry_run};
use crate::text::{holds_str, texts};
use crate::git::rewrite_log::{CommitAmendEvent, CommitEvent, RewriteLogEvent};
use crate::text::{chars_of, copy_range, starts_with, str_eq, string_from_chars, trim, trimmed};

verus! {

/// The option that names the author, with the equals sign behind it.
pub open spec fn author_prefix() -> Seq<char> {
    "--author="@
}

/// The author that the arguments from `i` on name: what follows the equals
/// sign of `--author=`, or the argument behind `--author`; the first of the
/// two that occurs.
pub open spec fn author_arg(args: Seq<Seq<char>>, i: int) -> Option<Seq<char>>
    decreases args.len() - i,
{
    if i < 0 || i >= args.len() {
        None
    } else if author_prefix().is_prefix_of(args[i]) {
        Some(args[i].skip(author_prefix().len() as int))
    } else if args[i] == "--author"@ && i + 1 < args.len() {
        Some(args[i + 1])
    } else {
        author_arg(args, i + 1)
    }
}

/// The author that the arguments of a commit name.
pub fn extract_author_from_args(args: &Vec<String>) -> (r: Option<String>)
    ensures
        match r {
            Some(author) => author_arg(texts(args@), 0) == Some(author@),
            None => author_arg(texts(args@), 0) is None,
        },
{
    let ghost all = texts(args@);
    let prefix = chars_of("--author=");
    let mut i: usize = 0;
    while i < args.len()
        invariant
            i <= args@.len(),
            all == texts(args@),
            prefix@ == author_prefix(),
            author_arg(all, 0) == author_arg(all, i as int),
        decreases args@.len() - i,
    {
        assert(all[i as int] == args@[i as int]@);
        let chars = chars_of(args[i].as_str());
        if starts_with(chars.as_slice(), prefix.as_slice()) {
            let rest = copy_range(chars.as_slice(), prefix.len(), chars.len());
            assert(rest@ =~= all[i as int].skip(author_prefix().len() as int));
            return Some(string_from_chars(rest.as_slice()));
        }
        if str_eq(args[i].as_str(), "--author") && i + 1 < args.len() {
            assert(all[i + 1] == args@[i + 1]@);
            return Some(args[i + 1].clone());
        }
        i = i + 1;
    }
    None
}

/// What is known of the author of a commit before git is asked.
pub struct AuthorSources {
    /// The author of the commit that `--author` resolves to.
    pub resolved_author: Option<String>,
    /// `GIT_AUTHOR_NAME` of the environment.
    pub env_name: Option<String>,
    /// `user.name` of the configuration.
    pub config_name: Option<String>,
    /// `GIT_AUTHOR_EMAIL` of the environment.
    pub env_email: Option<String>,
    /// `user.email` of the configuration.
    pub config_email: Option<String>,
    /// `EMAIL` of the environment.
    pub env_fallback_email: Option<String>,
}

/// The text without the blanks around it, where anything is left.
pub open spec fn meaningful(s: Option<String>) -> Option<Seq<char>> {
    match s {
        Some(t) if trimmed(t@).len() > 0 => Some(trimmed(t@)),
        _ => None,
    }
}

/// The first of two texts that is there.
pub open spec fn or_else(a: Option<Seq<char>>, b: Option<Seq<char>>) -> Option<Seq<char>> {
    match a {
        Some(x) => Some(x),
        None => b,
    }
}

/// The part of an address before its `@`, where there is an `@` and
/// something before it.
pub open spec fn local_part(email: Seq<char>) -> Option<Seq<char>> {
    let at = char_position(email, '@', 0);
    if 0 < at < email.len() {
        Some(email.take(at))
    } else {
        None
    }
}

/// The name of the author. The environment comes before the configuration:
/// the name of the environment, else the part before the `@` of the
/// fallback address of the environment, else the name of the configuration.
pub open spec fn author_name(sources: AuthorSources) -> Option<Seq<char>> {
    or_else(
        or_else(
            meaningful(sources.env_name),
            match sources.env_fallback_email {
                Some(email) if trimmed(email@).len() > 0 => local_part(email@),
                _ => None,
            },
        ),
        meaningful(sources.config_name),
    )
}

/// The address of the author. The environment comes before the
/// configuration: the address of the environment, else the fallback address
/// of the environment, else the address of the configuration.
pub open spec fn author_email(sources: AuthorSources) -> Option<Seq<char>> {
    or_else(
        or_else(meaningful(sources.env_email), meaningful(sources.env_fallback_email)),
        meaningful(sources.config_email),
    )
}

/// The author of a commit: the one that `--author` resolves to; else name
/// and address, the address in angle brackets; else the one of the two that
/// is known; else `unknown`.
pub open spec fn default_author(sources: AuthorSources) -> Seq<char> {
    match meaningful(sources.resolved_author) {
        Some(author) => author,
        None => match (author_name(sources), author_email(sources)) {
            (Some(name), Some(email)) => name + " <"@ + email + ">"@,
            (Some(name), None) => name,
            (None, Some(email)) => email,
            (None, None) => "unknown"@,
        },
    }
}

fn meaningful_text(s: &Option<String>) -> (r: Option<String>)
    ensures
        match r {
            Some(t) => meaningful(*s) == Some(t@),
            None => meaningful(*s) is None,
        },
{
    match s {
        Some(t) => {
            let chars = chars_of(t.as_str());
            let kept = trim(chars.as_slice());
            if kept.len() > 0 {
                Some(string_from_chars(kept.as_slice()))
            } else {
                None
            }
        },
        None => None,
    }
}

/// The author of a commit, from what is known before git is asked.
pub fn get_commit_default_author(sources: &AuthorSources) -> (r: String)
    ensures
        r@ == default_author(*sources),
{
    match meaningful_text(&sources.resolved_author) {
        Some(author) => {
            return author;
        },
        None => {},
    }
    let fallback = meaningful_text(&sources.env_fallback_email);
    let mut name: Option<String> = meaningful_text(&sources.env_name);
    match (&sources.env_fallback_email, &fallback) {
        (Some(raw), Some(_)) => {
            if name.is_none() {
                let chars = chars_of(raw.as_str());
                let at = find_char(chars.as_slice(), '@');
                if 0 < at && at < chars.len() {
                    let local = copy_range(chars.as_slice(), 0, at);
                    assert(local@ =~= raw@.take(at as int));
                    name = Some(string_from_chars(local.as_slice()));
                }
            }
        },
        _ => {},
    }
    if name.is_none() {
        name = meaningful_text(&sources.config_name);
    }
    let mut email: Option<String> = meaningful_text(&sources.env_email);
    if email.is_none() {
        email = fallback;
    }
    if email.is_none() {
        email = meaningful_text(&sources.config_email);
    }
    match (name, email) {
        (Some(name), Some(email)) => {
            let mut out = name;
            out.append(" <");
            out.append(email.as_str());
            out.append(">");
            out
        },
        (Some(name), None) => name,
        (None, Some(email)) => email,
        (None, None) => "unknown".to_owned(),
    }
}

/// Whether the hook before a commit counts as run once its checkpoint has
/// been tried: it does unless the repository is bare. A checkpoint that
/// failed for another reason is reported, and the commit goes on.
pub fn after_pre_commit_checkpoint(failed: bool, bare: bool) -> (r: bool)
    ensures
        r == !bare,
{
    !bare
}

/// Whether the hook before a commit takes a checkpoint: not for a dry run.
pub fn commit_pre_command_hook(args: &Vec<String>) -> (r: bool)
    ensures
        r == !dry_run(texts(args@)),
{
    !is_dry_run(args)
}

/// What a commit adds to the rewrite log: nothing after a dry run, a commit
/// that failed, or where HEAD names no commit afterwards; an amendment where
/// the command amends and HEAD named a commit before; else a new commit on
/// top of what HEAD named before.
pub open spec fn commit_event_of(
    args: Seq<Seq<char>>,
    succeeded: bool,
    original_commit: Option<String>,
    new_sha: Option<String>,
) -> Option<RewriteLogEvent> {
    match new_sha {
        Some(sha) if !dry_run(args) && succeeded => match original_commit {
            Some(original) if args.contains("--amend"@) => Some(
                RewriteLogEvent::CommitAmend {
                    commit_amend: CommitAmendEvent {
                        original_commit: original,
                        amended_commit_sha: sha,
                    },
                },
            ),
            _ => Some(
                RewriteLogEvent::Commit {
                    commit: CommitEvent { base_commit: original_commit, commit_sha: sha },
                },
            ),
        },
        _ => None,
    }
}

/// The event that the hook after a commit records.
pub fn commit_post_command_hook(
    args: &Vec<String>,
    succeeded: bool,
    original_commit: Option<String>,
    new_sha: Option<String>,
) -> (r: Option<RewriteLogEvent>)
    ensures
        r == commit_event_of(texts(args@), succeeded, original_commit, new_sha),
{
    if is_dry_run(args) || !succeeded {
        return None;
    }
    let amends = holds_str(args, "--amend");
    match new_sha {
        None => None,
        Some(sha) => match original_commit {
            Some(original) => {
                if amends {
                    Some(RewriteLogEvent::commit_amend(original, sha))
                } else {
                    Some(RewriteLogEvent::commit(Some(original), sha))
                }
            },
            None => Some(RewriteLogEvent::commit(None, sha)),
        },
    }
}

} // verus!
