//! `git reset`: what is reset to, which paths, and what becomes of the
//! working log.

use vstd::prelude::*;

use crate::git::cli_parser::{
    after,
    begins_with_dash,
    end_of_options,
    find_arg,
    plain,
    position,
    positional,
    ParsedGitInvocation,
};
use crate::text::texts;
use crate::text::{
    chars_of, copy_range, lines_of_text, part_views, split, starts_with, str_eq,
    string_from_chars, text_lines, parts, Separator,
};

verus! {

/// Whether the command names how far the reset goes: `--hard`, `--soft`,
/// `--mixed`, `--merge` or `--keep`.
pub open spec fn names_mode(args: Seq<Seq<char>>) -> bool {
    args.contains("--hard"@) || args.contains("--soft"@) || args.contains("--mixed"@)
        || args.contains("--merge"@) || args.contains("--keep"@)
}

pub fn has_reset_mode_flag(parsed_args: &ParsedGitInvocation) -> (r: bool)
    ensures
        r == names_mode(texts(parsed_args.command_args@)),
{
    parsed_args.has_command_flag("--hard") || parsed_args.has_command_flag("--soft")
        || parsed_args.has_command_flag("--mixed") || parsed_args.has_command_flag("--merge")
        || parsed_args.has_command_flag("--keep")
}

/// Whether the pathspecs of the file are separated by NUL.
pub fn is_pathspec_nul(parsed_args: &ParsedGitInvocation) -> (r: bool)
    ensures
        r == texts(parsed_args.command_args@).contains("--pathspec-file-nul"@),
{
    parsed_args.has_command_flag("--pathspec-file-nul")
}

/// The option that names a file of pathspecs, with the equals sign behind it.
pub open spec fn from_file_prefix() -> Seq<char> {
    "--pathspec-from-file="@
}

/// The option that names a file of pathspecs in the argument behind it.
pub open spec fn from_file_flag() -> Seq<char> {
    "--pathspec-from-file"@
}

/// The file of pathspecs that the arguments from `i` on name: what follows
/// the equals sign of the option, or the argument behind the option; the
/// first of the two that occurs.
pub open spec fn pathspec_file(args: Seq<Seq<char>>, i: int) -> Option<Seq<char>>
    decreases args.len() - i,
{
    if i < 0 || i >= args.len() {
        None
    } else if from_file_prefix().is_prefix_of(args[i]) {
        Some(args[i].skip(from_file_prefix().len() as int))
    } else if args[i] == from_file_flag() && i + 1 < args.len() {
        Some(args[i + 1])
    } else {
        pathspec_file(args, i + 1)
    }
}

/// The file from which the command reads its pathspecs, where it names one.
pub fn get_pathspec_from_file_path(parsed_args: &ParsedGitInvocation) -> (r: Option<String>)
    ensures
        match r {
            Some(path) => pathspec_file(texts(parsed_args.command_args@), 0) == Some(path@),
            None => pathspec_file(texts(parsed_args.command_args@), 0) is None,
        },
{
    let args = &parsed_args.command_args;
    let ghost all = texts(args@);
    let prefix = chars_of("--pathspec-from-file=");
    let mut i: usize = 0;
    while i < args.len()
        invariant
            i <= args@.len(),
            all == texts(args@),
            *args == parsed_args.command_args,
            prefix@ == from_file_prefix(),
            pathspec_file(all, 0) == pathspec_file(all, i as int),
        decreases args@.len() - i,
    {
        assert(all[i as int] == args@[i as int]@);
        let chars = chars_of(args[i].as_str());
        if starts_with(chars.as_slice(), prefix.as_slice()) {
            let rest = copy_range(chars.as_slice(), prefix.len(), chars.len());
            assert(rest@ =~= all[i as int].skip(from_file_prefix().len() as int));
            return Some(string_from_chars(rest.as_slice()));
        }
        if str_eq(args[i].as_str(), "--pathspec-from-file") && i + 1 < args.len() {
            assert(all[i + 1] == args@[i + 1]@);
            return Some(args[i + 1].clone());
        }
        i = i + 1;
    }
    None
}

pub fn has_pathspec_from_file(parsed_args: &ParsedGitInvocation) -> (r: bool)
    ensures
        r == pathspec_file(texts(parsed_args.command_args@), 0) is Some,
{
    get_pathspec_from_file_path(parsed_args).is_some()
}

/// What the reset goes to. Where the arguments hold `--`, it is the first
/// argument before it that does not begin with a dash: what stands behind
/// `--` names paths. Else it is the first positional argument. Where there
/// is none, it is `HEAD`.
pub open spec fn tree_ish(args: Seq<Seq<char>>) -> Seq<char> {
    let sep = position(args, end_of_options(), 0);
    let named = if sep < args.len() {
        plain(args.take(sep))
    } else {
        positional(args)
    };
    if named.len() > 0 {
        named[0]
    } else {
        "HEAD"@
    }
}

pub fn extract_tree_ish(parsed_args: &ParsedGitInvocation) -> (r: String)
    ensures
        r@ == tree_ish(texts(parsed_args.command_args@)),
{
    let ghost all = texts(parsed_args.command_args@);
    let sep = find_arg(&parsed_args.command_args, "--");
    let named = parsed_args.positional_args();
    if sep < parsed_args.command_args.len() {
        let behind: usize = parsed_args.command_args.len() - sep - 1;
        proof {
            assert(all.len() == parsed_args.command_args@.len());
            assert(texts(named@).len() == named@.len());
            assert(after(all, sep as int).len() == behind);
            assert(texts(named@) == plain(all.take(sep as int)) + after(all, sep as int));
        }
        if named.len() > behind {
            assert(texts(named@)[0] == named@[0]@);
            named[0].clone()
        } else {
            "HEAD".to_owned()
        }
    } else {
        if named.len() > 0 {
            assert(texts(named@)[0] == named@[0]@);
            named[0].clone()
        } else {
            "HEAD".to_owned()
        }
    }
}

/// The arguments but for every `--`.
pub open spec fn without_separators(args: Seq<Seq<char>>) -> Seq<Seq<char>>
    decreases args.len(),
{
    if args.len() == 0 {
        Seq::empty()
    } else if args.last() == end_of_options() {
        without_separators(args.drop_last())
    } else {
        without_separators(args.drop_last()).push(args.last())
    }
}

/// Whether the first positional argument is what the reset goes to, and so
/// no pathspec: it is where the command names a mode, or has a second
/// positional argument.
pub open spec fn names_tree_ish(args: Seq<Seq<char>>) -> bool {
    names_mode(args) || positional(args).len() > 1
}

/// The pathspecs that the arguments name: before `--` the arguments without
/// a dash, but for the first where that is what the reset goes to; behind
/// `--` everything.
pub open spec fn arg_pathspecs(args: Seq<Seq<char>>) -> Seq<Seq<char>> {
    let sep = position(args, end_of_options(), 0);
    let before = plain(args.take(sep));
    (if names_tree_ish(args) && before.len() > 0 {
        before.drop_first()
    } else {
        before
    }) + without_separators(after(args, sep))
}

/// The pathspecs that a file names: its parts between NULs, or its lines;
/// empty ones do not count.
pub open spec fn file_pathspecs(content: Seq<char>, nul_separated: bool) -> Seq<Seq<char>> {
    if nul_separated {
        parts(content, Separator::Char('\0'), false, false)
    } else {
        nonempty(text_lines(content))
    }
}

/// The texts that are not empty.
pub open spec fn nonempty(lines: Seq<Seq<char>>) -> Seq<Seq<char>>
    decreases lines.len(),
{
    if lines.len() == 0 {
        Seq::empty()
    } else if lines.last().len() == 0 {
        nonempty(lines.drop_last())
    } else {
        nonempty(lines.drop_last()).push(lines.last())
    }
}

/// Reads pathspecs from the content of a file.
pub fn read_pathspecs_from_file(content: &str, nul_separated: bool) -> (r: Vec<String>)
    ensures
        texts(r@) == file_pathspecs(content@, nul_separated),
{
    let chars = chars_of(content);
    let mut out: Vec<String> = Vec::new();
    assert(texts(out@) =~= Seq::<Seq<char>>::empty());
    if nul_separated {
        let pieces = split(chars.as_slice(), Separator::Char('\0'), false, false);
        let mut i: usize = 0;
        while i < pieces.len()
            invariant
                i <= pieces@.len(),
                texts(out@) == part_views(pieces@).take(i as int),
            decreases pieces@.len() - i,
        {
            let ghost before = out@;
            out.push(string_from_chars(pieces[i].as_slice()));
            assert(texts(out@) =~= texts(before).push(pieces@[i as int]@));
            assert(part_views(pieces@).take(i + 1) =~= part_views(pieces@).take(i as int).push(
                pieces@[i as int]@,
            ));
            i = i + 1;
        }
        assert(part_views(pieces@).take(pieces@.len() as int) =~= part_views(pieces@));
    } else {
        let lines = lines_of_text(chars.as_slice());
        let ghost all = part_views(lines@);
        let mut i: usize = 0;
        while i < lines.len()
            invariant
                i <= lines@.len(),
                all == part_views(lines@),
                texts(out@) == nonempty(all.take(i as int)),
            decreases lines@.len() - i,
        {
            proof {
                assert(all.take(i + 1).drop_last() =~= all.take(i as int));
                assert(all.take(i + 1).last() == lines@[i as int]@);
            }
            if lines[i].len() > 0 {
                let ghost before = out@;
                out.push(string_from_chars(lines[i].as_slice()));
                assert(texts(out@) =~= texts(before).push(lines@[i as int]@));
            }
            i = i + 1;
        }
        assert(all.take(lines@.len() as int) =~= all);
    }
    out
}

/// The pathspecs of a reset. Where the command names a file of pathspecs,
/// they are read from `file_content`, the content of that file; else from
/// the arguments.
pub open spec fn reset_pathspecs(args: Seq<Seq<char>>, file_content: Seq<char>) -> Seq<Seq<char>> {
    if pathspec_file(args, 0) is Some {
        file_pathspecs(file_content, args.contains("--pathspec-file-nul"@))
    } else {
        arg_pathspecs(args)
    }
}

/// The pathspecs of a reset. `file_content` is the content of the file from
/// which the command reads its pathspecs; it is not looked at where the
/// command names no such file.
pub fn extract_pathspecs(parsed_args: &ParsedGitInvocation, file_content: &str) -> (r: Vec<String>)
    ensures
        texts(r@) == reset_pathspecs(texts(parsed_args.command_args@), file_content@),
{
    if has_pathspec_from_file(parsed_args) {
        return read_pathspecs_from_file(file_content, is_pathspec_nul(parsed_args));
    }
    let args = &parsed_args.command_args;
    let ghost all = texts(args@);
    let skip_first: bool = has_reset_mode_flag(parsed_args) || parsed_args.pos_command(1).is_some();
    let sep = find_arg(args, "--");
    let mut out: Vec<String> = Vec::new();
    let mut seen: usize = 0;
    let mut i: usize = 0;
    assert(texts(out@) =~= Seq::<Seq<char>>::empty());
    assert(all.take(sep as int).take(0) =~= Seq::<Seq<char>>::empty());
    while i < sep
        invariant
            i <= sep <= args@.len(),
            all == texts(args@),
            seen <= i,
            seen == plain(all.take(sep as int).take(i as int)).len(),
            texts(out@) == (if skip_first && seen > 0 {
                plain(all.take(sep as int).take(i as int)).drop_first()
            } else {
                plain(all.take(sep as int).take(i as int))
            }),
        decreases sep - i,
    {
        proof {
            assert(all.take(sep as int).take(i + 1).drop_last() =~= all.take(sep as int).take(
                i as int,
            ));
            assert(all.take(sep as int).take(i + 1).last() == args@[i as int]@);
        }
        let ghost so_far = plain(all.take(sep as int).take(i as int));
        if !begins_with_dash(args[i].as_str()) {
            if !(skip_first && seen == 0) {
                let ghost before = out@;
                out.push(args[i].clone());
                assert(texts(out@) =~= texts(before).push(args@[i as int]@));
                assert(so_far.push(args@[i as int]@).drop_first() =~= if so_far.len() > 0 {
                    so_far.drop_first().push(args@[i as int]@)
                } else {
                    Seq::<Seq<char>>::empty()
                });
            } else {
                assert(so_far.push(args@[i as int]@).drop_first() =~= Seq::<Seq<char>>::empty());
            }
            seen = seen + 1;
        }
        i = i + 1;
    }
    assert(all.take(sep as int).take(sep as int) =~= all.take(sep as int));
    let ghost head = texts(out@);
    let ghost tail = after(all, sep as int);
    let start: usize = if sep < args.len() {
        sep + 1
    } else {
        sep
    };
    let mut j: usize = start;
    assert(tail.take(0) =~= Seq::<Seq<char>>::empty());
    while j < args.len()
        invariant
            start <= j <= args@.len(),
            start == if sep < args@.len() {
                sep + 1
            } else {
                sep as int
            },
            sep <= args@.len(),
            all == texts(args@),
            tail == after(all, sep as int),
            texts(out@) == head + without_separators(tail.take(j - start)),
        decreases args@.len() - j,
    {
        proof {
            assert(tail.take(j - start + 1).drop_last() =~= tail.take(j - start));
            assert(tail.take(j - start + 1).last() == args@[j as int]@);
        }
        if !str_eq(args[j].as_str(), "--") {
            let ghost before = out@;
            out.push(args[j].clone());
            assert(texts(out@) =~= texts(before).push(args@[j as int]@));
        }
        j = j + 1;
    }
    assert(tail.take(args@.len() - start) =~= tail);
    out
}

/// What a reset asks of the working log.
#[derive(Debug, Clone, Copy, PartialEq, Eq, Structural)]
pub enum ResetPlan {
    /// Nothing.
    Skip,
    /// The working tree is discarded, and the working log with it.
    DiscardWorkingLog,
    /// The working tree stays: the working log is built anew, for the given
    /// paths only where the reset names pathspecs.
    PreserveWorkingDir { pathspecs_only: bool },
}

/// What a reset asks of the working log, given its arguments, whether it
/// names pathspecs, and whether HEAD is known before and after it and the
/// target resolves. A hard reset discards; a soft, mixed or merge reset, or
/// one without a mode, preserves; `--keep` asks nothing.
pub open spec fn plan_of(args: Seq<Seq<char>>, has_pathspecs: bool, resolved: bool) -> ResetPlan {
    if !resolved {
        ResetPlan::Skip
    } else if args.contains("--hard"@) {
        ResetPlan::DiscardWorkingLog
    } else if args.contains("--soft"@) || args.contains("--mixed"@) || args.contains("--merge"@)
        || !names_mode(args) {
        ResetPlan::PreserveWorkingDir { pathspecs_only: has_pathspecs }
    } else {
        ResetPlan::Skip
    }
}

/// Decides what a reset asks of the working log.
pub fn post_reset_plan(parsed_args: &ParsedGitInvocation, has_pathspecs: bool, resolved: bool) -> (r:
    ResetPlan)
    ensures
        r == plan_of(texts(parsed_args.command_args@), has_pathspecs, resolved),
{
    if !resolved {
        ResetPlan::Skip
    } else if parsed_args.has_command_flag("--hard") {
        ResetPlan::DiscardWorkingLog
    } else if parsed_args.has_command_flag("--soft") || parsed_args.has_command_flag("--mixed")
        || parsed_args.has_command_flag("--merge") || !has_reset_mode_flag(parsed_args) {
        ResetPlan::PreserveWorkingDir { pathspecs_only: has_pathspecs }
    } else {
        ResetPlan::Skip
    }
}

/// What becomes of the working log when the working tree outlives a reset.
#[derive(Debug, Clone, Copy, PartialEq, Eq, Structural)]
pub enum PreservePlan {
    /// The reset goes to the commit that was HEAD: nothing changes.
    Nothing,
    /// The reset goes forward or to unrelated history: the old working log
    /// is deleted, and the commits gained keep their own authorship.
    DiscardOld,
    /// The reset goes backward: the commits left behind become uncommitted
    /// work in a working log of the target.
    Reconstruct,
}

/// What becomes of the working log, given the old HEAD, the target of the
/// reset, and whether the target is an ancestor of the old HEAD.
pub open spec fn preserve_plan_of(
    old_head: Seq<char>,
    target: Seq<char>,
    target_is_ancestor: bool,
) -> PreservePlan {
    if old_head == target {
        PreservePlan::Nothing
    } else if target_is_ancestor {
        PreservePlan::Reconstruct
    } else {
        PreservePlan::DiscardOld
    }
}

pub fn preserve_working_dir_plan(old_head_sha: &str, target_commit_sha: &str, target_is_ancestor: bool) -> (r:
    PreservePlan)
    ensures
        r == preserve_plan_of(old_head_sha@, target_commit_sha@, target_is_ancestor),
{
    if str_eq(old_head_sha, target_commit_sha) {
        PreservePlan::Nothing
    } else if target_is_ancestor {
        PreservePlan::Reconstruct
    } else {
        PreservePlan::DiscardOld
    }
}

} // verus!
