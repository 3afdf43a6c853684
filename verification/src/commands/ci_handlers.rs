//! `git-ai ci`: which subcommand is asked for, and with which arguments.

use vstd::prelude::*;

use crate::git::cli_parser::{find_arg, position};
use crate::text::texts;
use crate::text::str_eq;

verus! {

/// What `git-ai ci` is asked to do.
#[derive(Debug, PartialEq, Eq)]
pub enum CiCommand {
    /// No subcommand: the help is printed.
    Help,
    /// A subcommand that there is not.
    Unknown(String),
    /// `github` without anything behind it.
    GithubHelp,
    GithubRun,
    GithubInstall,
    /// `github` with a subcommand that there is not.
    UnknownGithub(String),
    /// `local` without an event.
    LocalHelp,
    /// `local` with an event and the arguments behind it.
    Local { event: String, args: Vec<String> },
}

/// A command as plain values.
pub enum CiCommandView {
    Help,
    Unknown(Seq<char>),
    GithubHelp,
    GithubRun,
    GithubInstall,
    UnknownGithub(Seq<char>),
    LocalHelp,
    Local { event: Seq<char>, args: Seq<Seq<char>> },
}

impl View for CiCommand {
    type V = CiCommandView;

    open spec fn view(&self) -> CiCommandView {
        match *self {
            CiCommand::Help => CiCommandView::Help,
            CiCommand::Unknown(s) => CiCommandView::Unknown(s@),
            CiCommand::GithubHelp => CiCommandView::GithubHelp,
            CiCommand::GithubRun => CiCommandView::GithubRun,
            CiCommand::GithubInstall => CiCommandView::GithubInstall,
            CiCommand::UnknownGithub(s) => CiCommandView::UnknownGithub(s@),
            CiCommand::LocalHelp => CiCommandView::LocalHelp,
            CiCommand::Local { event, args } => CiCommandView::Local {
                event: event@,
                args: texts(args@),
            },
        }
    }
}

/// What the arguments of `git-ai ci` ask for.
pub open spec fn ci_command(args: Seq<Seq<char>>) -> CiCommandView {
    if args.len() == 0 {
        CiCommandView::Help
    } else if args[0] == "github"@ {
        if args.len() == 1 {
            CiCommandView::GithubHelp
        } else if args[1] == "run"@ {
            CiCommandView::GithubRun
        } else if args[1] == "install"@ {
            CiCommandView::GithubInstall
        } else {
            CiCommandView::UnknownGithub(args[1])
        }
    } else if args[0] == "local"@ {
        if args.len() == 1 {
            CiCommandView::LocalHelp
        } else {
            CiCommandView::Local { event: args[1], args: args.skip(2) }
        }
    } else {
        CiCommandView::Unknown(args[0])
    }
}

/// Reads what `git-ai ci` is asked to do.
pub fn handle_ci(args: &Vec<String>) -> (r: CiCommand)
    ensures
        r@ == ci_command(texts(args@)),
{
    if args.len() == 0 {
        return CiCommand::Help;
    }
    assert(texts(args@)[0] == args@[0]@);
    if str_eq(args[0].as_str(), "github") {
        if args.len() == 1 {
            return CiCommand::GithubHelp;
        }
        assert(texts(args@)[1] == args@[1]@);
        if str_eq(args[1].as_str(), "run") {
            CiCommand::GithubRun
        } else if str_eq(args[1].as_str(), "install") {
            CiCommand::GithubInstall
        } else {
            CiCommand::UnknownGithub(args[1].clone())
        }
    } else if str_eq(args[0].as_str(), "local") {
        if args.len() == 1 {
            return CiCommand::LocalHelp;
        }
        assert(texts(args@)[1] == args@[1]@);
        let mut rest: Vec<String> = Vec::new();
        let mut i: usize = 2;
        assert(texts(rest@) =~= texts(args@).skip(2).take(0));
        while i < args.len()
            invariant
                2 <= i <= args@.len(),
                texts(rest@) == texts(args@).skip(2).take(i - 2),
            decreases args@.len() - i,
        {
            let ghost before = rest@;
            rest.push(args[i].clone());
            assert(texts(rest@) =~= texts(before).push(args@[i as int]@));
            assert(texts(args@).skip(2).take(i - 1) =~= texts(args@).skip(2).take(i - 2).push(
                args@[i as int]@,
            ));
            i = i + 1;
        }
        assert(texts(args@).skip(2).take(args@.len() - 2) =~= texts(args@).skip(2));
        CiCommand::Local { event: args[1].clone(), args: rest }
    } else {
        CiCommand::Unknown(args[0].clone())
    }
}

/// What the arguments say of a flag.
pub enum FlagValue {
    /// The flag is not among the arguments.
    Absent,
    /// The flag is the last argument.
    NoValue,
    /// The argument behind the first occurrence of the flag.
    Value(Seq<char>),
}

/// What `args` say of the flag `name`.
pub open spec fn flag_value(args: Seq<Seq<char>>, name: Seq<char>) -> FlagValue {
    let at = position(args, name, 0);
    if at >= args.len() {
        FlagValue::Absent
    } else if at + 1 >= args.len() {
        FlagValue::NoValue
    } else {
        FlagValue::Value(args[at + 1])
    }
}

/// An event that the CI is run for by hand.
#[derive(Debug, PartialEq, Eq)]
pub enum CiEvent {
    Merge {
        merge_commit_sha: String,
        head_ref: String,
        head_sha: String,
        base_ref: String,
        base_sha: String,
    },
}

/// Why the arguments of a local run cannot be used.
#[derive(Debug, PartialEq, Eq)]
pub enum LocalCiError {
    /// The flag stands last, without a value.
    MissingValue(String),
    /// The flag is required and not there.
    Required(String),
    /// There is no such event.
    UnknownEvent(String),
}

/// The five flags of a merge, in the order in which they are asked for.
pub open spec fn merge_flags() -> Seq<Seq<char>> {
    seq![
        "--merge-commit-sha"@,
        "--base-ref"@,
        "--head-ref"@,
        "--head-sha"@,
        "--base-sha"@,
    ]
}

/// The first of the flags from `i` on that the arguments do not give a value
/// to; the number of flags where there is none.
pub open spec fn first_unset(args: Seq<Seq<char>>, flags: Seq<Seq<char>>, i: int) -> int
    decreases flags.len() - i,
{
    if i < 0 || i >= flags.len() {
        flags.len() as int
    } else if flag_value(args, flags[i]) is Value {
        first_unset(args, flags, i + 1)
    } else {
        i
    }
}

fn read_flag(args: &Vec<String>, name: &str) -> (r: Result<String, LocalCiError>)
    ensures
        match r {
            Ok(v) => flag_value(texts(args@), name@) == FlagValue::Value(v@),
            Err(LocalCiError::MissingValue(f)) => flag_value(texts(args@), name@) is NoValue && f@
                == name@,
            Err(LocalCiError::Required(f)) => flag_value(texts(args@), name@) is Absent && f@
                == name@,
            Err(LocalCiError::UnknownEvent(_)) => false,
        },
{
    let at = find_arg(args, name);
    if at >= args.len() {
        Err(LocalCiError::Required(name.to_owned()))
    } else if at + 1 >= args.len() {
        Err(LocalCiError::MissingValue(name.to_owned()))
    } else {
        assert(texts(args@)[at + 1] == args@[at + 1]@);
        Ok(args[at + 1].clone())
    }
}

/// Reads the event of a local run of the CI. A merge takes five flags, each
/// with a value; the first that has none decides the error.
pub fn handle_ci_local(event: &str, args: &Vec<String>) -> (r: Result<CiEvent, LocalCiError>)
    ensures
        match r {
            Ok(CiEvent::Merge { merge_commit_sha, head_ref, head_sha, base_ref, base_sha }) => {
                &&& event@ == "merge"@
                &&& flag_value(texts(args@), "--merge-commit-sha"@) == FlagValue::Value(
                    merge_commit_sha@,
                )
                &&& flag_value(texts(args@), "--base-ref"@) == FlagValue::Value(base_ref@)
                &&& flag_value(texts(args@), "--head-ref"@) == FlagValue::Value(head_ref@)
                &&& flag_value(texts(args@), "--head-sha"@) == FlagValue::Value(head_sha@)
                &&& flag_value(texts(args@), "--base-sha"@) == FlagValue::Value(base_sha@)
            },
            Err(LocalCiError::UnknownEvent(e)) => event@ != "merge"@ && e@ == event@,
            Err(LocalCiError::MissingValue(f)) => event@ == "merge"@ && first_unset(
                texts(args@),
                merge_flags(),
                0,
            ) < 5 && f@ == merge_flags()[first_unset(texts(args@), merge_flags(), 0)]
                && flag_value(texts(args@), f@) is NoValue,
            Err(LocalCiError::Required(f)) => event@ == "merge"@ && first_unset(
                texts(args@),
                merge_flags(),
                0,
            ) < 5 && f@ == merge_flags()[first_unset(texts(args@), merge_flags(), 0)]
                && flag_value(texts(args@), f@) is Absent,
        },
{
    if !str_eq(event, "merge") {
        return Err(LocalCiError::UnknownEvent(event.to_owned()));
    }
    proof {
        reveal_with_fuel(first_unset, 6);
    }
    let merge_commit_sha = match read_flag(args, "--merge-commit-sha") {
        Ok(v) => v,
        Err(e) => {
            return Err(e);
        },
    };
    let base_ref = match read_flag(args, "--base-ref") {
        Ok(v) => v,
        Err(e) => {
            return Err(e);
        },
    };
    let head_ref = match read_flag(args, "--head-ref") {
        Ok(v) => v,
        Err(e) => {
            return Err(e);
        },
    };
    let head_sha = match read_flag(args, "--head-sha") {
        Ok(v) => v,
        Err(e) => {
            return Err(e);
        },
    };
    let base_sha = match read_flag(args, "--base-sha") {
        Ok(v) => v,
        Err(e) => {
            return Err(e);
        },
    };
    Ok(CiEvent::Merge { merge_commit_sha, head_ref, head_sha, base_ref, base_sha })
}

} // verus!
