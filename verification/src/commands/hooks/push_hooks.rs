//! `git push`: where the authorship notes follow the push.

use vstd::prelude::*;

use crate::git::cli_parser::{after, begins_with_dash, dashed, end_of_options};
use crate::text::{holds_str, texts};
use crate::text::{chars_of, copy_range, str_eq, string_from_chars};

verus! {

/// Whether the option takes its value from the argument behind it.
pub open spec fn takes_next(arg: Seq<char>) -> bool {
    arg == "--repo"@ || arg == "--receive-pack"@ || arg == "--exec"@ || arg == "-o"@ || arg
        == "--push-option"@ || arg == "-c"@ || arg == "-C"@
}

pub fn option_consumes_separate_value(arg: &str) -> (r: bool)
    ensures
        r == takes_next(arg@),
{
    str_eq(arg, "--repo") || str_eq(arg, "--receive-pack") || str_eq(arg, "--exec") || str_eq(
        arg,
        "-o",
    ) || str_eq(arg, "--push-option") || str_eq(arg, "-c") || str_eq(arg, "-C")
}

/// Where `c` first stands in `s`; the length of `s` where it does not.
pub open spec fn char_position(s: Seq<char>, c: char, from: int) -> int
    decreases s.len() - from,
{
    if from < 0 || from >= s.len() {
        s.len() as int
    } else if s[from] == c {
        from
    } else {
        char_position(s, c, from + 1)
    }
}

/// Finds where `c` first stands in `s`.
pub fn find_char(s: &[char], c: char) -> (r: usize)
    ensures
        r == char_position(s@, c, 0),
        r <= s@.len(),
{
    let mut i: usize = 0;
    while i < s.len()
        invariant
            i <= s@.len(),
            char_position(s@, c, 0) == char_position(s@, c, i as int),
        decreases s@.len() - i,
    {
        if s[i] == c {
            return i;
        }
        i = i + 1;
    }
    s.len()
}

/// The option and the value of an argument that holds both: the parts before
/// and behind its first equals sign, or, where it has none, `-C` or `-c` and
/// what follows it.
pub open spec fn inline_value(arg: Seq<char>) -> Option<(Seq<char>, Seq<char>)> {
    let eq = char_position(arg, '=', 0);
    if eq < arg.len() {
        Some((arg.take(eq), arg.skip(eq + 1)))
    } else if arg.len() > 2 && arg[0] == '-' && (arg[1] == 'C' || arg[1] == 'c') {
        Some((arg.take(2), arg.skip(2)))
    } else {
        None
    }
}

/// Takes an argument apart that holds an option together with its value.
pub fn is_push_option_with_inline_value(arg: &str) -> (r: Option<(String, String)>)
    ensures
        match r {
            Some(pair) => inline_value(arg@) == Some((pair.0@, pair.1@)),
            None => inline_value(arg@) is None,
        },
{
    let chars = chars_of(arg);
    let eq = find_char(chars.as_slice(), '=');
    let cut: (usize, usize) = if eq < chars.len() {
        (eq, eq + 1)
    } else if chars.len() > 2 && chars[0] == '-' && (chars[1] == 'C' || chars[1] == 'c') {
        (2, 2)
    } else {
        return None;
    };
    let flag = copy_range(chars.as_slice(), 0, cut.0);
    let value = copy_range(chars.as_slice(), cut.1, chars.len());
    assert(flag@ =~= arg@.take(cut.0 as int));
    assert(value@ =~= arg@.skip(cut.1 as int));
    Some((string_from_chars(flag.as_slice()), string_from_chars(value.as_slice())))
}

/// The argument at `i`, where there is one.
pub open spec fn arg_at(args: Seq<Seq<char>>, i: int) -> Option<Seq<char>> {
    if 0 <= i < args.len() {
        Some(args[i])
    } else {
        None
    }
}

/// The first of the known remotes that stands among the arguments.
pub open spec fn known_remote(args: Seq<Seq<char>>, known: Seq<Seq<char>>, from: int) -> Option<
    Seq<char>,
>
    decreases known.len() - from,
{
    if from < 0 || from >= known.len() {
        None
    } else if args.contains(known[from]) {
        Some(known[from])
    } else {
        known_remote(args, known, from + 1)
    }
}

/// The remote that the arguments of a push name, read from the argument at
/// `i` on: what follows `--`; the value of `--repo`; else the first argument
/// that is no option and no value of one. Where the arguments end without
/// any of these, the first known remote that stands among them.
pub open spec fn push_remote(args: Seq<Seq<char>>, known: Seq<Seq<char>>, i: int) -> Option<
    Seq<char>,
>
    decreases args.len() + 1 - i,
{
    if i < 0 || i >= args.len() {
        known_remote(args, known, 0)
    } else if args[i] == end_of_options() {
        arg_at(args, i + 1)
    } else if dashed(args[i]) {
        match inline_value(args[i]) {
            Some(pair) => if pair.0 == "--repo"@ {
                Some(pair.1)
            } else {
                push_remote(args, known, i + 1)
            },
            None => if takes_next(args[i]) {
                if args[i] == "--repo"@ {
                    arg_at(args, i + 1)
                } else {
                    push_remote(args, known, i + 2)
                }
            } else {
                push_remote(args, known, i + 1)
            },
        }
    } else {
        Some(args[i])
    }
}

fn copy_at(args: &Vec<String>, i: usize) -> (r: Option<String>)
    ensures
        match r {
            Some(a) => arg_at(texts(args@), i as int) == Some(a@),
            None => arg_at(texts(args@), i as int) is None,
        },
{
    if i < args.len() {
        assert(texts(args@)[i as int] == args@[i as int]@);
        Some(args[i].clone())
    } else {
        None
    }
}

/// The remote that the arguments of a push name.
pub fn extract_remote_from_push_args(args: &Vec<String>, known_remotes: &Vec<String>) -> (r: Option<
    String,
>)
    ensures
        match r {
            Some(remote) => push_remote(texts(args@), texts(known_remotes@), 0) == Some(remote@),
            None => push_remote(texts(args@), texts(known_remotes@), 0) is None,
        },
{
    let ghost all = texts(args@);
    let ghost known = texts(known_remotes@);
    let mut i: usize = 0;
    while i < args.len()
        invariant
            i <= args@.len(),
            all == texts(args@),
            known == texts(known_remotes@),
            push_remote(all, known, 0) == push_remote(all, known, i as int),
        decreases args@.len() - i,
    {
        assert(all[i as int] == args@[i as int]@);
        let arg = args[i].as_str();
        if str_eq(arg, "--") {
            return copy_at(args, i + 1);
        }
        if begins_with_dash(arg) {
            match is_push_option_with_inline_value(arg) {
                Some(pair) => {
                    if str_eq(pair.0.as_str(), "--repo") {
                        return Some(pair.1);
                    }
                    assert(push_remote(all, known, i as int) == push_remote(all, known, i + 1));
                    i = i + 1;
                },
                None => {
                    if option_consumes_separate_value(arg) {
                        if str_eq(arg, "--repo") {
                            return copy_at(args, i + 1);
                        }
                        assert(push_remote(all, known, i as int) == push_remote(all, known, i + 2));
                        if args.len() - i < 2 {
                            assert(push_remote(all, known, i + 2) == known_remote(all, known, 0));
                            assert(push_remote(all, known, args@.len() as int) == known_remote(
                                all,
                                known,
                                0,
                            ));
                            i = args.len();
                        } else {
                            i = i + 2;
                        }
                    } else {
                        assert(push_remote(all, known, i as int) == push_remote(all, known, i + 1));
                        i = i + 1;
                    }
                },
            }
        } else {
            return Some(args[i].clone());
        }
    }
    let mut k: usize = 0;
    while k < known_remotes.len()
        invariant
            k <= known_remotes@.len(),
            all == texts(args@),
            known == texts(known_remotes@),
            push_remote(all, known, 0) == known_remote(all, known, 0),
            known_remote(all, known, 0) == known_remote(all, known, k as int),
        decreases known_remotes@.len() - k,
    {
        assert(known[k as int] == known_remotes@[k as int]@);
        if holds_str(args, known_remotes[k].as_str()) {
            return Some(known_remotes[k].clone());
        }
        k = k + 1;
    }
    None
}

/// Whether the arguments ask git only to say what it would do.
pub open spec fn dry_run(args: Seq<Seq<char>>) -> bool {
    args.contains("--dry-run"@)
}

pub fn is_dry_run(args: &Vec<String>) -> (r: bool)
    ensures
        r == dry_run(texts(args@)),
{
    holds_str(args, "--dry-run")
}

/// Whether the authorship notes follow a push: they do not after a dry run,
/// a push that failed, one that deletes, or one that mirrors.
pub open spec fn notes_follow(args: Seq<Seq<char>>, succeeded: bool) -> bool {
    !dry_run(args) && succeeded && !args.contains("-d"@) && !args.contains("--delete"@)
        && !args.contains("--mirror"@)
}

pub fn should_push_authorship(args: &Vec<String>, succeeded: bool) -> (r: bool)
    ensures
        r == notes_follow(texts(args@), succeeded),
{
    !is_dry_run(args) && succeeded && !holds_str(args, "-d") && !holds_str(args, "--delete")
        && !holds_str(args, "--mirror")
}

/// The remote that the authorship notes are pushed to: the one that the
/// arguments name, else the upstream of the branch, else the default remote.
pub open spec fn notes_remote(
    args: Seq<Seq<char>>,
    known: Seq<Seq<char>>,
    upstream: Option<Seq<char>>,
    default: Option<Seq<char>>,
) -> Option<Seq<char>> {
    match push_remote(args, known, 0) {
        Some(r) => Some(r),
        None => match upstream {
            Some(r) => Some(r),
            None => default,
        },
    }
}

/// Picks the remote that the authorship notes are pushed to.
pub fn choose_push_remote(
    args: &Vec<String>,
    known_remotes: &Vec<String>,
    upstream: Option<String>,
    default: Option<String>,
) -> (r: Option<String>)
    ensures
        match r {
            Some(remote) => notes_remote(
                texts(args@),
                texts(known_remotes@),
                match upstream {
                    Some(u) => Some(u@),
                    None => None,
                },
                match default {
                    Some(d) => Some(d@),
                    None => None,
                },
            ) == Some(remote@),
            None => notes_remote(
                texts(args@),
                texts(known_remotes@),
                match upstream {
                    Some(u) => Some(u@),
                    None => None,
                },
                match default {
                    Some(d) => Some(d@),
                    None => None,
                },
            ) is None,
        },
{
    match extract_remote_from_push_args(args, known_remotes) {
        Some(r) => Some(r),
        None => match upstream {
            Some(r) => Some(r),
            None => default,
        },
    }
}

} // verus!
