//! Values read from a repository, and the parsing of what git prints.

use vstd::prelude::*;
use vstd::string::StringExecFns;

use crate::authorship::authorship_log::{
    dedup, dedup_line_numbers, run_of, sort_line_numbers, sort_lines,
};
use crate::error::GitAiError;
use crate::text::{
    chars_of, copy_range, decimal, fields, find, first_match, lines_of_text, parse_u32,
    part_views, push_decimal, split,
    starts_with, str_eq, string_from_chars, text_lines, trim, trimmed, u32_value, words,
    Separator,
};
use crate::text::{clone_strings, holds_str, texts};
use crate::utils::{parse_rfc3339, rfc3339_instant};

verus! {

/// A point in time as git records it with a signature.
#[derive(Debug, Clone, Copy, PartialEq, Eq, Structural)]
pub struct Time {
    seconds: i64,
    offset_minutes: i32,
}

impl Time {
    /// The seconds since the Unix epoch.
    pub closed spec fn spec_seconds(self) -> int {
        self.seconds as int
    }

    /// The minutes by which the signer's clock is ahead of UTC.
    pub closed spec fn spec_offset_minutes(self) -> int {
        self.offset_minutes as int
    }

    pub fn new(seconds: i64, offset_minutes: i32) -> (r: Self)
        ensures
            r.spec_seconds() == seconds,
            r.spec_offset_minutes() == offset_minutes,
    {
        Time { seconds, offset_minutes }
    }

    pub fn seconds(&self) -> (r: i64)
        ensures
            r == self.spec_seconds(),
    {
        self.seconds
    }

    pub fn offset_minutes(&self) -> (r: i32)
        ensures
            r == self.spec_offset_minutes(),
    {
        self.offset_minutes
    }
}

/// The whole minutes of an offset in seconds, rounded towards zero.
pub open spec fn whole_minutes(seconds: int) -> int {
    if seconds >= 0 {
        seconds / 60
    } else {
        -((-seconds) / 60)
    }
}

/// The time that a signature carries, written as RFC 3339: the instant and
/// the offset of its time zone; the Unix epoch in UTC where the text is no
/// such time.
pub open spec fn time_of(time_iso8601: Seq<char>) -> (int, int) {
    match rfc3339_instant(time_iso8601) {
        Some(t) => (t.0, whole_minutes(t.2)),
        None => (0, 0),
    }
}

/// Reads the time of a signature.
pub fn signature_time(time_iso8601: &str) -> (r: Time)
    ensures
        r.spec_seconds() == time_of(time_iso8601@).0,
        r.spec_offset_minutes() == time_of(time_iso8601@).1,
{
    match parse_rfc3339(time_iso8601) {
        Some((seconds, _, offset)) => {
            let minutes: i32 = if offset >= 0 {
                offset / 60
            } else if offset == i32::MIN {
                -35791394
            } else {
                -((-offset) / 60)
            };
            Time::new(seconds, minutes)
        },
        None => Time::new(0, 0),
    }
}

/// The option that keeps git from paging its output.
pub open spec fn no_pager() -> Seq<char> {
    "--no-pager"@
}

/// The global arguments of every call of git: the given ones, and the option
/// against paging where they lack it.
pub open spec fn exec_args(global_args: Seq<Seq<char>>) -> Seq<Seq<char>> {
    if global_args.contains(no_pager()) {
        global_args
    } else {
        global_args.push(no_pager())
    }
}

/// The global arguments for a call of git.
pub fn global_args_for_exec(global_args: &Vec<String>) -> (r: Vec<String>)
    ensures
        texts(r@) == exec_args(texts(global_args@)),
{
    let mut args = clone_strings(global_args);
    if !holds_str(&args, "--no-pager") {
        let ghost before = args@;
        args.push("--no-pager".to_owned());
        assert(texts(args@) =~= texts(before).push(no_pager()));
    }
    args
}

/// The name of the remote that counts as the default.
pub open spec fn origin() -> Seq<char> {
    "origin"@
}

/// The default among the remotes: `origin` where it is one of them, else
/// the first; none where there is no remote.
pub open spec fn default_remote(remotes: Seq<Seq<char>>) -> Option<Seq<char>> {
    if remotes.len() == 0 {
        None
    } else if remotes.contains(origin()) {
        Some(origin())
    } else {
        Some(remotes[0])
    }
}

/// Picks the default among the remotes.
pub fn get_default_remote(remotes: &Vec<String>) -> (r: Option<String>)
    ensures
        match r {
            Some(name) => default_remote(texts(remotes@)) == Some(name@),
            None => default_remote(texts(remotes@)) is None,
        },
{
    if remotes.len() == 0 {
        return None;
    }
    if holds_str(remotes, "origin") {
        return Some("origin".to_owned());
    }
    assert(texts(remotes@)[0] == remotes@[0]@);
    Some(remotes[0].clone())
}

/// The lines of `output` that are not empty once the blanks around them are
/// gone, so trimmed, in their order.
pub open spec fn listed(lines: Seq<Seq<char>>) -> Seq<Seq<char>>
    decreases lines.len(),
{
    if lines.len() == 0 {
        Seq::empty()
    } else if trimmed(lines.last()).len() == 0 {
        listed(lines.drop_last())
    } else {
        listed(lines.drop_last()).push(trimmed(lines.last()))
    }
}

/// Reads a list that git prints one item to a line: names of references,
/// hashes of commits, paths of files. Blank lines are skipped, and blanks
/// around an item do not count.
pub fn parse_list(output: &str) -> (r: Vec<String>)
    ensures
        texts(r@) == listed(text_lines(output@)),
{
    let chars = chars_of(output);
    let lines = lines_of_text(chars.as_slice());
    let ghost all = part_views(lines@);
    let mut out: Vec<String> = Vec::new();
    let mut i: usize = 0;
    assert(texts(out@) =~= Seq::<Seq<char>>::empty());
    while i < lines.len()
        invariant
            i <= lines@.len(),
            all == part_views(lines@),
            texts(out@) == listed(all.take(i as int)),
        decreases lines@.len() - i,
    {
        proof {
            assert(all.take(i + 1).drop_last() =~= all.take(i as int));
            assert(all.take(i + 1).last() == lines@[i as int]@);
        }
        let item = trim(lines[i].as_slice());
        if item.len() > 0 {
            let ghost before = out@;
            let name = string_from_chars(item.as_slice());
            out.push(name);
            assert(texts(out@) =~= texts(before).push(item@));
        }
        i = i + 1;
    }
    assert(all.take(lines@.len() as int) =~= all);
    out
}

/// Who signed a commit, and when.
#[derive(Debug, PartialEq, Eq)]
pub struct Signature {
    name: String,
    email: String,
    time_iso8601: String,
}

impl Signature {
    pub closed spec fn spec_name(self) -> Seq<char> {
        self.name@
    }

    pub closed spec fn spec_email(self) -> Seq<char> {
        self.email@
    }

    pub closed spec fn spec_time(self) -> Seq<char> {
        self.time_iso8601@
    }

    pub fn new(name: String, email: String, time_iso8601: String) -> (r: Self)
        ensures
            r.spec_name() == name@,
            r.spec_email() == email@,
            r.spec_time() == time_iso8601@,
    {
        Signature { name, email, time_iso8601 }
    }

    /// The name, where there is one.
    pub fn name(&self) -> (r: Option<&str>)
        ensures
            match r {
                Some(n) => n@ == self.spec_name() && n@.len() > 0,
                None => self.spec_name().len() == 0,
            },
    {
        if self.name.as_str().is_empty() {
            None
        } else {
            Some(self.name.as_str())
        }
    }

    /// The address, where there is one.
    pub fn email(&self) -> (r: Option<&str>)
        ensures
            match r {
                Some(e) => e@ == self.spec_email() && e@.len() > 0,
                None => self.spec_email().len() == 0,
            },
    {
        if self.email.as_str().is_empty() {
            None
        } else {
            Some(self.email.as_str())
        }
    }

    /// The time of the signature.
    pub fn when(&self) -> (r: Time)
        ensures
            r.spec_seconds() == time_of(self.spec_time()).0,
            r.spec_offset_minutes() == time_of(self.spec_time()).1,
    {
        signature_time(self.time_iso8601.as_str())
    }
}

/// The line at `i`, without the blanks around it; the empty text where
/// there is no such line.
pub open spec fn trimmed_line(lines: Seq<Seq<char>>, i: int) -> Seq<char> {
    if 0 <= i < lines.len() {
        trimmed(lines[i])
    } else {
        Seq::empty()
    }
}

fn line_at(lines: &Vec<Vec<char>>, i: usize) -> (r: String)
    ensures
        r@ == trimmed_line(part_views(lines@), i as int),
{
    if i < lines.len() {
        assert(part_views(lines@)[i as int] == lines@[i as int]@);
        let kept = trim(lines[i].as_slice());
        string_from_chars(kept.as_slice())
    } else {
        String::new()
    }
}

/// Reads a signature from what `git show` prints for the format of name,
/// address and time, one to a line.
pub fn parse_signature(output: &str) -> (r: Signature)
    ensures
        r.spec_name() == trimmed_line(text_lines(output@), 0),
        r.spec_email() == trimmed_line(text_lines(output@), 1),
        r.spec_time() == trimmed_line(text_lines(output@), 2),
{
    let chars = chars_of(output);
    let lines = lines_of_text(chars.as_slice());
    Signature {
        name: line_at(&lines, 0),
        email: line_at(&lines, 1),
        time_iso8601: line_at(&lines, 2),
    }
}

/// The name of the reference that a range of commits belongs to: the given
/// one; else the only reference that points at the end of the range; else
/// what HEAD stands for, or `HEAD`.
pub open spec fn inferred_refname(
    refname: Option<Seq<char>>,
    refs: Seq<Seq<char>>,
    head_name: Option<Seq<char>>,
) -> Seq<char> {
    match refname {
        Some(name) => name,
        None => if refs.len() == 1 {
            refs[0]
        } else {
            match head_name {
                Some(name) => name,
                None => "HEAD"@,
            }
        },
    }
}

/// Infers the name of the reference that a range of commits belongs to.
/// `refs` are the references that point at the end of the range.
pub fn infer_refname(refname: Option<String>, refs: &Vec<String>, head_name: Option<String>) -> (r:
    String)
    ensures
        r@ == inferred_refname(
            match refname {
                Some(n) => Some(n@),
                None => None,
            },
            texts(refs@),
            match head_name {
                Some(n) => Some(n@),
                None => None,
            },
        ),
{
    match refname {
        Some(name) => name,
        None => {
            if refs.len() == 1 {
                assert(texts(refs@)[0] == refs@[0]@);
                refs[0].clone()
            } else {
                match head_name {
                    Some(name) => name,
                    None => "HEAD".to_owned(),
                }
            }
        },
    }
}

/// Checks that an object is of the kind that is asked for.
pub fn expect_object_type(actual: &str, expected: &str) -> (r: Result<(), GitAiError>)
    ensures
        r matches Err(e) ==> e is Generic,
        r is Ok <==> actual@ == expected@,
{
    if str_eq(actual, expected) {
        Ok(())
    } else {
        let mut message = "Object is not a ".to_owned();
        message.append(expected);
        message.append(" (type: ");
        message.append(actual);
        message.append(")");
        Err(GitAiError::Generic(message))
    }
}

/// Whether one of the remotes has the name `name`.
pub open spec fn names_remote(remotes: Seq<(Seq<char>, Seq<char>)>, name: Seq<char>) -> bool {
    exists|i: int| 0 <= i < remotes.len() && (#[trigger] remotes[i]).0 == name
}

/// The remotes that `git remote -v` lists, each with the address of the
/// first line that names it. A line of fewer than two words names none.
pub open spec fn remotes_of(lines: Seq<Seq<char>>) -> Seq<(Seq<char>, Seq<char>)>
    decreases lines.len(),
{
    if lines.len() == 0 {
        Seq::empty()
    } else {
        let before = remotes_of(lines.drop_last());
        let line = words(lines.last());
        if line.len() >= 2 && !names_remote(before, line[0]) {
            before.push((line[0], line[1]))
        } else {
            before
        }
    }
}

fn holds_remote(remotes: &Vec<(String, String)>, name: &String) -> (r: bool)
    ensures
        r == names_remote(pair_texts(remotes@), name@),
{
    let mut i: usize = 0;
    while i < remotes.len()
        invariant
            i <= remotes@.len(),
            forall|k: int| 0 <= k < i ==> (#[trigger] pair_texts(remotes@)[k]).0 != name@,
        decreases remotes@.len() - i,
    {
        if remotes[i].0 == *name {
            assert(pair_texts(remotes@)[i as int].0 == name@);
            return true;
        }
        i = i + 1;
    }
    false
}

/// Reads the remotes and their addresses from what `git remote -v` prints.
pub fn parse_remotes_with_urls(output: &str) -> (r: Vec<(String, String)>)
    ensures
        pair_texts(r@) == remotes_of(text_lines(output@)),
{
    let chars = chars_of(output);
    let lines = lines_of_text(chars.as_slice());
    let ghost all = part_views(lines@);
    let mut out: Vec<(String, String)> = Vec::new();
    let mut i: usize = 0;
    assert(pair_texts(out@) =~= Seq::<(Seq<char>, Seq<char>)>::empty());
    while i < lines.len()
        invariant
            i <= lines@.len(),
            all == part_views(lines@),
            pair_texts(out@) == remotes_of(all.take(i as int)),
        decreases lines@.len() - i,
    {
        proof {
            assert(all.take(i + 1).drop_last() =~= all.take(i as int));
            assert(all.take(i + 1).last() == lines@[i as int]@);
        }
        let line = split(lines[i].as_slice(), Separator::Blank, false, false);
        if line.len() >= 2 {
            assert(part_views(line@)[0] == line@[0]@);
            assert(part_views(line@)[1] == line@[1]@);
            let name = string_from_chars(line[0].as_slice());
            if !holds_remote(&out, &name) {
                let ghost before = out@;
                let url = string_from_chars(line[1].as_slice());
                out.push((name, url));
                assert(pair_texts(out@) =~= pair_texts(before).push((line@[0]@, line@[1]@)));
            }
        }
        i = i + 1;
    }
    assert(all.take(lines@.len() as int) =~= all);
    out
}

/// Reads the parents of a commit from what `git show` prints for the format
/// of parents: their hashes, with blanks between them.
pub fn parse_parents(output: &str) -> (r: Vec<String>)
    ensures
        texts(r@) == words(output@),
{
    let chars = chars_of(output);
    let names = split(chars.as_slice(), Separator::Blank, false, false);
    let mut out: Vec<String> = Vec::new();
    let mut i: usize = 0;
    assert(texts(out@) =~= Seq::<Seq<char>>::empty());
    while i < names.len()
        invariant
            i <= names@.len(),
            texts(out@) == part_views(names@).take(i as int),
        decreases names@.len() - i,
    {
        let ghost before = out@;
        out.push(string_from_chars(names[i].as_slice()));
        assert(texts(out@) =~= texts(before).push(names@[i as int]@));
        assert(part_views(names@).take(i + 1) =~= part_views(names@).take(i as int).push(
            names@[i as int]@,
        ));
        i = i + 1;
    }
    assert(part_views(names@).take(names@.len() as int) =~= part_views(names@));
    out
}

/// A number with at least two decimal digits.
pub open spec fn two_digits(n: nat) -> Seq<char> {
    if n < 10 {
        seq!['0'] + decimal(n)
    } else {
        decimal(n)
    }
}

/// A time as git reads it from the environment: the seconds since the Unix
/// epoch, a space, and the offset of the time zone as a sign, the hours and
/// the minutes.
pub open spec fn git_date(seconds: int, offset_minutes: int) -> Seq<char> {
    let magnitude = if offset_minutes >= 0 {
        offset_minutes
    } else {
        -offset_minutes
    };
    (if seconds < 0 {
        seq!['-'] + decimal((-seconds) as nat)
    } else {
        decimal(seconds as nat)
    }) + seq![' ', if offset_minutes >= 0 {
        '+'
    } else {
        '-'
    }] + two_digits((magnitude / 60) as nat) + two_digits((magnitude % 60) as nat)
}

/// Writes a time the way git reads it from the environment.
pub fn fmt_git_date(t: Time) -> (r: String)
    ensures
        r@ == git_date(t.spec_seconds(), t.spec_offset_minutes()),
{
    let seconds: i64 = t.seconds();
    let offset: i32 = t.offset_minutes();
    let mut out: Vec<char> = Vec::new();
    if seconds < 0 {
        out.push('-');
        let magnitude: u64 = if seconds == i64::MIN {
            0x8000_0000_0000_0000
        } else {
            (-seconds) as u64
        };
        push_decimal(&mut out, magnitude);
    } else {
        push_decimal(&mut out, seconds as u64);
    }
    out.push(' ');
    out.push(if offset >= 0 {
        '+'
    } else {
        '-'
    });
    let magnitude: u64 = if offset >= 0 {
        offset as u64
    } else if offset == i32::MIN {
        0x8000_0000
    } else {
        (-offset) as u64
    };
    let hours: u64 = magnitude / 60;
    let minutes: u64 = magnitude % 60;
    if hours < 10 {
        out.push('0');
    }
    push_decimal(&mut out, hours);
    if minutes < 10 {
        out.push('0');
    }
    push_decimal(&mut out, minutes);
    assert(out@ =~= git_date(seconds as int, offset as int));
    string_from_chars(out.as_slice())
}

/// What `commit-tree` is called with: its arguments, and the variables of the
/// environment that carry the two identities.
#[derive(Debug, PartialEq, Eq)]
pub struct CommitRequest {
    pub args: Vec<String>,
    pub env: Vec<(String, String)>,
}

/// The arguments that name the parents of a commit: `-p` before each.
pub open spec fn parent_args(parents: Seq<Seq<char>>) -> Seq<Seq<char>>
    decreases parents.len(),
{
    if parents.len() == 0 {
        Seq::empty()
    } else {
        parent_args(parents.drop_last()).push("-p"@).push(parents.last())
    }
}

/// Whether a signature names its signer in full: a name and an address that
/// are more than blanks.
pub open spec fn identified(s: Signature) -> bool {
    trimmed(s.spec_name()).len() > 0 && trimmed(s.spec_email()).len() > 0
}

/// The variables that carry an identity to `commit-tree`, as pairs of texts.
pub open spec fn identity_env(
    name_key: Seq<char>,
    email_key: Seq<char>,
    date_key: Seq<char>,
    s: Signature,
) -> Seq<(Seq<char>, Seq<char>)> {
    seq![
        (name_key, trimmed(s.spec_name())),
        (email_key, trimmed(s.spec_email())),
        (date_key, git_date(time_of(s.spec_time()).0, time_of(s.spec_time()).1)),
    ]
}

/// Pairs of strings as pairs of texts.
pub open spec fn pair_texts(v: Seq<(String, String)>) -> Seq<(Seq<char>, Seq<char>)> {
    v.map_values(|p: (String, String)| (p.0@, p.1@))
}

fn trimmed_string(s: &str) -> (r: String)
    ensures
        r@ == trimmed(s@),
{
    let chars = chars_of(s);
    let kept = trim(chars.as_slice());
    string_from_chars(kept.as_slice())
}

/// Prepares the call of `commit-tree` that creates a commit of `tree` with
/// the given parents. Fails where the author or the committer lacks a name
/// or an address.
pub fn commit_tree_request(
    global_args: &Vec<String>,
    author: &Signature,
    committer: &Signature,
    tree: &str,
    parents: &Vec<String>,
) -> (r: Result<CommitRequest, GitAiError>)
    ensures
        r matches Err(e) ==> e is Generic,
        r matches Err(GitAiError::Generic(message)) ==> message@ == (if !identified(*author) {
            "Missing author name or email"@
        } else {
            "Missing committer name or email"@
        }),
        match r {
            Ok(request) => identified(*author) && identified(*committer) && texts(request.args@)
                == exec_args(texts(global_args@)).push("commit-tree"@).push(tree@) + parent_args(
                texts(parents@),
            ) && pair_texts(request.env@) == identity_env(
                "GIT_AUTHOR_NAME"@,
                "GIT_AUTHOR_EMAIL"@,
                "GIT_AUTHOR_DATE"@,
                *author,
            ) + identity_env(
                "GIT_COMMITTER_NAME"@,
                "GIT_COMMITTER_EMAIL"@,
                "GIT_COMMITTER_DATE"@,
                *committer,
            ),
            Err(_) => !identified(*author) || !identified(*committer),
        },
{
    let author_name = trimmed_string(author.name.as_str());
    let author_email = trimmed_string(author.email.as_str());
    let committer_name = trimmed_string(committer.name.as_str());
    let committer_email = trimmed_string(committer.email.as_str());
    if author_name.as_str().is_empty() || author_email.as_str().is_empty() {
        return Err(GitAiError::Generic("Missing author name or email".to_owned()));
    }
    if committer_name.as_str().is_empty() || committer_email.as_str().is_empty() {
        return Err(GitAiError::Generic("Missing committer name or email".to_owned()));
    }
    let author_date = fmt_git_date(author.when());
    let committer_date = fmt_git_date(committer.when());
    let mut env: Vec<(String, String)> = Vec::new();
    env.push(("GIT_AUTHOR_NAME".to_owned(), author_name));
    env.push(("GIT_AUTHOR_EMAIL".to_owned(), author_email));
    env.push(("GIT_AUTHOR_DATE".to_owned(), author_date));
    env.push(("GIT_COMMITTER_NAME".to_owned(), committer_name));
    env.push(("GIT_COMMITTER_EMAIL".to_owned(), committer_email));
    env.push(("GIT_COMMITTER_DATE".to_owned(), committer_date));
    assert(pair_texts(env@) =~= identity_env(
        "GIT_AUTHOR_NAME"@,
        "GIT_AUTHOR_EMAIL"@,
        "GIT_AUTHOR_DATE"@,
        *author,
    ) + identity_env(
        "GIT_COMMITTER_NAME"@,
        "GIT_COMMITTER_EMAIL"@,
        "GIT_COMMITTER_DATE"@,
        *committer,
    ));
    let mut args = global_args_for_exec(global_args);
    let ghost start = texts(args@);
    args.push("commit-tree".to_owned());
    args.push(tree.to_owned());
    let ghost head = start.push("commit-tree"@).push(tree@);
    assert(texts(args@) =~= head);
    let ghost names = texts(parents@);
    let mut i: usize = 0;
    while i < parents.len()
        invariant
            i <= parents@.len(),
            names == texts(parents@),
            texts(args@) == head + parent_args(names.take(i as int)),
        decreases parents@.len() - i,
    {
        proof {
            assert(names.take(i + 1).drop_last() =~= names.take(i as int));
            assert(names.take(i + 1).last() == parents@[i as int]@);
        }
        let ghost before = texts(args@);
        args.push("-p".to_owned());
        args.push(parents[i].clone());
        assert(texts(args@) =~= before.push("-p"@).push(parents@[i as int]@));
        i = i + 1;
    }
    assert(names.take(parents@.len() as int) =~= names);
    Ok(CommitRequest { args, env })
}

/// Whether a reference that points at `old_tip` may move to a commit with
/// the given parents: it may where the reference does not exist yet, or
/// where the first parent, blanks around it aside, is its tip.
pub open spec fn may_update_ref(old_tip: Option<Seq<char>>, parents: Seq<Seq<char>>) -> bool {
    match old_tip {
        None => true,
        Some(tip) => parents.len() > 0 && trimmed(parents[0]) == tip,
    }
}

/// Why a reference that points at `tip` may not move to a commit with the
/// given parents.
pub open spec fn refusal(tip: Seq<char>, parents: Seq<Seq<char>>) -> Seq<char> {
    if parents.len() == 0 {
        "Ref exists but no parents were provided"@
    } else {
        "First parent ("@ + parents[0] + ") != current tip ("@ + tip + ")"@
    }
}

/// Checks that a reference may move to a commit with the given parents.
pub fn check_first_parent(old_tip: Option<&str>, parents: &Vec<String>) -> (r: Result<
    (),
    GitAiError,
>)
    ensures
        r matches Err(e) ==> e is Generic,
        r matches Err(GitAiError::Generic(message)) ==> message@ == refusal(
            old_tip->0@,
            texts(parents@),
        ),
        r is Ok <==> may_update_ref(
            match old_tip {
                Some(t) => Some(t@),
                None => None,
            },
            texts(parents@),
        ),
{
    match old_tip {
        None => Ok(()),
        Some(tip) => {
            if parents.len() == 0 {
                return Err(GitAiError::Generic("Ref exists but no parents were provided".to_owned()));
            }
            assert(texts(parents@)[0] == parents@[0]@);
            let first = trimmed_string(parents[0].as_str());
            if !str_eq(first.as_str(), tip) {
                let mut message = "First parent (".to_owned();
                message.append(parents[0].as_str());
                message.append(") != current tip (");
                message.append(tip);
                message.append(")");
                return Err(GitAiError::Generic(message));
            }
            Ok(())
        },
    }
}

/// The arguments of the call of `merge-tree` that merges two trees over
/// their ancestor and writes the tree that results, our side counting where
/// the two are in conflict.
pub open spec fn tree_merge_args(
    global_args: Seq<Seq<char>>,
    ancestor_tree: Seq<char>,
    our_tree: Seq<char>,
    their_tree: Seq<char>,
) -> Seq<Seq<char>> {
    exec_args(global_args).push("merge-tree"@).push("--write-tree"@).push(
        "--merge-base="@ + ancestor_tree,
    ).push("-X"@).push("ours"@).push(our_tree).push(their_tree)
}

/// Prepares the call of `merge-tree` that merges two trees in favour of
/// ours.
pub fn merge_trees_favor_ours_args(
    global_args: &Vec<String>,
    ancestor_tree: &str,
    our_tree: &str,
    their_tree: &str,
) -> (r: Vec<String>)
    ensures
        texts(r@) == tree_merge_args(texts(global_args@), ancestor_tree@, our_tree@, their_tree@),
{
    let mut args = global_args_for_exec(global_args);
    let ghost start = texts(args@);
    let mut base = "--merge-base=".to_owned();
    base.append(ancestor_tree);
    args.push("merge-tree".to_owned());
    args.push("--write-tree".to_owned());
    args.push(base);
    args.push("-X".to_owned());
    args.push("ours".to_owned());
    args.push(our_tree.to_owned());
    args.push(their_tree.to_owned());
    assert(texts(args@) =~= start.push("merge-tree"@).push("--write-tree"@).push(
        "--merge-base="@ + ancestor_tree@,
    ).push("-X"@).push("ours"@).push(our_tree@).push(their_tree@));
    args
}

/// The arguments of the call of `update-ref` that moves `target_ref` to
/// `new_commit`, given that it points at `old_tip` now.
pub open spec fn ref_update_args(
    global_args: Seq<Seq<char>>,
    message: Seq<char>,
    target_ref: Seq<char>,
    new_commit: Seq<char>,
    old_tip: Option<Seq<char>>,
) -> Seq<Seq<char>> {
    let head = exec_args(global_args).push("update-ref"@).push("-m"@).push(message).push(
        target_ref,
    ).push(new_commit);
    match old_tip {
        Some(tip) => head.push(tip),
        None => head,
    }
}

/// Prepares the call of `update-ref` that moves a reference to a new commit.
pub fn update_ref_args(
    global_args: &Vec<String>,
    message: &str,
    target_ref: &str,
    new_commit: &str,
    old_tip: Option<&str>,
) -> (r: Vec<String>)
    ensures
        texts(r@) == ref_update_args(
            texts(global_args@),
            message@,
            target_ref@,
            new_commit@,
            match old_tip {
                Some(t) => Some(t@),
                None => None,
            },
        ),
{
    let mut args = global_args_for_exec(global_args);
    let ghost start = texts(args@);
    args.push("update-ref".to_owned());
    args.push("-m".to_owned());
    args.push(message.to_owned());
    args.push(target_ref.to_owned());
    args.push(new_commit.to_owned());
    let ghost head = start.push("update-ref"@).push("-m"@).push(message@).push(target_ref@).push(
        new_commit@,
    );
    assert(texts(args@) =~= head);
    match old_tip {
        Some(tip) => {
            args.push(tip.to_owned());
            assert(texts(args@) =~= head.push(tip@));
        },
        None => {},
    }
    args
}

/// What a tree holds under a path.
#[derive(Debug, PartialEq, Eq)]
pub struct TreeEntry {
    /// The id of the object.
    pub oid: String,
    /// `blob`, `tree` or `commit`.
    pub object_type: String,
    /// The mode of the file, as `ls-tree` prints it.
    pub mode: String,
    /// The path, relative to the root of the tree.
    pub path: String,
}

/// A tree entry as plain values.
pub struct TreeEntryView {
    pub oid: Seq<char>,
    pub object_type: Seq<char>,
    pub mode: Seq<char>,
    pub path: Seq<char>,
}

impl View for TreeEntry {
    type V = TreeEntryView;

    open spec fn view(&self) -> TreeEntryView {
        TreeEntryView {
            oid: self.oid@,
            object_type: self.object_type@,
            mode: self.mode@,
            path: self.path@,
        }
    }
}

/// Where a tab first stands in `s`; the length of `s` where none does.
pub open spec fn first_tab(s: Seq<char>, from: int) -> int
    decreases s.len() - from,
{
    if from < 0 || from >= s.len() {
        s.len() as int
    } else if s[from] == '\t' {
        from
    } else {
        first_tab(s, from + 1)
    }
}

/// What a record of `ls-tree -z` says: before the first tab the mode, the
/// type and the id of the object, behind it the path. Nothing where one of
/// the three is missing.
pub open spec fn tree_record(record: Seq<char>) -> Option<TreeEntryView> {
    let tab = first_tab(record, 0);
    let meta = words(record.take(tab));
    if meta.len() < 3 {
        None
    } else {
        Some(
            TreeEntryView {
                mode: meta[0],
                object_type: meta[1],
                oid: meta[2],
                path: if tab < record.len() {
                    record.skip(tab + 1)
                } else {
                    Seq::empty()
                },
            },
        )
    }
}

/// The entry for `path` among the records: the last record of this very
/// path, else the first record that says anything.
pub open spec fn tree_entry(records: Seq<Seq<char>>, path: Seq<char>) -> Option<TreeEntryView>
    decreases records.len(),
{
    if records.len() == 0 {
        None
    } else {
        let before = tree_entry(records.drop_last(), path);
        match tree_record(records.last()) {
            Some(e) if before is None || e.path == path => Some(e),
            _ => before,
        }
    }
}

fn find_first_tab(s: &[char]) -> (r: usize)
    ensures
        r == first_tab(s@, 0),
        r <= s@.len(),
{
    let mut i: usize = 0;
    while i < s.len()
        invariant
            i <= s@.len(),
            first_tab(s@, 0) == first_tab(s@, i as int),
        decreases s@.len() - i,
    {
        if s[i] == '\t' {
            return i;
        }
        i = i + 1;
    }
    s.len()
}

fn parse_tree_record(record: &[char]) -> (r: Option<TreeEntry>)
    ensures
        match r {
            Some(e) => tree_record(record@) == Some(e@),
            None => tree_record(record@) is None,
        },
{
    let tab = find_first_tab(record);
    let head = copy_range(record, 0, tab);
    assert(head@ =~= record@.take(tab as int));
    let meta = split(head.as_slice(), Separator::Blank, false, false);
    if meta.len() < 3 {
        return None;
    }
    assert(part_views(meta@)[0] == meta@[0]@);
    assert(part_views(meta@)[1] == meta@[1]@);
    assert(part_views(meta@)[2] == meta@[2]@);
    let path = if tab < record.len() {
        let p = copy_range(record, tab + 1, record.len());
        assert(p@ =~= record@.skip(tab + 1));
        p
    } else {
        Vec::new()
    };
    Some(
        TreeEntry {
            mode: string_from_chars(meta[0].as_slice()),
            object_type: string_from_chars(meta[1].as_slice()),
            oid: string_from_chars(meta[2].as_slice()),
            path: string_from_chars(path.as_slice()),
        },
    )
}

/// The records of what `ls-tree -z` prints: its parts between NULs, empty
/// ones aside.
pub open spec fn tree_records(output: Seq<char>) -> Seq<Seq<char>> {
    crate::text::parts(output, Separator::Char('\0'), false, false)
}

/// Finds the entry for `path` in what `ls-tree -r -z` prints for it. Fails
/// where no record says anything.
pub fn parse_tree_entry(output: &str, path: &str) -> (r: Result<TreeEntry, GitAiError>)
    ensures
        r matches Err(e) ==> e is Generic,
        match r {
            Ok(e) => tree_entry(tree_records(output@), path@) == Some(e@),
            Err(_) => tree_entry(tree_records(output@), path@) is None,
        },
{
    let chars = chars_of(output);
    let records = split(chars.as_slice(), Separator::Char('\0'), false, false);
    let ghost all = part_views(records@);
    let mut found: Option<TreeEntry> = None;
    let mut i: usize = 0;
    while i < records.len()
        invariant
            i <= records@.len(),
            all == part_views(records@),
            match found {
                Some(e) => tree_entry(all.take(i as int), path@) == Some(e@),
                None => tree_entry(all.take(i as int), path@) is None,
            },
        decreases records@.len() - i,
    {
        proof {
            assert(all.take(i + 1).drop_last() =~= all.take(i as int));
            assert(all.take(i + 1).last() == records@[i as int]@);
        }
        match parse_tree_record(records[i].as_slice()) {
            Some(e) => {
                if found.is_none() || str_eq(e.path.as_str(), path) {
                    found = Some(e);
                }
            },
            None => {},
        }
        i = i + 1;
    }
    assert(all.take(records@.len() as int) =~= all);
    match found {
        Some(e) => Ok(e),
        None => {
            let mut message = "Path not found in tree: ".to_owned();
            message.append(path);
            Err(GitAiError::Generic(message))
        },
    }
}

/// Whether a reference is a branch.
pub fn is_branch(ref_name: &str) -> (r: bool)
    ensures
        r == "refs/heads/"@.is_prefix_of(ref_name@),
{
    crate::text::str_starts_with(ref_name, "refs/heads/")
}

/// The full name of a branch: what git resolves it to where that is more
/// than blanks; else the name itself where it begins with `refs/`, and
/// `refs/heads/` with the name behind it where it does not.
pub open spec fn full_branch_name(resolved: Option<Seq<char>>, branch: Seq<char>) -> Seq<char> {
    match resolved {
        Some(name) if trimmed(name).len() > 0 => trimmed(name),
        _ => if "refs/"@.is_prefix_of(branch) {
            branch
        } else {
            "refs/heads/"@ + branch
        },
    }
}

/// The full name of a branch, given what `rev-parse --symbolic-full-name`
/// printed for it, if anything.
pub fn qualify_branch(resolved: Option<&str>, branch: &str) -> (r: String)
    ensures
        r@ == full_branch_name(
            match resolved {
                Some(n) => Some(n@),
                None => None,
            },
            branch@,
        ),
{
    match resolved {
        Some(name) => {
            let kept = trimmed_string(name);
            if !kept.as_str().is_empty() {
                return kept;
            }
        },
        None => {},
    }
    if crate::text::str_starts_with(branch, "refs/") {
        branch.to_owned()
    } else {
        let mut out = "refs/heads/".to_owned();
        out.append(branch);
        out
    }
}

/// The references but for `name`, in their order.
pub open spec fn others(refs: Seq<Seq<char>>, name: Seq<char>) -> Seq<Seq<char>>
    decreases refs.len(),
{
    if refs.len() == 0 {
        Seq::empty()
    } else if refs.last() == name {
        others(refs.drop_last(), name)
    } else {
        others(refs.drop_last(), name).push(refs.last())
    }
}

/// The branches other than `branch`, read from what `for-each-ref` prints.
pub fn other_branches(refs_output: &str, branch: &str) -> (r: Vec<String>)
    ensures
        texts(r@) == others(listed(text_lines(refs_output@)), branch@),
{
    let all = parse_list(refs_output);
    let ghost names = texts(all@);
    let mut out: Vec<String> = Vec::new();
    let mut i: usize = 0;
    assert(texts(out@) =~= Seq::<Seq<char>>::empty());
    while i < all.len()
        invariant
            i <= all@.len(),
            names == texts(all@),
            texts(out@) == others(names.take(i as int), branch@),
        decreases all@.len() - i,
    {
        proof {
            assert(names.take(i + 1).drop_last() =~= names.take(i as int));
            assert(names.take(i + 1).last() == all@[i as int]@);
        }
        if !str_eq(all[i].as_str(), branch) {
            let ghost before = out@;
            out.push(all[i].clone());
            assert(texts(out@) =~= texts(before).push(all@[i as int]@));
        }
        i = i + 1;
    }
    assert(names.take(all@.len() as int) =~= names);
    out
}

/// The arguments of the call of `git log` that lists the commits of a
/// branch that no other branch has, oldest first.
pub open spec fn branch_log(
    global_args: Seq<Seq<char>>,
    branch: Seq<char>,
    other_branches: Seq<Seq<char>>,
) -> Seq<Seq<char>> {
    let head = exec_args(global_args).push("log"@).push("--format=%H"@).push("--reverse"@).push(
        "--ancestry-path"@,
    ).push(branch);
    if other_branches.len() == 0 {
        head
    } else {
        head.push("--not"@) + other_branches
    }
}

/// Prepares the call of `git log` that lists the commits of a branch that no
/// other branch has.
pub fn branch_log_args(global_args: &Vec<String>, branch: &str, other_branches: &Vec<String>) -> (r:
    Vec<String>)
    ensures
        texts(r@) == branch_log(texts(global_args@), branch@, texts(other_branches@)),
{
    let mut args = global_args_for_exec(global_args);
    let ghost start = texts(args@);
    args.push("log".to_owned());
    args.push("--format=%H".to_owned());
    args.push("--reverse".to_owned());
    args.push("--ancestry-path".to_owned());
    args.push(branch.to_owned());
    let ghost head = start.push("log"@).push("--format=%H"@).push("--reverse"@).push(
        "--ancestry-path"@,
    ).push(branch@);
    assert(texts(args@) =~= head);
    if other_branches.len() > 0 {
        args.push("--not".to_owned());
        let ghost names = texts(other_branches@);
        let ghost lead = head.push("--not"@);
        assert(texts(args@) =~= lead + names.take(0));
        let mut i: usize = 0;
        while i < other_branches.len()
            invariant
                i <= other_branches@.len(),
                names == texts(other_branches@),
                texts(args@) == lead + names.take(i as int),
            decreases other_branches@.len() - i,
        {
            let ghost before = texts(args@);
            args.push(other_branches[i].clone());
            assert(texts(args@) =~= before.push(other_branches@[i as int]@));
            assert(names.take(i + 1) =~= names.take(i as int).push(other_branches@[i as int]@));
            i = i + 1;
        }
        assert(names.take(other_branches@.len() as int) =~= names);
    }
    args
}

/// The first and the last of the commits of a branch. Fails where the branch
/// has no commit of its own.
pub fn range_ends(commits: &Vec<String>) -> (r: Result<(String, String), GitAiError>)
    ensures
        r matches Err(e) ==> e is Generic,
        match r {
            Ok(ends) => commits@.len() > 0 && ends.0@ == commits@[0]@ && ends.1@
                == commits@.last()@,
            Err(_) => commits@.len() == 0,
        },
{
    if commits.len() == 0 {
        return Err(GitAiError::Generic("No commits found that are unique to this branch".to_owned()));
    }
    Ok((commits[0].clone(), commits[commits.len() - 1].clone()))
}

/// The pairs of a rebase: each commit that was rewritten with the commit
/// that took its place, as far as both lists go.
pub open spec fn paired(original: Seq<Seq<char>>, new: Seq<Seq<char>>) -> Seq<
    (Seq<char>, Seq<char>),
> {
    Seq::new(
        if original.len() < new.len() {
            original.len()
        } else {
            new.len()
        },
        |i: int| (original[i], new[i]),
    )
}

/// Pairs the commits that a rebase has rewritten with those that took their
/// place.
pub fn rebase_pairs(original_commits: &Vec<String>, new_commits: &Vec<String>) -> (r: Vec<
    (String, String),
>)
    ensures
        pair_texts(r@) == paired(texts(original_commits@), texts(new_commits@)),
{
    let n: usize = if original_commits.len() < new_commits.len() {
        original_commits.len()
    } else {
        new_commits.len()
    };
    let mut out: Vec<(String, String)> = Vec::new();
    let mut i: usize = 0;
    while i < n
        invariant
            i <= n,
            n <= original_commits@.len(),
            n <= new_commits@.len(),
            out@.len() == i,
            forall|k: int|
                0 <= k < i ==> (#[trigger] out@[k]).0@ == original_commits@[k]@ && out@[k].1@
                    == new_commits@[k]@,
        decreases n - i,
    {
        out.push((original_commits[i].clone(), new_commits[i].clone()));
        i = i + 1;
    }
    assert(pair_texts(out@) =~= paired(texts(original_commits@), texts(new_commits@)));
    out
}

/// The marker that opens and closes the ranges of a hunk header.
pub open spec fn hunk_marker() -> Seq<char> {
    seq!['@', '@']
}

/// The text between the first marker of a hunk header and the next one, or
/// the end of the line; nothing where the line holds no marker.
pub open spec fn hunk_info(line: Seq<char>) -> Option<Seq<char>> {
    let at = first_match(line, hunk_marker(), 0);
    if at >= line.len() {
        None
    } else {
        let rest = line.skip(at + 2);
        Some(rest.take(first_match(rest, hunk_marker(), 0)))
    }
}

/// The first of the words that begins with a plus sign.
pub open spec fn first_plus_word(ws: Seq<Seq<char>>) -> Option<Seq<char>>
    decreases ws.len(),
{
    if ws.len() == 0 {
        None
    } else if ws[0].len() > 0 && ws[0][0] == '+' {
        Some(ws[0])
    } else {
        first_plus_word(ws.drop_first())
    }
}

/// `w` without the plus signs at its start.
pub open spec fn without_plus(w: Seq<char>) -> Seq<char>
    decreases w.len(),
{
    if w.len() > 0 && w[0] == '+' {
        without_plus(w.drop_first())
    } else {
        w
    }
}

/// The lines that a hunk adds, as its header names them: after the plus
/// sign, the first line and, behind a comma, the number of lines, which is 1
/// where it is missing. Nothing where the header reads otherwise, or names
/// lines beyond the greatest number of 32 bits.
pub open spec fn hunk_added_lines(line: Seq<char>) -> Option<Seq<u32>> {
    match hunk_info(line) {
        None => None,
        Some(info) => if words(info).len() < 2 {
            None
        } else {
            match first_plus_word(words(info)) {
                None => None,
                Some(w) => {
                    let fs = fields(without_plus(w), ',');
                    match (
                        u32_value(fs[0]),
                        if fs.len() > 1 {
                            u32_value(fs[1])
                        } else {
                            Some(1u32)
                        },
                    ) {
                        (Some(start), Some(count)) => if count == 0 {
                            Some(Seq::empty())
                        } else if start + count > u32::MAX {
                            None
                        } else {
                            Some(run_of(start, count as nat))
                        },
                        _ => None,
                    }
                },
            }
        },
    }
}

/// Reads the lines that a hunk adds from the characters of its header.
pub fn hunk_header_lines(line: &[char]) -> (r: Option<Vec<u32>>)
    ensures
        match r {
            Some(lines) => hunk_added_lines(line@) == Some(lines@),
            None => hunk_added_lines(line@) is None,
        },
{
    let marker: Vec<char> = vec!['@', '@'];
    assert(marker@ =~= hunk_marker());
    let at = find(line, marker.as_slice(), 0);
    if at >= line.len() {
        return None;
    }
    let rest = copy_range(line, at + 2, line.len());
    assert(rest@ =~= line@.skip(at + 2));
    let close = find(rest.as_slice(), marker.as_slice(), 0);
    let info = copy_range(rest.as_slice(), 0, close);
    assert(info@ =~= rest@.take(close as int));
    let ws = split(info.as_slice(), Separator::Blank, false, false);
    if ws.len() < 2 {
        return None;
    }
    let ghost all = part_views(ws@);
    let mut i: usize = 0;
    assert(all.skip(0) =~= all);
    while i < ws.len() && !(ws[i].len() > 0 && ws[i][0] == '+')
        invariant
            i <= ws@.len(),
            all == part_views(ws@),
            first_plus_word(all) == first_plus_word(all.skip(i as int)),
        decreases ws@.len() - i,
    {
        assert(all.skip(i as int).drop_first() =~= all.skip(i + 1));
        assert(all.skip(i as int)[0] == ws@[i as int]@);
        i = i + 1;
    }
    if i == ws.len() {
        return None;
    }
    let word = &ws[i];
    assert(all.skip(i as int)[0] == word@);
    assert(first_plus_word(all) == Some(word@));
    let mut from: usize = 0;
    assert(word@.skip(0) =~= word@);
    while from < word.len() && word[from] == '+'
        invariant
            from <= word@.len(),
            without_plus(word@) == without_plus(word@.skip(from as int)),
        decreases word@.len() - from,
    {
        assert(word@.skip(from as int).drop_first() =~= word@.skip(from + 1));
        from = from + 1;
    }
    let body = copy_range(word.as_slice(), from, word.len());
    assert(body@ =~= word@.skip(from as int));
    assert(body@ == without_plus(word@));
    let fs = split(body.as_slice(), Separator::Char(','), true, true);
    assert(part_views(fs@).len() == fs@.len());
    assert(part_views(fs@)[0] == fs@[0]@);
    let start: u32 = match parse_u32(fs[0].as_slice()) {
        Some(n) => n,
        None => {
            return None;
        },
    };
    let count: u32 = if fs.len() > 1 {
        assert(part_views(fs@)[1] == fs@[1]@);
        match parse_u32(fs[1].as_slice()) {
            Some(n) => n,
            None => {
                return None;
            },
        }
    } else {
        1
    };
    let mut out: Vec<u32> = Vec::new();
    if count == 0 {
        return Some(out);
    }
    if start > 0xffff_ffff - count {
        return None;
    }
    let mut k: u32 = 0;
    while k < count
        invariant
            k <= count,
            start + count <= u32::MAX,
            out@ == run_of(start, k as nat),
        decreases count - k,
    {
        out.push(start + k);
        assert(out@ =~= run_of(start, (k + 1) as nat));
        k = k + 1;
    }
    Some(out)
}

/// Reads the lines that a hunk adds from its header, a line of the form
/// `@@ -10,2 +15,5 @@`.
pub fn parse_hunk_header(line: &str) -> (r: Option<Vec<u32>>)
    ensures
        match r {
            Some(lines) => hunk_added_lines(line@) == Some(lines@),
            None => hunk_added_lines(line@) is None,
        },
{
    let chars = chars_of(line);
    hunk_header_lines(chars.as_slice())
}

/// What begins the line of a diff that names the new version of a file.
pub open spec fn new_file_mark() -> Seq<char> {
    seq!['+', '+', '+', ' ', 'b', '/']
}

/// What begins the line of a diff that says that the file is gone.
pub open spec fn gone_file_mark() -> Seq<char> {
    seq!['+', '+', '+', ' ', '/', 'd', 'e', 'v', '/', 'n', 'u', 'l', 'l']
}

/// What begins a hunk header.
pub open spec fn hunk_mark() -> Seq<char> {
    seq!['@', '@', ' ']
}

/// How far the reading of a diff has come: the file that the hunks at hand
/// belong to, and the lines added so far, file by file.
pub struct DiffScan {
    pub current: Option<Seq<char>>,
    pub added: Seq<(Seq<char>, Seq<u32>)>,
}

/// Where `added` holds `file`: the index of the last pair of this path, or -1.
pub open spec fn file_index(added: Seq<(Seq<char>, Seq<u32>)>, file: Seq<char>) -> int
    decreases added.len(),
{
    if added.len() == 0 {
        -1
    } else if added.last().0 == file {
        added.len() - 1
    } else {
        file_index(added.drop_last(), file)
    }
}

/// `added` with `lines` more for `file`, which gets a pair of its own at the
/// end where it has none.
pub open spec fn with_lines(
    added: Seq<(Seq<char>, Seq<u32>)>,
    file: Seq<char>,
    lines: Seq<u32>,
) -> Seq<(Seq<char>, Seq<u32>)> {
    let at = file_index(added, file);
    if at >= 0 {
        added.update(at, (file, added[at].1 + lines))
    } else {
        added.push((file, lines))
    }
}

/// What one line of a diff does to the reading.
pub open spec fn scan_line(state: DiffScan, line: Seq<char>) -> DiffScan {
    if new_file_mark().is_prefix_of(line) {
        DiffScan { current: Some(line.skip(6)), ..state }
    } else if gone_file_mark().is_prefix_of(line) {
        DiffScan { current: None, ..state }
    } else if hunk_mark().is_prefix_of(line) {
        match (state.current, hunk_added_lines(line)) {
            (Some(file), Some(lines)) => DiffScan {
                added: with_lines(state.added, file, lines),
                ..state
            },
            _ => state,
        }
    } else {
        state
    }
}

/// The reading after all `lines`.
pub open spec fn scan(lines: Seq<Seq<char>>) -> DiffScan
    decreases lines.len(),
{
    if lines.len() == 0 {
        DiffScan { current: None, added: Seq::empty() }
    } else {
        scan_line(scan(lines.drop_last()), lines.last())
    }
}

/// The added lines of every file, sorted and each line once.
pub open spec fn sorted_once(added: Seq<(Seq<char>, Seq<u32>)>) -> Seq<(Seq<char>, Seq<u32>)> {
    added.map_values(|p: (Seq<char>, Seq<u32>)| (p.0, dedup(sort_lines(p.1))))
}

/// The lines that a diff without context adds, file by file, in the order in
/// which the files occur: for each file the lines that its hunk headers
/// name, sorted, each line once. A file that is gone has no lines.
pub open spec fn diff_added_lines(diff_output: Seq<char>) -> Seq<(Seq<char>, Seq<u32>)> {
    sorted_once(scan(text_lines(diff_output)).added)
}

/// No file has two pairs: the list stands for a map from files to lines.
pub open spec fn distinct_files(added: Seq<(Seq<char>, Seq<u32>)>) -> bool {
    forall|i: int, j: int|
        0 <= i < j < added.len() ==> (#[trigger] added[i]).0 != (#[trigger] added[j]).0
}

proof fn lemma_file_index(added: Seq<(Seq<char>, Seq<u32>)>, file: Seq<char>)
    ensures
        -1 <= file_index(added, file) < added.len(),
        file_index(added, file) >= 0 ==> added[file_index(added, file)].0 == file,
        file_index(added, file) == -1 ==> forall|k: int|
            0 <= k < added.len() ==> (#[trigger] added[k]).0 != file,
    decreases added.len(),
{
    if added.len() > 0 && added.last().0 != file {
        lemma_file_index(added.drop_last(), file);
        assert forall|k: int| 0 <= k < added.len() - 1 implies added.drop_last()[k]
            == #[trigger] added[k] by {}
    }
}

proof fn lemma_scan_distinct(lines: Seq<Seq<char>>)
    ensures
        distinct_files(scan(lines).added),
    decreases lines.len(),
{
    if lines.len() > 0 {
        lemma_scan_distinct(lines.drop_last());
        let before = scan(lines.drop_last());
        if hunk_mark().is_prefix_of(lines.last()) && !new_file_mark().is_prefix_of(lines.last())
            && !gone_file_mark().is_prefix_of(lines.last()) {
            match (before.current, hunk_added_lines(lines.last())) {
                (Some(file), Some(more)) => {
                    lemma_file_index(before.added, file);
                },
                _ => {},
            }
        }
    }
}

/// The lines that a diff adds name every file once, as the keys of a map
/// do.
pub proof fn lemma_diff_names_each_file_once(diff_output: Seq<char>)
    ensures
        distinct_files(diff_added_lines(diff_output)),
{
    lemma_scan_distinct(text_lines(diff_output));
}

/// Added lines by file as plain values.
pub open spec fn added_line_views(added: Seq<(String, Vec<u32>)>) -> Seq<(Seq<char>, Seq<u32>)> {
    added.map_values(|a: (String, Vec<u32>)| (a.0@, a.1@))
}

fn find_file(added: &Vec<(String, Vec<u32>)>, file: &String) -> (r: Option<usize>)
    ensures
        match r {
            Some(i) => file_index(added_line_views(added@), file@) == i && i < added@.len()
                && added@[i as int].0@ == file@,
            None => file_index(added_line_views(added@), file@) == -1,
        },
{
    let ghost views = added_line_views(added@);
    let mut i: usize = added.len();
    assert(views.take(i as int) =~= views);
    while i > 0
        invariant
            i <= added@.len(),
            views == added_line_views(added@),
            file_index(views, file@) == file_index(views.take(i as int), file@),
        decreases i,
    {
        proof {
            assert(views.take(i as int).drop_last() =~= views.take(i - 1));
            assert(views.take(i as int).last() == (added@[i - 1].0@, added@[i - 1].1@));
        }
        if added[i - 1].0 == *file {
            return Some(i - 1);
        }
        i = i - 1;
    }
    None
}

/// Reads the lines that a diff without context adds, file by file.
pub fn parse_diff_added_lines(diff_output: &str) -> (r: Result<Vec<(String, Vec<u32>)>, GitAiError>)
    ensures
        r matches Err(e) ==> e is Generic,
        r matches Ok(added) && added_line_views(added@) == diff_added_lines(diff_output@),
        r matches Ok(added) ==> distinct_files(added_line_views(added@)),
{
    let chars = chars_of(diff_output);
    let lines = lines_of_text(chars.as_slice());
    let new_file: Vec<char> = vec!['+', '+', '+', ' ', 'b', '/'];
    let gone_file: Vec<char> = vec!['+', '+', '+', ' ', '/', 'd', 'e', 'v', '/', 'n', 'u', 'l', 'l'];
    let hunk: Vec<char> = vec!['@', '@', ' '];
    assert(new_file@ =~= new_file_mark());
    assert(gone_file@ =~= gone_file_mark());
    assert(hunk@ =~= hunk_mark());
    let ghost all = part_views(lines@);
    let mut current: Option<String> = None;
    let mut added: Vec<(String, Vec<u32>)> = Vec::new();
    let mut i: usize = 0;
    assert(added_line_views(added@) =~= Seq::<(Seq<char>, Seq<u32>)>::empty());
    while i < lines.len()
        invariant
            i <= lines@.len(),
            all == part_views(lines@),
            new_file@ == new_file_mark(),
            gone_file@ == gone_file_mark(),
            hunk@ == hunk_mark(),
            scan(all.take(i as int)) == (DiffScan {
                current: match current {
                    Some(f) => Some(f@),
                    None => None,
                },
                added: added_line_views(added@),
            }),
        decreases lines@.len() - i,
    {
        proof {
            assert(all.take(i + 1).drop_last() =~= all.take(i as int));
            assert(all.take(i + 1).last() == lines@[i as int]@);
        }
        let line = &lines[i];
        if starts_with(line.as_slice(), new_file.as_slice()) {
            let name = copy_range(line.as_slice(), 6, line.len());
            assert(name@ =~= line@.skip(6));
            current = Some(string_from_chars(name.as_slice()));
        } else if starts_with(line.as_slice(), gone_file.as_slice()) {
            current = None;
        } else if starts_with(line.as_slice(), hunk.as_slice()) {
            match &current {
                Some(file) => match hunk_header_lines(line.as_slice()) {
                    Some(more) => {
                        let ghost before = added@;
                        match find_file(&added, file) {
                            Some(at) => {
                                let (name, mut so_far) = added.remove(at);
                                so_far.extend_from_slice(more.as_slice());
                                assert(so_far@ =~= before[at as int].1@ + more@);
                                let ghost pair = (name, so_far);
                                added.insert(at, (name, so_far));
                                assert(added@ =~= before.update(at as int, pair));
                                assert(added_line_views(added@) =~= added_line_views(before).update(
                                    at as int,
                                    (file@, before[at as int].1@ + more@),
                                ));
                            },
                            None => {
                                added.push((file.clone(), more));
                                assert(added_line_views(added@) =~= added_line_views(before).push(
                                    (file@, more@),
                                ));
                            },
                        }
                    },
                    None => {},
                },
                None => {},
            }
        }
        i = i + 1;
    }
    assert(all.take(lines@.len() as int) =~= all);
    let ghost raw = added_line_views(added@);
    let mut out: Vec<(String, Vec<u32>)> = Vec::new();
    let mut k: usize = 0;
    while k < added.len()
        invariant
            k <= added@.len(),
            raw == added_line_views(added@),
            out@.len() == k,
            forall|j: int|
                0 <= j < k ==> (#[trigger] out@[j]).0@ == raw[j].0 && out@[j].1@ == dedup(
                    sort_lines(raw[j].1),
                ),
        decreases added@.len() - k,
    {
        let sorted = sort_line_numbers(&added[k].1);
        let once = dedup_line_numbers(&sorted);
        out.push((added[k].0.clone(), once));
        k = k + 1;
    }
    assert(added_line_views(out@) =~= sorted_once(raw));
    proof {
        lemma_diff_names_each_file_once(diff_output@);
    }
    Ok(out)
}

} // verus!
