//! Who wrote the lines of a file: what `git blame` says of the commits,
//! read together with the authorship logs of those commits.

use vstd::prelude::*;

use crate::authorship::authorship_log::{ranges_contain, ranges_hold};
use crate::authorship::authorship_log_serialization::{AttestationEntry, AuthorshipLog};
use crate::authorship::rebase_authorship::{entries_of, find_entries};
use crate::authorship::working_log::CheckpointKind;
use crate::text::{
    chars_of, lines_of_text, parse_u32, part_views, split, string_from_chars, text_lines,
    u32_value, words, Separator,
};

verus! {

/// One line of a file as `git blame` accounts for it: the commit that the
/// line comes from, its number in that commit, and its number in the file.
#[derive(Debug, PartialEq, Eq)]
pub struct BlameLine {
    pub commit: String,
    pub original_line: u32,
    pub final_line: u32,
}

/// A blamed line as plain values.
pub struct BlameLineView {
    pub commit: Seq<char>,
    pub original_line: u32,
    pub final_line: u32,
}

impl View for BlameLine {
    type V = BlameLineView;

    open spec fn view(&self) -> BlameLineView {
        BlameLineView {
            commit: self.commit@,
            original_line: self.original_line,
            final_line: self.final_line,
        }
    }
}

/// Blamed lines as plain values.
pub open spec fn blame_views(lines: Seq<BlameLine>) -> Seq<BlameLineView> {
    lines.map_values(|l: BlameLine| l@)
}

/// A hexadecimal digit in lower case.
pub open spec fn hex_digit(c: char) -> bool {
    ('0' <= c <= '9') || ('a' <= c <= 'f')
}

/// Whether the word has the shape of a commit id: forty hexadecimal digits,
/// or sixty-four in a repository that hashes with SHA-256.
pub open spec fn commit_id(word: Seq<char>) -> bool {
    (word.len() == 40 || word.len() == 64) && forall|i: int|
        0 <= i < word.len() ==> hex_digit(#[trigger] word[i])
}

fn is_commit_id(word: &[char]) -> (r: bool)
    ensures
        r == commit_id(word@),
{
    if word.len() != 40 && word.len() != 64 {
        return false;
    }
    let mut i: usize = 0;
    while i < word.len()
        invariant
            i <= word@.len(),
            forall|k: int| 0 <= k < i ==> hex_digit(#[trigger] word@[k]),
        decreases word@.len() - i,
    {
        let c: char = word[i];
        if !(('0' <= c && c <= '9') || ('a' <= c && c <= 'f')) {
            return false;
        }
        i = i + 1;
    }
    true
}

/// What a line of the porcelain output says where it opens a group of
/// lines: the commit, the number of the line in that commit, and its number
/// in the file. A line of content begins with a tab and opens nothing.
pub open spec fn blame_header(line: Seq<char>) -> Option<BlameLineView> {
    let w = words(line);
    if line.len() > 0 && line[0] != '\t' && w.len() >= 3 && commit_id(w[0]) {
        match (u32_value(w[1]), u32_value(w[2])) {
            (Some(original_line), Some(final_line)) => Some(
                BlameLineView { commit: w[0], original_line, final_line },
            ),
            _ => None,
        }
    } else {
        None
    }
}

/// The lines that the porcelain output of `git blame` accounts for, in the
/// order of the output.
pub open spec fn blame_lines(lines: Seq<Seq<char>>) -> Seq<BlameLineView>
    decreases lines.len(),
{
    if lines.len() == 0 {
        Seq::empty()
    } else {
        match blame_header(lines.last()) {
            Some(line) => blame_lines(lines.drop_last()).push(line),
            None => blame_lines(lines.drop_last()),
        }
    }
}

fn parse_blame_header(line: &[char]) -> (r: Option<BlameLine>)
    ensures
        match r {
            Some(l) => blame_header(line@) == Some(l@),
            None => blame_header(line@) is None,
        },
{
    if line.len() == 0 || line[0] == '\t' {
        return None;
    }
    let w = split(line, Separator::Blank, false, false);
    if w.len() < 3 {
        return None;
    }
    assert(part_views(w@)[0] == w@[0]@);
    assert(part_views(w@)[1] == w@[1]@);
    assert(part_views(w@)[2] == w@[2]@);
    if !is_commit_id(w[0].as_slice()) {
        return None;
    }
    match (parse_u32(w[1].as_slice()), parse_u32(w[2].as_slice())) {
        (Some(original_line), Some(final_line)) => Some(
            BlameLine { commit: string_from_chars(w[0].as_slice()), original_line, final_line },
        ),
        _ => None,
    }
}

/// Reads what `git blame --porcelain` prints.
pub fn parse_blame_porcelain(output: &str) -> (r: Vec<BlameLine>)
    ensures
        blame_views(r@) == blame_lines(text_lines(output@)),
{
    let chars = chars_of(output);
    let lines = lines_of_text(chars.as_slice());
    let ghost all = part_views(lines@);
    let mut out: Vec<BlameLine> = Vec::new();
    let mut i: usize = 0;
    assert(blame_views(out@) =~= Seq::<BlameLineView>::empty());
    while i < lines.len()
        invariant
            i <= lines@.len(),
            all == part_views(lines@),
            blame_views(out@) == blame_lines(all.take(i as int)),
        decreases lines@.len() - i,
    {
        proof {
            assert(all.take(i + 1).drop_last() =~= all.take(i as int));
            assert(all.take(i + 1).last() == lines@[i as int]@);
        }
        match parse_blame_header(lines[i].as_slice()) {
            Some(line) => {
                let ghost before = out@;
                out.push(line);
                assert(blame_views(out@) =~= blame_views(before).push(line@));
            },
            None => {},
        }
        i = i + 1;
    }
    assert(all.take(lines@.len() as int) =~= all);
    out
}

/// The session that the entries attest `line` to: that of the last entry
/// that holds the line.
pub open spec fn line_author(entries: Seq<AttestationEntry>, line: int) -> Option<Seq<char>>
    decreases entries.len(),
{
    if entries.len() == 0 {
        None
    } else if ranges_hold(entries.last().line_ranges@, line) {
        Some(entries.last().hash@)
    } else {
        line_author(entries.drop_last(), line)
    }
}

fn find_line_author<'a>(entries: &'a Vec<AttestationEntry>, line: u32) -> (r: Option<&'a String>)
    ensures
        match r {
            Some(hash) => line_author(entries@, line as int) == Some(hash@),
            None => line_author(entries@, line as int) is None,
        },
{
    let mut i: usize = entries.len();
    assert(entries@.take(i as int) =~= entries@);
    while i > 0
        invariant
            i <= entries@.len(),
            line_author(entries@, line as int) == line_author(
                entries@.take(i as int),
                line as int,
            ),
        decreases i,
    {
        proof {
            assert(entries@.take(i as int).drop_last() =~= entries@.take(i - 1));
        }
        if ranges_contain(&entries[i - 1].line_ranges, line) {
            return Some(&entries[i - 1].hash);
        }
        i = i - 1;
    }
    None
}

/// The authorship log of `commit` among `notes`: that of the last pair with
/// this commit.
pub open spec fn note_of(notes: Seq<(String, AuthorshipLog)>, commit: Seq<char>) -> Option<
    AuthorshipLog,
>
    decreases notes.len(),
{
    if notes.len() == 0 {
        None
    } else if notes.last().0@ == commit {
        Some(notes.last().1)
    } else {
        note_of(notes.drop_last(), commit)
    }
}

fn find_note<'a>(notes: &'a Vec<(String, AuthorshipLog)>, commit: &String) -> (r: Option<
    &'a AuthorshipLog,
>)
    ensures
        match r {
            Some(log) => note_of(notes@, commit@) == Some(*log),
            None => note_of(notes@, commit@) is None,
        },
{
    let mut i: usize = notes.len();
    assert(notes@.take(i as int) =~= notes@);
    while i > 0
        invariant
            i <= notes@.len(),
            note_of(notes@, commit@) == note_of(notes@.take(i as int), commit@),
        decreases i,
    {
        proof {
            assert(notes@.take(i as int).drop_last() =~= notes@.take(i - 1));
        }
        if notes[i - 1].0 == *commit {
            return Some(&notes[i - 1].1);
        }
        i = i - 1;
    }
    None
}

/// Who wrote a blamed line of `file`: the session that the authorship log
/// of its commit attests the line to; a person where the commit has no log,
/// or the log attests the line to nobody.
pub open spec fn blamed_author(
    notes: Seq<(String, AuthorshipLog)>,
    file: Seq<char>,
    line: BlameLineView,
) -> Seq<char> {
    match note_of(notes, line.commit) {
        Some(log) => match line_author(
            entries_of(log.attestations@, file),
            line.original_line as int,
        ) {
            Some(hash) => hash,
            None => CheckpointKind::Human.name(),
        },
        None => CheckpointKind::Human.name(),
    }
}

/// The author of every blamed line of `file`, by its number in the file.
/// `notes` holds the authorship logs of the commits that have one.
pub fn blame_authors(lines: &Vec<BlameLine>, notes: &Vec<(String, AuthorshipLog)>, file: &str) -> (r:
    Vec<(u32, String)>)
    ensures
        r@.len() == lines@.len(),
        forall|i: int|
            0 <= i < r@.len() ==> (#[trigger] r@[i]).0 == lines@[i].final_line && r@[i].1@
                == blamed_author(notes@, file@, lines@[i]@),
{
    let none: Vec<AttestationEntry> = Vec::new();
    let path = file.to_owned();
    let mut out: Vec<(u32, String)> = Vec::new();
    let mut i: usize = 0;
    while i < lines.len()
        invariant
            i <= lines@.len(),
            out@.len() == i,
            none@.len() == 0,
            path@ == file@,
            forall|k: int|
                0 <= k < i ==> (#[trigger] out@[k]).0 == lines@[k].final_line && out@[k].1@
                    == blamed_author(notes@, file@, lines@[k]@),
        decreases lines@.len() - i,
    {
        let line = &lines[i];
        let hash: Option<&String> = match find_note(notes, &line.commit) {
            Some(log) => find_line_author(
                find_entries(&log.attestations, &path, &none),
                line.original_line,
            ),
            None => None,
        };
        let author = match hash {
            Some(hash) => hash.clone(),
            None => CheckpointKind::Human.to_str(),
        };
        out.push((line.final_line, author));
        i = i + 1;
    }
    out
}

} // verus!
