//! The state of the working tree as `git status` reports it.

use vstd::prelude::*;

use crate::text::{
    chars_of, copy_range, lines_of_text, part_views, string_from_chars, text_lines,
};

verus! {

/// The kind of a record of `git status`.
#[derive(Debug, Clone, Copy, PartialEq, Eq, Structural)]
pub enum EntryKind {
    Ordinary,
    Renamed,
    Unmerged,
    Untracked,
    Ignored,
}

/// What happened to a file in the index or in the working tree.
#[derive(Debug, Clone, Copy, PartialEq, Eq, Structural)]
pub enum StatusCode {
    Unmodified,
    Modified,
    Added,
    Deleted,
    Renamed,
    Copied,
    Unmerged,
    Untracked,
    Ignored,
}

/// One record of `git status`.
#[derive(Debug, PartialEq, Eq)]
pub struct StatusEntry {
    pub kind: EntryKind,
    pub staged: StatusCode,
    pub unstaged: StatusCode,
    pub path: String,
    pub orig_path: Option<String>,
}

impl StatusEntry {
    /// Whether a checkpoint looks at the file: it is neither ignored nor in
    /// conflict, and it is untracked or changed in the index or in the
    /// working tree.
    pub open spec fn relevant(self) -> bool {
        self.kind != EntryKind::Ignored && self.kind != EntryKind::Unmerged && (self.staged
            != StatusCode::Unmodified || self.unstaged != StatusCode::Unmodified || self.kind
            == EntryKind::Untracked)
    }

    /// Whether the file is gone from the index or from the working tree.
    pub open spec fn deleted(self) -> bool {
        self.staged == StatusCode::Deleted || self.unstaged == StatusCode::Deleted
    }

    pub fn has_change(&self) -> (r: bool)
        ensures
            r == self.relevant(),
    {
        self.kind != EntryKind::Ignored && self.kind != EntryKind::Unmerged && (self.staged
            != StatusCode::Unmodified || self.unstaged != StatusCode::Unmodified || self.kind
            == EntryKind::Untracked)
    }

    pub fn is_deleted(&self) -> (r: bool)
        ensures
            r == self.deleted(),
    {
        self.staged == StatusCode::Deleted || self.unstaged == StatusCode::Deleted
    }
}

/// What a letter of the status stands for; `Unmodified` for a dot, and for
/// any letter that git does not use.
pub open spec fn code_of(c: char) -> StatusCode {
    if c == 'M' {
        StatusCode::Modified
    } else if c == 'A' {
        StatusCode::Added
    } else if c == 'D' {
        StatusCode::Deleted
    } else if c == 'R' {
        StatusCode::Renamed
    } else if c == 'C' {
        StatusCode::Copied
    } else if c == 'U' {
        StatusCode::Unmerged
    } else if c == 'T' {
        StatusCode::Modified
    } else {
        StatusCode::Unmodified
    }
}

pub fn status_code(c: char) -> (r: StatusCode)
    ensures
        r == code_of(c),
{
    if c == 'M' {
        StatusCode::Modified
    } else if c == 'A' {
        StatusCode::Added
    } else if c == 'D' {
        StatusCode::Deleted
    } else if c == 'R' {
        StatusCode::Renamed
    } else if c == 'C' {
        StatusCode::Copied
    } else if c == 'U' {
        StatusCode::Unmerged
    } else if c == 'T' {
        StatusCode::Modified
    } else {
        StatusCode::Unmodified
    }
}

/// Where the field that follows `count` spaces begins in `line`, read from
/// `from` on; the length of the line where it has fewer spaces.
pub open spec fn after_spaces(line: Seq<char>, count: nat, from: int) -> int
    decreases line.len() - from,
{
    if count == 0 {
        from
    } else if from < 0 || from >= line.len() {
        line.len() as int
    } else if line[from] == ' ' {
        after_spaces(line, (count - 1) as nat, from + 1)
    } else {
        after_spaces(line, count, from + 1)
    }
}

fn skip_fields(line: &[char], count: usize) -> (r: usize)
    ensures
        r == after_spaces(line@, count as nat, 0),
        r <= line@.len(),
{
    let mut left: usize = count;
    let mut i: usize = 0;
    while left > 0 && i < line.len()
        invariant
            i <= line@.len(),
            after_spaces(line@, count as nat, 0) == after_spaces(line@, left as nat, i as int),
        decreases line@.len() - i,
    {
        if line[i] == ' ' {
            left = left - 1;
        }
        i = i + 1;
    }
    i
}

/// A record of the status as plain values.
pub struct StatusView {
    pub kind: EntryKind,
    pub staged: StatusCode,
    pub unstaged: StatusCode,
    pub path: Seq<char>,
    pub orig_path: Option<Seq<char>>,
}

impl View for StatusEntry {
    type V = StatusView;

    open spec fn view(&self) -> StatusView {
        StatusView {
            kind: self.kind,
            staged: self.staged,
            unstaged: self.unstaged,
            path: self.path@,
            orig_path: match self.orig_path {
                Some(p) => Some(p@),
                None => None,
            },
        }
    }
}

/// Where a tab first stands in `s` at or after `from`; the length of `s`
/// where none does.
pub open spec fn tab_position(s: Seq<char>, from: int) -> int
    decreases s.len() - from,
{
    if from < 0 || from >= s.len() {
        s.len() as int
    } else if s[from] == '\t' {
        from
    } else {
        tab_position(s, from + 1)
    }
}

fn find_tab(s: &[char], from: usize) -> (r: usize)
    requires
        from <= s@.len(),
    ensures
        r == tab_position(s@, from as int),
        from <= r <= s@.len(),
{
    let mut i: usize = from;
    while i < s.len()
        invariant
            from <= i <= s@.len(),
            tab_position(s@, from as int) == tab_position(s@, i as int),
        decreases s@.len() - i,
    {
        if s[i] == '\t' {
            return i;
        }
        i = i + 1;
    }
    s.len()
}

/// What a line of the second version of the porcelain format says. A line
/// that begins with `1` is an ordinary record with eight fields before the
/// path, one with `2` a rename with nine fields before the path and the old
/// path behind a tab, one with `u` a conflict with ten fields before the
/// path; the two letters of the status stand behind the first space. `?`
/// and `!` stand before a path that is untracked or ignored. Any other line
/// says nothing.
pub open spec fn status_record(line: Seq<char>) -> Option<StatusView> {
    if line.len() < 3 || line[1] != ' ' {
        None
    } else if line[0] == '?' {
        Some(
            StatusView {
                kind: EntryKind::Untracked,
                staged: StatusCode::Untracked,
                unstaged: StatusCode::Untracked,
                path: line.skip(2),
                orig_path: None,
            },
        )
    } else if line[0] == '!' {
        Some(
            StatusView {
                kind: EntryKind::Ignored,
                staged: StatusCode::Ignored,
                unstaged: StatusCode::Ignored,
                path: line.skip(2),
                orig_path: None,
            },
        )
    } else if line.len() < 4 {
        None
    } else if line[0] == '1' {
        Some(
            StatusView {
                kind: EntryKind::Ordinary,
                staged: code_of(line[2]),
                unstaged: code_of(line[3]),
                path: line.skip(after_spaces(line, 8, 0)),
                orig_path: None,
            },
        )
    } else if line[0] == 'u' {
        Some(
            StatusView {
                kind: EntryKind::Unmerged,
                staged: code_of(line[2]),
                unstaged: code_of(line[3]),
                path: line.skip(after_spaces(line, 10, 0)),
                orig_path: None,
            },
        )
    } else if line[0] == '2' {
        let start = after_spaces(line, 9, 0);
        let tab = tab_position(line, start);
        Some(
            StatusView {
                kind: EntryKind::Renamed,
                staged: code_of(line[2]),
                unstaged: code_of(line[3]),
                path: line.subrange(start, tab),
                orig_path: if tab < line.len() {
                    Some(line.skip(tab + 1))
                } else {
                    None
                },
            },
        )
    } else {
        None
    }
}

/// The records of the lines that say something, in their order.
pub open spec fn status_records(lines: Seq<Seq<char>>) -> Seq<StatusView>
    decreases lines.len(),
{
    if lines.len() == 0 {
        Seq::empty()
    } else {
        match status_record(lines.last()) {
            Some(r) => status_records(lines.drop_last()).push(r),
            None => status_records(lines.drop_last()),
        }
    }
}

/// Records as plain values.
pub open spec fn status_views(entries: Seq<StatusEntry>) -> Seq<StatusView> {
    entries.map_values(|e: StatusEntry| e@)
}

fn parse_status_line(line: &[char]) -> (r: Option<StatusEntry>)
    ensures
        match r {
            Some(e) => status_record(line@) == Some(e@),
            None => status_record(line@) is None,
        },
{
    let n: usize = line.len();
    if n < 3 || line[1] != ' ' {
        return None;
    }
    let first: char = line[0];
    if first == '?' || first == '!' {
        let path = copy_range(line, 2, n);
        assert(path@ =~= line@.skip(2));
        let (kind, code) = if first == '?' {
            (EntryKind::Untracked, StatusCode::Untracked)
        } else {
            (EntryKind::Ignored, StatusCode::Ignored)
        };
        return Some(
            StatusEntry {
                kind,
                staged: code,
                unstaged: code,
                path: string_from_chars(path.as_slice()),
                orig_path: None,
            },
        );
    }
    if n < 4 {
        return None;
    }
    let staged = status_code(line[2]);
    let unstaged = status_code(line[3]);
    if first == '1' || first == 'u' {
        let start = skip_fields(line, if first == '1' {
            8
        } else {
            10
        });
        let path = copy_range(line, start, n);
        assert(path@ =~= line@.skip(start as int));
        Some(
            StatusEntry {
                kind: if first == '1' {
                    EntryKind::Ordinary
                } else {
                    EntryKind::Unmerged
                },
                staged,
                unstaged,
                path: string_from_chars(path.as_slice()),
                orig_path: None,
            },
        )
    } else if first == '2' {
        let start = skip_fields(line, 9);
        let tab = find_tab(line, start);
        let path = copy_range(line, start, tab);
        let orig_path = if tab < n {
            let old = copy_range(line, tab + 1, n);
            assert(old@ =~= line@.skip(tab + 1));
            Some(string_from_chars(old.as_slice()))
        } else {
            None
        };
        Some(
            StatusEntry {
                kind: EntryKind::Renamed,
                staged,
                unstaged,
                path: string_from_chars(path.as_slice()),
                orig_path,
            },
        )
    } else {
        None
    }
}

/// Reads what `git status --porcelain=v2` prints.
pub fn parse_status(output: &str) -> (r: Vec<StatusEntry>)
    ensures
        status_views(r@) == status_records(text_lines(output@)),
{
    let chars = chars_of(output);
    let lines = lines_of_text(chars.as_slice());
    let ghost all = part_views(lines@);
    let mut out: Vec<StatusEntry> = Vec::new();
    let mut i: usize = 0;
    assert(status_views(out@) =~= Seq::<StatusView>::empty());
    while i < lines.len()
        invariant
            i <= lines@.len(),
            all == part_views(lines@),
            status_views(out@) == status_records(all.take(i as int)),
        decreases lines@.len() - i,
    {
        proof {
            assert(all.take(i + 1).drop_last() =~= all.take(i as int));
            assert(all.take(i + 1).last() == lines@[i as int]@);
        }
        match parse_status_line(lines[i].as_slice()) {
            Some(e) => {
                let ghost before = out@;
                out.push(e);
                assert(status_views(out@) =~= status_views(before).push(e@));
            },
            None => {},
        }
        i = i + 1;
    }
    assert(all.take(lines@.len() as int) =~= all);
    out
}

} // verus!
