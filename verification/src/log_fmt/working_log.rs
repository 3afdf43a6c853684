//! Checkpoints that record the lines an author added to or deleted from a file.

use vstd::prelude::*;

use crate::utils::now_secs;

verus! {

/// One line of a file, or an inclusive range of lines.
#[derive(Debug, Clone, Copy, PartialEq, Eq, Structural)]
pub enum Line {
    Single(u32),
    Range(u32, u32),
}

impl Line {
    /// The first line.
    pub open spec fn first(self) -> int {
        match self {
            Line::Single(line) => line as int,
            Line::Range(start, _) => start as int,
        }
    }

    /// The last line.
    pub open spec fn last(self) -> int {
        match self {
            Line::Single(line) => line as int,
            Line::Range(_, end) => end as int,
        }
    }

    /// Whether `line_number` is the line, or lies in the range.
    pub open spec fn holds(self, line_number: int) -> bool {
        self.first() <= line_number <= self.last()
    }

    pub fn start(&self) -> (r: u32)
        ensures
            r == self.first(),
    {
        match self {
            Line::Single(line) => *line,
            Line::Range(start, _) => *start,
        }
    }

    pub fn end(&self) -> (r: u32)
        ensures
            r == self.last(),
    {
        match self {
            Line::Single(line) => *line,
            Line::Range(_, end) => *end,
        }
    }

    pub fn contains(&self, line_number: u32) -> (r: bool)
        ensures
            r == self.holds(line_number as int),
    {
        match self {
            Line::Single(line) => *line == line_number,
            Line::Range(start, end) => line_number >= *start && line_number <= *end,
        }
    }
}

/// Whether some entry of `lines` holds `line_number`.
pub open spec fn any_holds(lines: Seq<Line>, line_number: int) -> bool {
    exists|i: int| 0 <= i < lines.len() && (#[trigger] lines[i]).holds(line_number)
}

/// What one checkpoint records of one file.
#[derive(Debug, Clone)]
pub struct WorkingLogEntry {
    /// The path of the file, relative to the root of the repository.
    pub file: String,
    pub added_lines: Vec<Line>,
    pub deleted_lines: Vec<Line>,
}

fn any_contains(lines: &Vec<Line>, line_number: u32) -> (r: bool)
    ensures
        r == any_holds(lines@, line_number as int),
{
    let mut i: usize = 0;
    while i < lines.len()
        invariant
            i <= lines@.len(),
            forall|k: int| 0 <= k < i ==> !(#[trigger] lines@[k]).holds(line_number as int),
        decreases lines@.len() - i,
    {
        if lines[i].contains(line_number) {
            return true;
        }
        i = i + 1;
    }
    false
}

impl WorkingLogEntry {
    pub fn new(file: String, added_lines: Vec<Line>, deleted_lines: Vec<Line>) -> (r: Self)
        ensures
            r.file == file,
            r.added_lines == added_lines,
            r.deleted_lines == deleted_lines,
    {
        WorkingLogEntry { file, added_lines, deleted_lines }
    }

    pub fn add_added_line(&mut self, line: u32)
        ensures
            final(self).added_lines@ == old(self).added_lines@.push(Line::Single(line)),
            final(self).deleted_lines == old(self).deleted_lines,
            final(self).file == old(self).file,
    {
        self.added_lines.push(Line::Single(line));
    }

    pub fn add_added_range(&mut self, start: u32, end: u32)
        ensures
            final(self).added_lines@ == old(self).added_lines@.push(Line::Range(start, end)),
            final(self).deleted_lines == old(self).deleted_lines,
            final(self).file == old(self).file,
    {
        self.added_lines.push(Line::Range(start, end));
    }

    pub fn add_deleted_line(&mut self, line: u32)
        ensures
            final(self).deleted_lines@ == old(self).deleted_lines@.push(Line::Single(line)),
            final(self).added_lines == old(self).added_lines,
            final(self).file == old(self).file,
    {
        self.deleted_lines.push(Line::Single(line));
    }

    pub fn add_deleted_range(&mut self, start: u32, end: u32)
        ensures
            final(self).deleted_lines@ == old(self).deleted_lines@.push(Line::Range(start, end)),
            final(self).added_lines == old(self).added_lines,
            final(self).file == old(self).file,
    {
        self.deleted_lines.push(Line::Range(start, end));
    }

    /// Whether the entry records `line_number` as added or as deleted.
    pub fn covers_line(&self, line_number: u32) -> (r: bool)
        ensures
            r == (any_holds(self.added_lines@, line_number as int) || any_holds(
                self.deleted_lines@,
                line_number as int,
            )),
    {
        any_contains(&self.added_lines, line_number) || any_contains(
            &self.deleted_lines,
            line_number,
        )
    }

    /// The added lines, followed by the deleted ones.
    pub fn all_lines(&self) -> (r: Vec<Line>)
        ensures
            r@ == self.added_lines@ + self.deleted_lines@,
    {
        let mut out: Vec<Line> = Vec::new();
        let mut i: usize = 0;
        while i < self.added_lines.len()
            invariant
                i <= self.added_lines@.len(),
                out@ == self.added_lines@.take(i as int),
            decreases self.added_lines@.len() - i,
        {
            out.push(self.added_lines[i]);
            assert(self.added_lines@.take(i + 1) =~= self.added_lines@.take(i as int).push(
                self.added_lines@[i as int],
            ));
            i = i + 1;
        }
        assert(self.added_lines@.take(self.added_lines@.len() as int) =~= self.added_lines@);
        let mut j: usize = 0;
        while j < self.deleted_lines.len()
            invariant
                j <= self.deleted_lines@.len(),
                out@ == self.added_lines@ + self.deleted_lines@.take(j as int),
            decreases self.deleted_lines@.len() - j,
        {
            out.push(self.deleted_lines[j]);
            assert(self.added_lines@ + self.deleted_lines@.take(j + 1) =~= (self.added_lines@
                + self.deleted_lines@.take(j as int)).push(self.deleted_lines@[j as int]));
            j = j + 1;
        }
        assert(self.deleted_lines@.take(self.deleted_lines@.len() as int) =~= self.deleted_lines@);
        out
    }
}

/// What is known of the agent behind a checkpoint.
#[derive(Debug, Clone)]
pub struct AgentMetadata {
    pub model: String,
    pub human_author: Option<String>,
}

/// One message of a prompt.
#[derive(Debug, Clone, PartialEq, Eq)]
pub struct PromptMessage {
    pub text: String,
    pub role: PromptRole,
    pub username: Option<String>,
    pub timestamp: u64,
}

/// Who wrote a message of a prompt.
#[derive(Debug, Clone, PartialEq, Eq)]
pub enum PromptRole {
    User,
    Agent,
}

/// A tool, and the session within that tool.
#[derive(Debug, Clone, PartialEq, Eq)]
pub struct AgentId {
    pub tool: String,
    pub id: String,
}

/// The conversation behind a checkpoint.
#[derive(Debug, Clone, PartialEq, Eq)]
pub struct Prompt {
    pub messages: Vec<PromptMessage>,
    pub agent_id: AgentId,
}

/// One record of the working log.
#[derive(Debug, Clone)]
pub struct Checkpoint {
    pub snapshot: String,
    pub diff: String,
    pub author: String,
    pub entries: Vec<WorkingLogEntry>,
    /// Seconds since the Unix epoch at which the checkpoint was made.
    pub timestamp: u64,
    pub agent_metadata: Option<AgentMetadata>,
    pub prompt: Option<Prompt>,
}

impl Checkpoint {
    /// A checkpoint without agent, stamped with the time of the call.
    pub fn new(snapshot: String, diff: String, author: String, entries: Vec<WorkingLogEntry>) -> (r:
        Self)
        ensures
            r.snapshot == snapshot,
            r.diff == diff,
            r.author == author,
            r.entries == entries,
            r.agent_metadata is None,
            r.prompt is None,
    {
        Checkpoint::at(snapshot, diff, author, entries, None, now_secs())
    }

    /// A checkpoint stamped with the given time in seconds since the Unix
    /// epoch, with the metadata of an agent or without.
    pub fn at(
        snapshot: String,
        diff: String,
        author: String,
        entries: Vec<WorkingLogEntry>,
        agent_metadata: Option<AgentMetadata>,
        timestamp: u64,
    ) -> (r: Self)
        ensures
            r == (Checkpoint {
                snapshot,
                diff,
                author,
                entries,
                timestamp,
                agent_metadata,
                prompt: None,
            }),
    {
        Checkpoint { snapshot, diff, author, entries, timestamp, agent_metadata, prompt: None }
    }

    /// A checkpoint made by an agent, stamped with the time of the call.
    pub fn new_with_metadata(
        snapshot: String,
        diff: String,
        author: String,
        entries: Vec<WorkingLogEntry>,
        agent_metadata: AgentMetadata,
    ) -> (r: Self)
        ensures
            r.snapshot == snapshot,
            r.diff == diff,
            r.author == author,
            r.entries == entries,
            r.agent_metadata == Some(agent_metadata),
            r.prompt is None,
    {
        Checkpoint::at(snapshot, diff, author, entries, Some(agent_metadata), now_secs())
    }
}

} // verus!
