//! The working log: checkpoints taken between two commits.

use vstd::prelude::*;

use crate::authorship::attribution_tracker::{Attribution, LineAttribution};
use crate::authorship::transcript::{clone_transcript, transcript_view, AiTranscript, Message};
use crate::utils::now_millis;

verus! {

/// Who made a checkpoint: a person, an agent, or tab completion.
#[derive(Debug, Clone, Copy, PartialEq, Eq, Structural)]
pub enum CheckpointKind {
    Human,
    AiAgent,
    AiTab,
}

impl CheckpointKind {
    /// The name of the kind; for `Human` it is also the author id of every
    /// byte that a person wrote.
    pub open spec fn name(self) -> Seq<char> {
        match self {
            CheckpointKind::Human => "human"@,
            CheckpointKind::AiAgent => "ai_agent"@,
            CheckpointKind::AiTab => "ai_tab"@,
        }
    }

    pub fn to_str(&self) -> (r: String)
        ensures
            r@ == self.name(),
    {
        match self {
            CheckpointKind::Human => "human".to_owned(),
            CheckpointKind::AiAgent => "ai_agent".to_owned(),
            CheckpointKind::AiTab => "ai_tab".to_owned(),
        }
    }
}

/// The agent behind a checkpoint: the tool, the session within the tool, and
/// the model.
#[derive(Debug, PartialEq, Eq)]
pub struct AgentId {
    pub tool: String,
    pub id: String,
    pub model: String,
}

impl Clone for AgentId {
    fn clone(&self) -> (r: Self)
        ensures
            r == *self,
    {
        AgentId { tool: self.tool.clone(), id: self.id.clone(), model: self.model.clone() }
    }
}

/// What one checkpoint records of one file: the hash of its content at that
/// time, and who wrote which bytes and lines of it.
#[derive(Debug, PartialEq, Eq)]
pub struct WorkingLogEntry {
    pub file: String,
    pub blob_sha: String,
    pub attributions: Vec<Attribution>,
    pub line_attributions: Vec<LineAttribution>,
}

/// An entry as plain values.
pub struct WorkingLogEntryView {
    pub file: Seq<char>,
    pub blob_sha: Seq<char>,
    pub attributions: Seq<Attribution>,
    pub line_attributions: Seq<LineAttribution>,
}

impl View for WorkingLogEntry {
    type V = WorkingLogEntryView;

    open spec fn view(&self) -> WorkingLogEntryView {
        WorkingLogEntryView {
            file: self.file@,
            blob_sha: self.blob_sha@,
            attributions: self.attributions@,
            line_attributions: self.line_attributions@,
        }
    }
}

/// The entries of a list as plain values.
pub open spec fn entry_views(entries: Seq<WorkingLogEntry>) -> Seq<WorkingLogEntryView> {
    entries.map_values(|e: WorkingLogEntry| e@)
}

impl Clone for WorkingLogEntry {
    fn clone(&self) -> (r: Self)
        ensures
            r@ == self@,
    {
        let attributions = self.attributions.clone();
        let line_attributions = self.line_attributions.clone();
        assert(attributions@ =~= self.attributions@);
        assert(line_attributions@ =~= self.line_attributions@);
        WorkingLogEntry {
            file: self.file.clone(),
            blob_sha: self.blob_sha.clone(),
            attributions,
            line_attributions,
        }
    }
}

impl WorkingLogEntry {
    pub fn new(
        file: String,
        blob_sha: String,
        attributions: Vec<Attribution>,
        line_attributions: Vec<LineAttribution>,
    ) -> (r: Self)
        ensures
            r@ == (WorkingLogEntryView {
                file: file@,
                blob_sha: blob_sha@,
                attributions: attributions@,
                line_attributions: line_attributions@,
            }),
    {
        WorkingLogEntry { file, blob_sha, attributions, line_attributions }
    }
}

/// Lines added and deleted so far in a working log, by kind of author.
#[derive(Debug, Clone, Copy, PartialEq, Eq, Structural)]
pub struct CheckpointLineStats {
    pub human_additions: u32,
    pub human_deletions: u32,
    pub ai_agent_additions: u32,
    pub ai_agent_deletions: u32,
    pub ai_tab_additions: u32,
    pub ai_tab_deletions: u32,
}

impl CheckpointLineStats {
    /// No line added, none deleted.
    pub open spec fn zero() -> CheckpointLineStats {
        CheckpointLineStats {
            human_additions: 0,
            human_deletions: 0,
            ai_agent_additions: 0,
            ai_agent_deletions: 0,
            ai_tab_additions: 0,
            ai_tab_deletions: 0,
        }
    }
}

impl Default for CheckpointLineStats {
    fn default() -> (r: Self)
        ensures
            r == CheckpointLineStats::zero(),
    {
        CheckpointLineStats {
            human_additions: 0,
            human_deletions: 0,
            ai_agent_additions: 0,
            ai_agent_deletions: 0,
            ai_tab_additions: 0,
            ai_tab_deletions: 0,
        }
    }
}

/// One record of the working log.
#[derive(Debug, PartialEq, Eq)]
pub struct Checkpoint {
    pub kind: CheckpointKind,
    /// The combined hash of all files of the checkpoint.
    pub snapshot: String,
    pub author: String,
    /// Milliseconds since the Unix epoch at which the checkpoint was made.
    pub timestamp: u128,
    pub entries: Vec<WorkingLogEntry>,
    pub transcript: Option<AiTranscript>,
    pub agent_id: Option<AgentId>,
    pub line_stats: CheckpointLineStats,
}

/// A checkpoint as plain values.
pub struct CheckpointView {
    pub kind: CheckpointKind,
    pub snapshot: Seq<char>,
    pub author: Seq<char>,
    pub timestamp: int,
    pub entries: Seq<WorkingLogEntryView>,
    pub transcript: Option<Seq<Message>>,
    pub agent_id: Option<AgentId>,
    pub line_stats: CheckpointLineStats,
}

impl View for Checkpoint {
    type V = CheckpointView;

    open spec fn view(&self) -> CheckpointView {
        CheckpointView {
            kind: self.kind,
            snapshot: self.snapshot@,
            author: self.author@,
            timestamp: self.timestamp as int,
            entries: entry_views(self.entries@),
            transcript: transcript_view(self.transcript),
            agent_id: self.agent_id,
            line_stats: self.line_stats,
        }
    }
}

/// The checkpoints of a list as plain values.
pub open spec fn checkpoint_views(checkpoints: Seq<Checkpoint>) -> Seq<CheckpointView> {
    checkpoints.map_values(|c: Checkpoint| c@)
}

/// A copy of a list of entries.
pub fn clone_entries(entries: &Vec<WorkingLogEntry>) -> (r: Vec<WorkingLogEntry>)
    ensures
        entry_views(r@) == entry_views(entries@),
{
    let mut out: Vec<WorkingLogEntry> = Vec::new();
    let mut i: usize = 0;
    while i < entries.len()
        invariant
            i <= entries@.len(),
            out@.len() == i,
            forall|k: int| 0 <= k < i ==> (#[trigger] out@[k])@ == entries@[k]@,
        decreases entries@.len() - i,
    {
        out.push(entries[i].clone());
        i = i + 1;
    }
    assert(entry_views(out@) =~= entry_views(entries@));
    out
}

impl Clone for Checkpoint {
    fn clone(&self) -> (r: Self)
        ensures
            r@ == self@,
    {
        let entries = clone_entries(&self.entries);
        Checkpoint {
            kind: self.kind,
            snapshot: self.snapshot.clone(),
            author: self.author.clone(),
            timestamp: self.timestamp,
            entries,
            transcript: clone_transcript(&self.transcript),
            agent_id: self.agent_id.clone(),
            line_stats: self.line_stats,
        }
    }
}

impl Checkpoint {
    /// The checkpoint without transcript, agent or line counts that holds the
    /// given values.
    pub open spec fn spec_at(
        kind: CheckpointKind,
        snapshot: Seq<char>,
        author: Seq<char>,
        entries: Seq<WorkingLogEntryView>,
        timestamp: int,
    ) -> CheckpointView {
        CheckpointView {
            kind,
            snapshot,
            author,
            timestamp,
            entries,
            transcript: None,
            agent_id: None,
            line_stats: CheckpointLineStats::zero(),
        }
    }

    /// A checkpoint without transcript or agent, stamped with the time of the
    /// call.
    pub fn new(kind: CheckpointKind, snapshot: String, author: String, entries: Vec<WorkingLogEntry>) -> (r:
        Self)
        ensures
            r@ == (CheckpointView { timestamp: r@.timestamp, ..Checkpoint::spec_at(
                kind,
                snapshot@,
                author@,
                entry_views(entries@),
                0,
            ) }),
    {
        Checkpoint::at(kind, snapshot, author, entries, now_millis())
    }

    /// A checkpoint without transcript or agent, made at `timestamp`.
    pub fn at(
        kind: CheckpointKind,
        snapshot: String,
        author: String,
        entries: Vec<WorkingLogEntry>,
        timestamp: u128,
    ) -> (r: Self)
        ensures
            r@ == Checkpoint::spec_at(kind, snapshot@, author@, entry_views(entries@), timestamp as int),
    {
        Checkpoint {
            kind,
            snapshot,
            author,
            timestamp,
            entries,
            transcript: None,
            agent_id: None,
            line_stats: CheckpointLineStats::default(),
        }
    }
}

/// The entry for `file` among `entries`: the last one with this path.
pub open spec fn entry_in(entries: Seq<WorkingLogEntry>, file: Seq<char>) -> Option<WorkingLogEntry>
    decreases entries.len(),
{
    if entries.len() == 0 {
        None
    } else if entries.last().file@ == file {
        Some(entries.last())
    } else {
        entry_in(entries.drop_last(), file)
    }
}

/// The latest entry for `file` in a working log: that of the last checkpoint
/// that has one.
pub open spec fn latest_entry(checkpoints: Seq<Checkpoint>, file: Seq<char>) -> Option<
    WorkingLogEntry,
>
    decreases checkpoints.len(),
{
    if checkpoints.len() == 0 {
        None
    } else {
        match entry_in(checkpoints.last().entries@, file) {
            Some(e) => Some(e),
            None => latest_entry(checkpoints.drop_last(), file),
        }
    }
}

/// Finds the latest entry for `file` in a working log.
pub fn find_latest_entry<'a>(checkpoints: &'a Vec<Checkpoint>, file: &String) -> (r: Option<
    &'a WorkingLogEntry,
>)
    ensures
        match r {
            Some(e) => latest_entry(checkpoints@, file@) == Some(*e),
            None => latest_entry(checkpoints@, file@) is None,
        },
{
    let mut i: usize = checkpoints.len();
    assert(checkpoints@.take(i as int) =~= checkpoints@);
    while i > 0
        invariant
            i <= checkpoints@.len(),
            latest_entry(checkpoints@, file@) == latest_entry(checkpoints@.take(i as int), file@),
        decreases i,
    {
        let entries = &checkpoints[i - 1].entries;
        proof {
            assert(checkpoints@.take(i as int).drop_last() =~= checkpoints@.take(i - 1));
            assert(checkpoints@.take(i as int).last() == checkpoints@[i - 1]);
        }
        let mut j: usize = entries.len();
        assert(entries@.take(j as int) =~= entries@);
        while j > 0
            invariant
                j <= entries@.len(),
                0 < i <= checkpoints@.len(),
                entry_in(entries@, file@) == entry_in(entries@.take(j as int), file@),
                latest_entry(checkpoints@, file@) == match entry_in(entries@, file@) {
                    Some(e) => Some(e),
                    None => latest_entry(checkpoints@.take(i - 1), file@),
                },
            decreases j,
        {
            proof {
                assert(entries@.take(j as int).drop_last() =~= entries@.take(j - 1));
            }
            if entries[j - 1].file == *file {
                return Some(&entries[j - 1]);
            }
            j = j - 1;
        }
        i = i - 1;
    }
    None
}

/// The attributions that a working log holds for `file`: those of its latest
/// entry, or none.
pub open spec fn known_attributions(checkpoints: Seq<Checkpoint>, file: Seq<char>) -> Seq<
    Attribution,
> {
    match latest_entry(checkpoints, file) {
        Some(e) => e.attributions@,
        None => Seq::empty(),
    }
}

} // verus!
