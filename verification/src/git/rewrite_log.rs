//! The log of history-rewriting events.

use vstd::prelude::*;

use vstd::string::StringExecFns;

use crate::text::texts;
use crate::text::{
    chars_of, lines_of_text, part_views, string_from_chars, text_lines, trim, trimmed,
};
use crate::utils::now_secs;

verus! {

/// One event of the rewrite log. Each variant holds its record under the name
/// by which the record is told apart on the wire.
#[derive(Debug, Clone, PartialEq)]
pub enum RewriteLogEvent {
    Merge { merge: MergeEvent },
    MergeSquash { merge_squash: MergeSquashEvent },
    RebaseInteractive { rebase_interactive: RebaseInteractiveEvent },
    Rebase { rebase: RebaseEvent },
    CherryPick { cherry_pick: CherryPickEvent },
    RevertMixed { revert_mixed: RevertMixedEvent },
    ResetSoft { reset_soft: ResetSoftEvent },
    ResetHard { reset_hard: ResetHardEvent },
    CommitAmend { commit_amend: CommitAmendEvent },
    Commit { commit: CommitEvent },
    Stash { stash: StashEvent },
    AuthorshipLogsSynced { authorship_logs_synced: AuthorshipLogsSyncedEvent },
}

impl RewriteLogEvent {
    pub fn merge(source_branch: String, target_branch: String, merge_commit_sha: Option<String>, success: bool, conflicts: Vec<String>) -> (r: Self)
        ensures
            r == (RewriteLogEvent::Merge { merge: MergeEvent { source_branch, target_branch, merge_commit_sha, success, conflicts } }),
    {
        RewriteLogEvent::Merge { merge: MergeEvent::new(source_branch, target_branch, merge_commit_sha, success, conflicts) }
    }

    pub fn merge_squash(event: MergeSquashEvent) -> (r: Self)
        ensures
            r == (RewriteLogEvent::MergeSquash { merge_squash: event }),
    {
        RewriteLogEvent::MergeSquash { merge_squash: event }
    }

    pub fn rebase_interactive(event: RebaseInteractiveEvent) -> (r: Self)
        ensures
            r == (RewriteLogEvent::RebaseInteractive { rebase_interactive: event }),
    {
        RewriteLogEvent::RebaseInteractive { rebase_interactive: event }
    }

    pub fn rebase(event: RebaseEvent) -> (r: Self)
        ensures
            r == (RewriteLogEvent::Rebase { rebase: event }),
    {
        RewriteLogEvent::Rebase { rebase: event }
    }

    pub fn cherry_pick(event: CherryPickEvent) -> (r: Self)
        ensures
            r == (RewriteLogEvent::CherryPick { cherry_pick: event }),
    {
        RewriteLogEvent::CherryPick { cherry_pick: event }
    }

    pub fn revert_mixed(event: RevertMixedEvent) -> (r: Self)
        ensures
            r == (RewriteLogEvent::RevertMixed { revert_mixed: event }),
    {
        RewriteLogEvent::RevertMixed { revert_mixed: event }
    }

    pub fn reset_soft(event: ResetSoftEvent) -> (r: Self)
        ensures
            r == (RewriteLogEvent::ResetSoft { reset_soft: event }),
    {
        RewriteLogEvent::ResetSoft { reset_soft: event }
    }

    pub fn reset_hard(event: ResetHardEvent) -> (r: Self)
        ensures
            r == (RewriteLogEvent::ResetHard { reset_hard: event }),
    {
        RewriteLogEvent::ResetHard { reset_hard: event }
    }

    pub fn commit_amend(original_commit: String, amended_commit_sha: String) -> (r: Self)
        ensures
            r == (RewriteLogEvent::CommitAmend { commit_amend: CommitAmendEvent { original_commit, amended_commit_sha } }),
    {
        RewriteLogEvent::CommitAmend { commit_amend: CommitAmendEvent::new(original_commit, amended_commit_sha) }
    }

    pub fn commit(base_commit: Option<String>, commit_sha: String) -> (r: Self)
        ensures
            r == (RewriteLogEvent::Commit { commit: CommitEvent { base_commit, commit_sha } }),
    {
        RewriteLogEvent::Commit { commit: CommitEvent::new(base_commit, commit_sha) }
    }

    pub fn stash(event: StashEvent) -> (r: Self)
        ensures
            r == (RewriteLogEvent::Stash { stash: event }),
    {
        RewriteLogEvent::Stash { stash: event }
    }

    pub fn authorship_logs_synced(event: AuthorshipLogsSyncedEvent) -> (r: Self)
        ensures
            r == (RewriteLogEvent::AuthorshipLogsSynced { authorship_logs_synced: event }),
    {
        RewriteLogEvent::AuthorshipLogsSynced { authorship_logs_synced: event }
    }
}

/// A merge of one branch into another.
#[derive(Debug, Clone, PartialEq)]
pub struct MergeEvent {
    pub source_branch: String,
    pub target_branch: String,
    pub merge_commit_sha: Option<String>,
    pub success: bool,
    pub conflicts: Vec<String>,
}

impl MergeEvent {
    pub fn new(source_branch: String, target_branch: String, merge_commit_sha: Option<String>, success: bool, conflicts: Vec<String>) -> (r: Self)
        ensures
            r == (MergeEvent { source_branch, target_branch, merge_commit_sha, success, conflicts }),
    {
        MergeEvent { source_branch, target_branch, merge_commit_sha, success, conflicts }
    }
}

/// A squash merge: the commits of the source branch become one change on the base.
#[derive(Debug, Clone, PartialEq)]
pub struct MergeSquashEvent {
    pub source_branch: String,
    pub source_head: String,
    pub base_branch: String,
    pub base_head: String,
}

impl MergeSquashEvent {
    pub fn new(source_branch: String, source_head: String, base_branch: String, base_head: String) -> (r: Self)
        ensures
            r == (MergeSquashEvent { source_branch, source_head, base_branch, base_head }),
    {
        MergeSquashEvent { source_branch, source_head, base_branch, base_head }
    }
}

/// A step of an interactive rebase.
#[derive(Debug, Clone, PartialEq)]
pub struct RebaseInteractiveEvent {
    pub base_commit: String,
    pub commit_count: u32,
    pub state: RebaseState,
    pub original_commits: Vec<String>,
    pub new_commits: Vec<String>,
}

impl RebaseInteractiveEvent {
    pub fn new(base_commit: String, commit_count: u32, state: RebaseState, original_commits: Vec<String>, new_commits: Vec<String>) -> (r: Self)
        ensures
            r == (RebaseInteractiveEvent { base_commit, commit_count, state, original_commits, new_commits }),
    {
        RebaseInteractiveEvent { base_commit, commit_count, state, original_commits, new_commits }
    }
}

/// A step of a rebase.
#[derive(Debug, Clone, PartialEq)]
pub struct RebaseEvent {
    pub base_commit: String,
    pub state: RebaseState,
    pub commit_count: u32,
    pub current_commit: Option<String>,
    pub original_commits: Vec<String>,
    pub new_commits: Vec<String>,
}

impl RebaseEvent {
    pub fn new(base_commit: String, state: RebaseState, commit_count: u32, current_commit: Option<String>, original_commits: Vec<String>, new_commits: Vec<String>) -> (r: Self)
        ensures
            r == (RebaseEvent { base_commit, state, commit_count, current_commit, original_commits, new_commits }),
    {
        RebaseEvent { base_commit, state, commit_count, current_commit, original_commits, new_commits }
    }
}

/// A cherry-pick of one commit onto a branch.
#[derive(Debug, Clone, PartialEq)]
pub struct CherryPickEvent {
    pub source_commit: String,
    pub target_branch: String,
    pub new_commit_sha: Option<String>,
    pub success: bool,
    pub conflicts: Vec<String>,
}

impl CherryPickEvent {
    pub fn new(source_commit: String, target_branch: String, new_commit_sha: Option<String>, success: bool, conflicts: Vec<String>) -> (r: Self)
        ensures
            r == (CherryPickEvent { source_commit, target_branch, new_commit_sha, success, conflicts }),
    {
        CherryPickEvent { source_commit, target_branch, new_commit_sha, success, conflicts }
    }
}

/// A revert that left changes in the working tree.
#[derive(Debug, Clone, PartialEq)]
pub struct RevertMixedEvent {
    pub reverted_commit: String,
    pub success: bool,
    pub affected_files: Vec<String>,
}

impl RevertMixedEvent {
    pub fn new(reverted_commit: String, success: bool, affected_files: Vec<String>) -> (r: Self)
        ensures
            r == (RevertMixedEvent { reverted_commit, success, affected_files }),
    {
        RevertMixedEvent { reverted_commit, success, affected_files }
    }
}

/// A reset that kept the working tree.
#[derive(Debug, Clone, PartialEq)]
pub struct ResetSoftEvent {
    pub target_commit: String,
    pub previous_head: String,
    pub success: bool,
}

impl ResetSoftEvent {
    pub fn new(target_commit: String, previous_head: String, success: bool) -> (r: Self)
        ensures
            r == (ResetSoftEvent { target_commit, previous_head, success }),
    {
        ResetSoftEvent { target_commit, previous_head, success }
    }
}

/// A reset that discarded the working tree.
#[derive(Debug, Clone, PartialEq)]
pub struct ResetHardEvent {
    pub target_commit: String,
    pub previous_head: String,
    pub success: bool,
}

impl ResetHardEvent {
    pub fn new(target_commit: String, previous_head: String, success: bool) -> (r: Self)
        ensures
            r == (ResetHardEvent { target_commit, previous_head, success }),
    {
        ResetHardEvent { target_commit, previous_head, success }
    }
}

/// A commit that replaced the one before it.
#[derive(Debug, Clone, PartialEq)]
pub struct CommitAmendEvent {
    pub original_commit: String,
    pub amended_commit_sha: String,
}

impl CommitAmendEvent {
    pub fn new(original_commit: String, amended_commit_sha: String) -> (r: Self)
        ensures
            r == (CommitAmendEvent { original_commit, amended_commit_sha }),
    {
        CommitAmendEvent { original_commit, amended_commit_sha }
    }
}

/// A new commit on top of `base_commit`; none for the first commit of a repository.
#[derive(Debug, Clone, PartialEq)]
pub struct CommitEvent {
    pub base_commit: Option<String>,
    pub commit_sha: String,
}

impl CommitEvent {
    pub fn new(base_commit: Option<String>, commit_sha: String) -> (r: Self)
        ensures
            r == (CommitEvent { base_commit, commit_sha }),
    {
        CommitEvent { base_commit, commit_sha }
    }
}

/// An operation on the stash.
#[derive(Debug, Clone, PartialEq)]
pub struct StashEvent {
    pub operation: StashOperation,
    pub stash_ref: Option<String>,
    pub success: bool,
    pub affected_files: Vec<String>,
}

impl StashEvent {
    pub fn new(operation: StashOperation, stash_ref: Option<String>, success: bool, affected_files: Vec<String>) -> (r: Self)
        ensures
            r == (StashEvent { operation, stash_ref, success, affected_files }),
    {
        StashEvent { operation, stash_ref, success, affected_files }
    }
}

/// Authorship notes were exchanged with a remote, at `timestamp` seconds
/// since the Unix epoch.
#[derive(Debug, Clone, PartialEq)]
pub struct AuthorshipLogsSyncedEvent {
    pub synced: Vec<String>,
    pub origin: Vec<String>,
    pub timestamp: u64,
}

impl AuthorshipLogsSyncedEvent {
    /// The event, stamped with the time of the call.
    pub fn new(synced: Vec<String>, origin: Vec<String>) -> (r: Self)
        ensures
            r.synced == synced,
            r.origin == origin,
    {
        AuthorshipLogsSyncedEvent::at(synced, origin, now_secs())
    }

    /// The event, stamped with the given time in seconds since the Unix
    /// epoch.
    pub fn at(synced: Vec<String>, origin: Vec<String>, timestamp: u64) -> (r: Self)
        ensures
            r == (AuthorshipLogsSyncedEvent { synced, origin, timestamp }),
    {
        AuthorshipLogsSyncedEvent { synced, origin, timestamp }
    }
}

/// How far a rebase has come.
#[derive(Debug, Clone, PartialEq)]
pub enum RebaseState {
    Start,
    InProgress,
    Continue,
    Abort,
    Complete,
}

/// What was done to the stash.
#[derive(Debug, Clone, PartialEq)]
pub enum StashOperation {
    Create,
    Apply,
    Pop,
    Drop,
    List,
}

/// How many events the rewrite log keeps.
pub const MAX_EVENTS: usize = 200;

/// The first `MAX_EVENTS` items of `s`, or all of them where there are fewer.
pub open spec fn newest<T>(s: Seq<T>) -> Seq<T> {
    if s.len() > MAX_EVENTS {
        s.take(MAX_EVENTS as int)
    } else {
        s
    }
}

/// Keeps the newest events of a log that has its newest event first.
pub fn keep_newest(events: Vec<RewriteLogEvent>) -> (r: Vec<RewriteLogEvent>)
    ensures
        r@ == newest(events@),
{
    let ghost given = events@;
    let mut events = events;
    if events.len() > MAX_EVENTS {
        events.truncate(MAX_EVENTS);
        assert(events@ =~= newest(given));
    }
    events
}

/// Puts an event in front of a log and keeps the newest events.
pub fn prepend_event(existing: Vec<RewriteLogEvent>, new_event: RewriteLogEvent) -> (r: Vec<
    RewriteLogEvent,
>)
    ensures
        r@ == newest(seq![new_event] + existing@),
{
    let mut events = existing;
    events.insert(0, new_event);
    assert(events@ =~= seq![new_event] + existing@);
    keep_newest(events)
}

/// The lines that hold more than blanks, as they stand.
pub open spec fn records(lines: Seq<Seq<char>>) -> Seq<Seq<char>>
    decreases lines.len(),
{
    if lines.len() == 0 {
        Seq::empty()
    } else if trimmed(lines.last()).len() == 0 {
        records(lines.drop_last())
    } else {
        records(lines.drop_last()).push(lines.last())
    }
}

/// The records of a log that is kept one record to a line: its lines but for
/// the blank ones.
pub fn records_of_jsonl(jsonl: &str) -> (r: Vec<String>)
    ensures
        texts(r@) == records(text_lines(jsonl@)),
{
    let chars = chars_of(jsonl);
    let lines = lines_of_text(chars.as_slice());
    let ghost all = part_views(lines@);
    let mut out: Vec<String> = Vec::new();
    let mut i: usize = 0;
    assert(texts(out@) =~= Seq::<Seq<char>>::empty());
    while i < lines.len()
        invariant
            i <= lines@.len(),
            all == part_views(lines@),
            texts(out@) == records(all.take(i as int)),
        decreases lines@.len() - i,
    {
        proof {
            assert(all.take(i + 1).drop_last() =~= all.take(i as int));
            assert(all.take(i + 1).last() == lines@[i as int]@);
        }
        let kept = trim(lines[i].as_slice());
        if kept.len() > 0 {
            let ghost before = out@;
            out.push(string_from_chars(lines[i].as_slice()));
            assert(texts(out@) =~= texts(before).push(lines@[i as int]@));
        }
        i = i + 1;
    }
    assert(all.take(lines@.len() as int) =~= all);
    out
}

/// The texts with a line feed between each two.
pub open spec fn joined(lines: Seq<Seq<char>>) -> Seq<char>
    decreases lines.len(),
{
    if lines.len() == 0 {
        Seq::empty()
    } else if lines.len() == 1 {
        lines[0]
    } else {
        joined(lines.drop_last()) + seq!['\n'] + lines.last()
    }
}

/// Joins records into the text of a log.
pub fn join_records(lines: &Vec<String>) -> (r: String)
    ensures
        r@ == joined(texts(lines@)),
{
    let ghost all = texts(lines@);
    let mut out = String::new();
    let mut i: usize = 0;
    assert(all.take(0) =~= Seq::<Seq<char>>::empty());
    while i < lines.len()
        invariant
            i <= lines@.len(),
            all == texts(lines@),
            out@ == joined(all.take(i as int)),
        decreases lines@.len() - i,
    {
        proof {
            assert(all.take(i + 1).drop_last() =~= all.take(i as int));
            assert(all.take(i + 1).last() == lines@[i as int]@);
            reveal_strlit("\n");
            assert("\n"@ =~= seq!['\n']);
        }
        if i > 0 {
            out.append("\n");
        }
        out.append(lines[i].as_str());
        proof {
            if i == 0 {
                assert(all.take(1)[0] == lines@[0]@);
                assert(out@ =~= lines@[0]@);
            }
        }
        i = i + 1;
    }
    assert(all.take(lines@.len() as int) =~= all);
    out
}

/// What the file of the rewrite log holds once `new_record` is appended. A
/// log that did not exist or was blank holds the record and a line feed;
/// else the record stands before the records that were there, the newest
/// `MAX_EVENTS` are kept, and a line feed stands between each two.
pub open spec fn log_content(new_record: Seq<char>, existing: Option<Seq<Seq<char>>>) -> Seq<char> {
    match existing {
        None => new_record + seq!['\n'],
        Some(records) => joined(newest(seq![new_record] + records)),
    }
}

/// The content of the file of the rewrite log after `new_record` is
/// appended. `existing` holds the records of the events that the log held,
/// newest first; none where the file did not exist or was blank.
pub fn append_event_to_log(new_record: &str, existing: Option<&Vec<String>>) -> (r: String)
    ensures
        r@ == log_content(
            new_record@,
            match existing {
                Some(records) => Some(texts(records@)),
                None => None,
            },
        ),
{
    match existing {
        None => {
            let mut out = new_record.to_owned();
            proof {
                reveal_strlit("\n");
                assert("\n"@ =~= seq!['\n']);
            }
            out.append("\n");
            out
        },
        Some(records) => {
            let mut lines: Vec<String> = Vec::new();
            lines.push(new_record.to_owned());
            let ghost all = seq![new_record@] + texts(records@);
            let mut i: usize = 0;
            assert(texts(lines@) =~= all.take(1));
            while i < records.len() && lines.len() < MAX_EVENTS
                invariant
                    i <= records@.len(),
                    lines@.len() == i + 1,
                    lines@.len() <= MAX_EVENTS,
                    all == seq![new_record@] + texts(records@),
                    texts(lines@) == all.take(i + 1),
                decreases records@.len() - i,
            {
                let ghost before = lines@;
                lines.push(records[i].clone());
                assert(texts(lines@) =~= texts(before).push(records@[i as int]@));
                assert(all.take(i + 2) =~= all.take(i + 1).push(records@[i as int]@));
                i = i + 1;
            }
            assert(texts(lines@) =~= newest(all)) by {
                if i == records@.len() {
                    assert(all.take(i + 1) =~= all);
                }
            }
            join_records(&lines)
        },
    }
}

} // verus!
