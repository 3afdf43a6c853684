//! What the hooks of one git invocation remember between them, and what a
//! rewrite event asks of the authorship notes.

use vstd::prelude::*;

use crate::git::rewrite_log::RewriteLogEvent;

verus! {

/// What the hooks that run before git hand to the hooks that run after it.
pub struct CommandHooksContext {
    pub pre_commit_hook_result: Option<bool>,
    pub rebase_original_head: Option<String>,
    pub _rebase_onto: Option<String>,
}

/// What a rewrite event asks of the authorship notes.
#[derive(Debug, PartialEq)]
pub enum RewritePlan {
    /// Publish the log of a new commit on top of `base_commit`. Where
    /// `squashed` names a commit, the new commit holds a squash merge of the
    /// commits up to that one, and takes their notes under its own.
    Publish { base_commit: Option<String>, commit_sha: String, squashed: Option<String> },
    /// Publish the log of a commit that amends another, over the note of
    /// the commit that was amended.
    Amend { original_commit: String, amended_commit_sha: String },
    /// Carry the note of each commit that was left behind over to the commit
    /// that took its place, pair by pair.
    CarryOver { original_commits: Vec<String>, new_commits: Vec<String> },
    /// Leave the notes as they are.
    Nothing,
}

/// A plan as plain values.
pub enum RewritePlanView {
    Publish { base_commit: Option<String>, commit_sha: String, squashed: Option<String> },
    Amend { original_commit: String, amended_commit_sha: String },
    CarryOver { original_commits: Seq<String>, new_commits: Seq<String> },
    Nothing,
}

impl View for RewritePlan {
    type V = RewritePlanView;

    open spec fn view(&self) -> RewritePlanView {
        match *self {
            RewritePlan::Publish { base_commit, commit_sha, squashed } => RewritePlanView::Publish {
                base_commit,
                commit_sha,
                squashed,
            },
            RewritePlan::Amend { original_commit, amended_commit_sha } => RewritePlanView::Amend {
                original_commit,
                amended_commit_sha,
            },
            RewritePlan::CarryOver { original_commits, new_commits } => RewritePlanView::CarryOver {
                original_commits: original_commits@,
                new_commits: new_commits@,
            },
            RewritePlan::Nothing => RewritePlanView::Nothing,
        }
    }
}

/// The head of the branch whose squash merge a commit on top of
/// `base_commit` holds: that of the event before the commit, where that
/// event is a squash merge into `base_commit`.
pub open spec fn squashed_head(earlier: Seq<RewriteLogEvent>, base_commit: Option<String>) -> Option<
    String,
> {
    if earlier.len() == 0 {
        None
    } else {
        match (earlier[0], base_commit) {
            (RewriteLogEvent::MergeSquash { merge_squash }, Some(base)) => if merge_squash.base_head@
                == base@ {
                Some(merge_squash.source_head)
            } else {
                None
            },
            _ => None,
        }
    }
}

/// What `event` asks of the notes; `earlier` holds the events before it,
/// the newest first. A commit is published, as is an amendment. A rebase,
/// plain or interactive, and a cherry-pick that made a commit carry notes
/// over. Every other event leaves the notes alone: a merge and a reset move
/// no line from one commit to another.
pub open spec fn plan_for(event: RewriteLogEvent, earlier: Seq<RewriteLogEvent>) -> RewritePlanView {
    match event {
        RewriteLogEvent::Commit { commit } => RewritePlanView::Publish {
            base_commit: commit.base_commit,
            commit_sha: commit.commit_sha,
            squashed: squashed_head(earlier, commit.base_commit),
        },
        RewriteLogEvent::CommitAmend { commit_amend } => RewritePlanView::Amend {
            original_commit: commit_amend.original_commit,
            amended_commit_sha: commit_amend.amended_commit_sha,
        },
        RewriteLogEvent::Rebase { rebase } => RewritePlanView::CarryOver {
            original_commits: rebase.original_commits@,
            new_commits: rebase.new_commits@,
        },
        RewriteLogEvent::RebaseInteractive { rebase_interactive } => RewritePlanView::CarryOver {
            original_commits: rebase_interactive.original_commits@,
            new_commits: rebase_interactive.new_commits@,
        },
        RewriteLogEvent::CherryPick { cherry_pick } => match cherry_pick.new_commit_sha {
            Some(new_commit) => RewritePlanView::CarryOver {
                original_commits: seq![cherry_pick.source_commit],
                new_commits: seq![new_commit],
            },
            None => RewritePlanView::Nothing,
        },
        _ => RewritePlanView::Nothing,
    }
}

fn find_squashed_head(earlier: &Vec<RewriteLogEvent>, base_commit: &Option<String>) -> (r: Option<
    String,
>)
    ensures
        r == squashed_head(earlier@, *base_commit),
{
    if earlier.len() == 0 {
        return None;
    }
    match (&earlier[0], base_commit) {
        (RewriteLogEvent::MergeSquash { merge_squash }, Some(base)) => {
            if merge_squash.base_head == *base {
                Some(merge_squash.source_head.clone())
            } else {
                None
            }
        },
        _ => None,
    }
}

/// Decides what `event` asks of the notes; `earlier` holds the events of
/// the rewrite log before it, the newest first.
pub fn rewrite_plan(event: RewriteLogEvent, earlier: &Vec<RewriteLogEvent>) -> (r: RewritePlan)
    ensures
        r@ == plan_for(event, earlier@),
{
    match event {
        RewriteLogEvent::Commit { commit } => {
            let squashed = find_squashed_head(earlier, &commit.base_commit);
            RewritePlan::Publish {
                base_commit: commit.base_commit,
                commit_sha: commit.commit_sha,
                squashed,
            }
        },
        RewriteLogEvent::CommitAmend { commit_amend } => RewritePlan::Amend {
            original_commit: commit_amend.original_commit,
            amended_commit_sha: commit_amend.amended_commit_sha,
        },
        RewriteLogEvent::Rebase { rebase } => RewritePlan::CarryOver {
            original_commits: rebase.original_commits,
            new_commits: rebase.new_commits,
        },
        RewriteLogEvent::RebaseInteractive { rebase_interactive } => RewritePlan::CarryOver {
            original_commits: rebase_interactive.original_commits,
            new_commits: rebase_interactive.new_commits,
        },
        RewriteLogEvent::CherryPick { cherry_pick } => match cherry_pick.new_commit_sha {
            Some(new_commit) => {
                let mut original_commits: Vec<String> = Vec::new();
                original_commits.push(cherry_pick.source_commit);
                let mut new_commits: Vec<String> = Vec::new();
                new_commits.push(new_commit);
                assert(original_commits@ =~= seq![cherry_pick.source_commit]);
                assert(new_commits@ =~= seq![new_commit]);
                RewritePlan::CarryOver { original_commits, new_commits }
            },
            None => RewritePlan::Nothing,
        },
        _ => RewritePlan::Nothing,
    }
}

} // verus!
