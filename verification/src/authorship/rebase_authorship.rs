//! What becomes of authorship when history is rewritten.

use vstd::prelude::*;
use vstd::string::StringSliceAdditionalSpecFns;
use vstd::utf8::encode_utf8;

use crate::authorship::attribution_tracker::{
    byte_attributions, line_attributions_to_attributions, views, LineAttribution,
};
use crate::authorship::authorship_log::{
    all_lines, compress, expand_all, keep_lines_within, lines_within, LineRange,
};
use crate::authorship::authorship_log_serialization::{
    attested_prompts,
    clone_prompts,
    file_views,
    files_committed,
    find_hunks,
    hunk_views,
    hunks_get,
    overlaid,
    AttestationEntry,
    AuthorshipLog,
    AuthorshipLogView,
    AuthorshipMetadata,
    FileAttestation,
    FileAttestationView,
    Hunks,
    LineRewrite,
    Rewrite,
};
use crate::authorship::transcript::AiTranscript;
use crate::authorship::working_log::{clone_entries, CheckpointKind, CheckpointLineStats};
use crate::commands::checkpoint::content_hash;
use crate::text::line_bounds;
use crate::utils::sha256_hex;
use crate::authorship::edit_script::{capture_line_diff, split_lines, EditOp};
use crate::authorship::working_log::{
    checkpoint_views, entry_views, Checkpoint, CheckpointView, WorkingLogEntry, WorkingLogEntryView,
};
use crate::commands::checkpoint::line_script;
use crate::text::texts;
use crate::text::{chars_of, compute_line_bounds, starts_with};

verus! {

/// A file before and after a commit was rewritten.
pub struct FileVersions {
    pub path: String,
    /// What the file reads in the commit that was rewritten.
    pub source_content: String,
    /// What the file reads in the commit that took its place.
    pub new_content: String,
}

/// The versions of `file` among `versions`: those of the last item with this
/// path.
pub open spec fn versions_of(versions: Seq<FileVersions>, file: Seq<char>) -> Option<FileVersions>
    decreases versions.len(),
{
    if versions.len() == 0 {
        None
    } else if versions.last().path@ == file {
        Some(versions.last())
    } else {
        versions_of(versions.drop_last(), file)
    }
}

fn find_versions<'a>(versions: &'a Vec<FileVersions>, file: &String) -> (r: Option<
    &'a FileVersions,
>)
    ensures
        match r {
            Some(v) => versions_of(versions@, file@) == Some(*v),
            None => versions_of(versions@, file@) is None,
        },
{
    let mut i: usize = versions.len();
    assert(versions@.take(i as int) =~= versions@);
    while i > 0
        invariant
            i <= versions@.len(),
            versions_of(versions@, file@) == versions_of(versions@.take(i as int), file@),
        decreases i,
    {
        proof {
            assert(versions@.take(i as int).drop_last() =~= versions@.take(i - 1));
        }
        if versions[i - 1].path == *file {
            return Some(&versions[i - 1]);
        }
        i = i - 1;
    }
    None
}

/// The attestations of a commit that took the place of another. The lines of
/// a file follow the comparison of its two versions, line by line: a line
/// that is kept moves to its new place, any other is gone. A file that the
/// new commit lacks, an entry without lines and a file without entries are
/// dropped.
pub open spec fn files_rebased(files: Seq<FileAttestationView>, versions: Seq<FileVersions>) -> Seq<
    FileAttestationView,
>
    decreases files.len(),
{
    if files.len() == 0 {
        Seq::empty()
    } else {
        let f = files.last();
        let entries = match versions_of(versions, f.file_path) {
            Some(v) => LineRewrite::Along(
                line_script(encode_utf8(v.source_content@), encode_utf8(v.new_content@)),
            ).entries(f.entries),
            None => Seq::empty(),
        };
        if entries.len() == 0 {
            files_rebased(files.drop_last(), versions)
        } else {
            files_rebased(files.drop_last(), versions).push(
                FileAttestationView { file_path: f.file_path, entries },
            )
        }
    }
}

/// The authorship log of a commit that took the place of another: the
/// attestations follow the files, and a prompt stays where its session still
/// has lines.
pub open spec fn rebased_log(source: AuthorshipLogView, versions: Seq<FileVersions>) -> AuthorshipLogView {
    AuthorshipLogView {
        attestations: files_rebased(source.attestations, versions),
        prompts: attested_prompts(source.prompts, files_rebased(source.attestations, versions)),
        ..source
    }
}

/// Whether two lists of file versions read the same, item by item.
pub open spec fn same_versions(first: Seq<FileVersions>, second: Seq<FileVersions>) -> bool {
    first.len() == second.len() && forall|i: int|
        0 <= i < first.len() ==> (#[trigger] first[i]).path@ == second[i].path@
            && first[i].source_content@ == second[i].source_content@ && first[i].new_content@
            == second[i].new_content@
}

proof fn lemma_versions_of_same(first: Seq<FileVersions>, second: Seq<FileVersions>, file: Seq<char>)
    requires
        same_versions(first, second),
    ensures
        match (versions_of(first, file), versions_of(second, file)) {
            (Some(x), Some(y)) => x.source_content@ == y.source_content@ && x.new_content@
                == y.new_content@,
            (None, None) => true,
            _ => false,
        },
    decreases first.len(),
{
    if first.len() > 0 {
        assert(first.last().path@ == second.last().path@) by {
            assert(first[first.len() - 1].path@ == second[first.len() - 1].path@);
        }
        if first.last().path@ != file {
            assert(same_versions(first.drop_last(), second.drop_last())) by {
                assert forall|i: int| 0 <= i < first.len() - 1 implies (#[trigger] first.drop_last()[i])
                    == first[i] && second.drop_last()[i] == second[i] by {}
            }
            lemma_versions_of_same(first.drop_last(), second.drop_last(), file);
        }
    }
}

proof fn lemma_files_rebased_same(
    files: Seq<FileAttestationView>,
    first: Seq<FileVersions>,
    second: Seq<FileVersions>,
)
    requires
        same_versions(first, second),
    ensures
        files_rebased(files, first) == files_rebased(files, second),
    decreases files.len(),
{
    if files.len() > 0 {
        lemma_files_rebased_same(files.drop_last(), first, second);
        lemma_versions_of_same(first, second, files.last().file_path);
    }
}

/// A rewrite is repeatable: the log that it leaves on the new commit is
/// fixed by the log of the commit that was rewritten and by what the files
/// read. Run again on versions that read the same, it leaves the same log.
pub proof fn lemma_rewrite_is_repeatable(
    source: AuthorshipLogView,
    first: Seq<FileVersions>,
    second: Seq<FileVersions>,
)
    requires
        same_versions(first, second),
    ensures
        rebased_log(source, first) == rebased_log(source, second),
{
    lemma_files_rebased_same(source.attestations, first, second);
}

/// The script over lines that leads from one content to another.
pub fn compare_lines(source: &str, new: &str) -> (r: Vec<EditOp>)
    ensures
        r@ == line_script(source.spec_bytes(), new.spec_bytes()),
{
    let old_bytes = source.as_bytes();
    let new_bytes = new.as_bytes();
    let old_bounds = compute_line_bounds(old_bytes);
    let new_bounds = compute_line_bounds(new_bytes);
    let old_lines = split_lines(old_bytes, &old_bounds);
    let new_lines = split_lines(new_bytes, &new_bounds);
    capture_line_diff(&old_lines, &new_lines)
}

/// The authorship log of a commit that took the place of `source_log`'s
/// commit in a rebase or cherry-pick. `versions` holds, for each file of the
/// new commit that the log speaks of, what the file read before and what it
/// reads now. Base commit, author and prompts are those of the source, but
/// only the prompts of sessions that still have lines.
pub fn rewrite_authorship_after_rebase(source_log: &AuthorshipLog, versions: &Vec<FileVersions>) -> (r:
    AuthorshipLog)
    ensures
        r@ == rebased_log(source_log@, versions@),
{
    let ghost views = file_views(source_log.attestations@);
    let mut out: Vec<FileAttestation> = Vec::new();
    let mut i: usize = 0;
    assert(file_views(out@) =~= Seq::<FileAttestationView>::empty());
    while i < source_log.attestations.len()
        invariant
            i <= source_log.attestations@.len(),
            views == file_views(source_log.attestations@),
            file_views(out@) == files_rebased(views.take(i as int), versions@),
        decreases source_log.attestations@.len() - i,
    {
        proof {
            assert(views.take(i + 1).drop_last() =~= views.take(i as int));
            assert(views.take(i + 1).last() == source_log.attestations@[i as int]@);
        }
        let file = &source_log.attestations[i];
        let entries = match find_versions(versions, &file.file_path) {
            Some(v) => {
                let ops = compare_lines(v.source_content.as_str(), v.new_content.as_str());
                Rewrite::Along(&ops).entries(&file.entries)
            },
            None => Vec::new(),
        };
        if entries.len() > 0 {
            let ghost before = out@;
            let f = FileAttestation { file_path: file.file_path.clone(), entries };
            out.push(f);
            assert(file_views(out@) =~= file_views(before).push(f@));
        }
        i = i + 1;
    }
    assert(views.take(source_log.attestations@.len() as int) =~= views);
    let prompts = clone_prompts(&source_log.metadata.prompts);
    let mut log = AuthorshipLog {
        attestations: out,
        metadata: AuthorshipMetadata {
            base_commit_sha: source_log.metadata.base_commit_sha.clone(),
            human_author: source_log.metadata.human_author.clone(),
            prompts,
        },
    };
    assert(log@.prompts =~= source_log@.prompts);
    log.retain_attested_prompts();
    log
}

/// Whether `file` falls under one of the pathspecs: it begins with one.
pub open spec fn under_pathspec(file: Seq<char>, pathspecs: Seq<Seq<char>>) -> bool {
    exists|i: int| 0 <= i < pathspecs.len() && (#[trigger] pathspecs[i]).is_prefix_of(file)
}

pub fn matches_pathspec(file: &str, pathspecs: &Vec<String>) -> (r: bool)
    ensures
        r == under_pathspec(file@, texts(pathspecs@)),
{
    let chars = chars_of(file);
    let mut i: usize = 0;
    while i < pathspecs.len()
        invariant
            i <= pathspecs@.len(),
            chars@ == file@,
            forall|k: int|
                0 <= k < i ==> !(#[trigger] texts(pathspecs@)[k]).is_prefix_of(file@),
        decreases pathspecs@.len() - i,
    {
        let spec_chars = chars_of(pathspecs[i].as_str());
        assert(texts(pathspecs@)[i as int] == spec_chars@);
        if starts_with(chars.as_slice(), spec_chars.as_slice()) {
            return true;
        }
        i = i + 1;
    }
    false
}

/// The entries whose file falls under the pathspecs, or, with `under` false,
/// those whose file does not.
pub open spec fn selected_entries(
    entries: Seq<WorkingLogEntry>,
    pathspecs: Seq<Seq<char>>,
    under: bool,
) -> Seq<WorkingLogEntryView>
    decreases entries.len(),
{
    if entries.len() == 0 {
        Seq::empty()
    } else if under_pathspec(entries.last().file@, pathspecs) == under {
        selected_entries(entries.drop_last(), pathspecs, under).push(entries.last()@)
    } else {
        selected_entries(entries.drop_last(), pathspecs, under)
    }
}

/// The checkpoints with only the selected entries; a checkpoint without one
/// is left out.
pub open spec fn selected_checkpoints(
    checkpoints: Seq<Checkpoint>,
    pathspecs: Seq<Seq<char>>,
    under: bool,
) -> Seq<CheckpointView>
    decreases checkpoints.len(),
{
    if checkpoints.len() == 0 {
        Seq::empty()
    } else {
        let before = selected_checkpoints(checkpoints.drop_last(), pathspecs, under);
        let entries = selected_entries(checkpoints.last().entries@, pathspecs, under);
        if entries.len() == 0 {
            before
        } else {
            before.push(CheckpointView { entries, ..checkpoints.last()@ })
        }
    }
}

fn push_selected(
    out: &mut Vec<Checkpoint>,
    checkpoints: &Vec<Checkpoint>,
    pathspecs: &Vec<String>,
    under: bool,
)
    ensures
        checkpoint_views(final(out)@) == checkpoint_views(old(out)@) + selected_checkpoints(
            checkpoints@,
            texts(pathspecs@),
            under,
        ),
{
    let ghost start = checkpoint_views(out@);
    let ghost specs = texts(pathspecs@);
    let mut i: usize = 0;
    assert(checkpoint_views(out@) =~= start + Seq::<CheckpointView>::empty());
    while i < checkpoints.len()
        invariant
            i <= checkpoints@.len(),
            specs == texts(pathspecs@),
            checkpoint_views(out@) == start + selected_checkpoints(
                checkpoints@.take(i as int),
                specs,
                under,
            ),
        decreases checkpoints@.len() - i,
    {
        proof {
            assert(checkpoints@.take(i + 1).drop_last() =~= checkpoints@.take(i as int));
        }
        let checkpoint = &checkpoints[i];
        let mut entries: Vec<WorkingLogEntry> = Vec::new();
        let mut j: usize = 0;
        assert(entry_views(entries@) =~= Seq::<WorkingLogEntryView>::empty());
        while j < checkpoint.entries.len()
            invariant
                j <= checkpoint.entries@.len(),
                specs == texts(pathspecs@),
                entry_views(entries@) == selected_entries(
                    checkpoint.entries@.take(j as int),
                    specs,
                    under,
                ),
            decreases checkpoint.entries@.len() - j,
        {
            proof {
                assert(checkpoint.entries@.take(j + 1).drop_last() =~= checkpoint.entries@.take(
                    j as int,
                ));
            }
            if matches_pathspec(checkpoint.entries[j].file.as_str(), pathspecs) == under {
                let ghost before = entries@;
                let e = checkpoint.entries[j].clone();
                entries.push(e);
                assert(entry_views(entries@) =~= entry_views(before).push(e@));
            }
            j = j + 1;
        }
        assert(checkpoint.entries@.take(checkpoint.entries@.len() as int) =~= checkpoint.entries@);
        if entries.len() > 0 {
            let ghost before = out@;
            let mut kept = checkpoint.clone();
            kept.entries = entries;
            out.push(kept);
            assert(checkpoint_views(out@) =~= checkpoint_views(before).push(kept@));
        }
        i = i + 1;
    }
    assert(checkpoints@.take(checkpoints@.len() as int) =~= checkpoints@);
}

/// The working log after a reset of some paths only: what the working log
/// held of other paths, followed by what the working log that was built for
/// the target of the reset holds of the paths that were reset.
pub fn merge_pathspec_reset(
    existing: &Vec<Checkpoint>,
    rebuilt: &Vec<Checkpoint>,
    pathspecs: &Vec<String>,
) -> (r: Vec<Checkpoint>)
    ensures
        checkpoint_views(r@) == selected_checkpoints(existing@, texts(pathspecs@), false)
            + selected_checkpoints(rebuilt@, texts(pathspecs@), true),
{
    let mut out: Vec<Checkpoint> = Vec::new();
    assert(checkpoint_views(out@) =~= Seq::<CheckpointView>::empty());
    push_selected(&mut out, existing, pathspecs, false);
    push_selected(&mut out, rebuilt, pathspecs, true);
    out
}

/// A file of the commit that a reset has left behind.
pub struct ResetFile {
    pub path: String,
    /// What the file reads in that commit, which a reset that keeps the
    /// working tree leaves in place.
    pub content: String,
}

/// What the log attests of `path`: the entries of the last attestation of
/// this file; none where there is no such attestation.
pub open spec fn entries_of(files: Seq<FileAttestation>, path: Seq<char>) -> Seq<AttestationEntry>
    decreases files.len(),
{
    if files.len() == 0 {
        Seq::empty()
    } else if files.last().file_path@ == path {
        files.last().entries@
    } else {
        entries_of(files.drop_last(), path)
    }
}

/// The runs as line attributions of the author `hash`.
pub open spec fn runs_as_lines(ranges: Seq<LineRange>, hash: String) -> Seq<LineAttribution> {
    ranges.map_values(
        |r: LineRange|
            LineAttribution {
                start_line: r.first() as u32,
                end_line: r.last() as u32,
                author_id: hash,
            },
    )
}

/// The lines among `added` that the entries attest, entry by entry, as line
/// attributions.
pub open spec fn attested_added(entries: Seq<AttestationEntry>, added: Seq<LineRange>) -> Seq<
    LineAttribution,
>
    decreases entries.len(),
{
    if entries.len() == 0 {
        Seq::empty()
    } else {
        attested_added(entries.drop_last(), added) + runs_as_lines(
            compress(lines_within(all_lines(entries.last().line_ranges@), added)),
            entries.last().hash,
        )
    }
}

/// The lines that a commit has added to `path`; none where it has added
/// none.
pub open spec fn added_to(added: Seq<(Seq<char>, Seq<LineRange>)>, path: Seq<char>) -> Seq<
    LineRange,
> {
    match hunks_get(added, path) {
        Some(ranges) => ranges,
        None => Seq::empty(),
    }
}

/// `entry` records, for a commit that a reset has left behind, what the
/// commit attests of the lines that it has added to `file`: the lines by
/// author, and the bytes of these lines in the working tree, all at time
/// `ts`.
pub open spec fn reset_entry(
    file: ResetFile,
    log_files: Seq<FileAttestation>,
    added: Seq<(Seq<char>, Seq<LineRange>)>,
    ts: int,
    entry: WorkingLogEntryView,
) -> bool {
    &&& entry.file == file.path@
    &&& entry.blob_sha == sha256_hex(encode_utf8(file.content@))
    &&& entry.line_attributions == attested_added(
        entries_of(log_files, file.path@),
        added_to(added, file.path@),
    )
    &&& views(entry.attributions) == byte_attributions(
        entry.line_attributions,
        line_bounds(encode_utf8(file.content@)),
        ts,
    )
}

/// `entries` are what a commit that a reset has left behind says of `files`:
/// one entry for each file with attested lines among those that the commit
/// has added, in the order of the files.
pub open spec fn reset_entries(
    files: Seq<ResetFile>,
    log_files: Seq<FileAttestation>,
    added: Seq<(Seq<char>, Seq<LineRange>)>,
    ts: int,
    entries: Seq<WorkingLogEntryView>,
) -> bool
    decreases files.len(),
{
    if files.len() == 0 {
        entries.len() == 0
    } else if attested_added(
        entries_of(log_files, files.last().path@),
        added_to(added, files.last().path@),
    ).len() == 0 {
        reset_entries(files.drop_last(), log_files, added, ts, entries)
    } else {
        entries.len() > 0 && reset_entries(
            files.drop_last(),
            log_files,
            added,
            ts,
            entries.drop_last(),
        ) && reset_entry(files.last(), log_files, added, ts, entries.last())
    }
}

pub(crate) fn find_entries<'a>(files: &'a Vec<FileAttestation>, path: &String, none: &'a Vec<AttestationEntry>) -> (r:
    &'a Vec<AttestationEntry>)
    requires
        none@.len() == 0,
    ensures
        r@ == entries_of(files@, path@),
{
    let mut i: usize = files.len();
    assert(files@.take(i as int) =~= files@);
    while i > 0
        invariant
            i <= files@.len(),
            entries_of(files@, path@) == entries_of(files@.take(i as int), path@),
        decreases i,
    {
        proof {
            assert(files@.take(i as int).drop_last() =~= files@.take(i - 1));
        }
        if files[i - 1].file_path == *path {
            return &files[i - 1].entries;
        }
        i = i - 1;
    }
    assert(none@ =~= Seq::<AttestationEntry>::empty());
    none
}

fn lines_attested(entries: &Vec<AttestationEntry>, added: &Vec<LineRange>) -> (r: Vec<
    LineAttribution,
>)
    ensures
        r@ == attested_added(entries@, added@),
{
    let mut out: Vec<LineAttribution> = Vec::new();
    let mut i: usize = 0;
    while i < entries.len()
        invariant
            i <= entries@.len(),
            out@ == attested_added(entries@.take(i as int), added@),
        decreases entries@.len() - i,
    {
        proof {
            assert(entries@.take(i + 1).drop_last() =~= entries@.take(i as int));
        }
        let lines = expand_all(&entries[i].line_ranges);
        let inside = keep_lines_within(&lines, added);
        let runs = LineRange::compress_lines(inside.as_slice());
        let ghost start = out@;
        let ghost target = runs_as_lines(runs@, entries@[i as int].hash);
        let mut k: usize = 0;
        while k < runs.len()
            invariant
                k <= runs@.len(),
                i < entries@.len(),
                target == runs_as_lines(runs@, entries@[i as int].hash),
                out@ == start + target.take(k as int),
            decreases runs@.len() - k,
        {
            let x = LineAttribution::new(runs[k].start(), runs[k].end(), entries[i].hash.clone());
            out.push(x);
            assert(target.take(k + 1) =~= target.take(k as int).push(x));
            k = k + 1;
        }
        assert(target.take(runs@.len() as int) =~= target);
        i = i + 1;
    }
    assert(entries@.take(entries@.len() as int) =~= entries@);
    out
}

/// The checkpoints that stand for a commit that a reset has left behind, so
/// that its lines are uncommitted work again: one checkpoint for each agent
/// session of the commit's authorship log, each with the entries that say
/// what the commit attests of the lines it has added. There is none where
/// the commit attests nothing of these lines. Such a checkpoint has no
/// snapshot hash and counts no lines.
pub fn reconstruct_working_log_after_reset(
    authorship_log: &AuthorshipLog,
    added_hunks: &Hunks,
    files: &Vec<ResetFile>,
    human_author: &str,
    ts: u128,
) -> (r: Vec<Checkpoint>)
    ensures
        r@.len() == 0 || r@.len() == authorship_log.metadata.prompts@.len(),
        r@.len() == 0 ==> authorship_log.metadata.prompts@.len() == 0 || reset_entries(
            files@,
            authorship_log.attestations@,
            hunk_views(added_hunks@),
            ts as int,
            Seq::empty(),
        ),
        forall|k: int|
            0 <= k < r@.len() ==> {
                &&& (#[trigger] r@[k]).kind == CheckpointKind::AiAgent
                &&& r@[k].author@ == human_author@
                &&& r@[k].timestamp == ts
                &&& r@[k].snapshot@.len() == 0
                &&& r@[k].line_stats == CheckpointLineStats::zero()
                &&& r@[k].agent_id == Some(authorship_log.metadata.prompts@[k].1.agent_id)
                &&& r@[k].transcript matches Some(t) && t@
                    == authorship_log.metadata.prompts@[k].1.messages@
                &&& r@[k].entries@.len() > 0
                &&& reset_entries(
                    files@,
                    authorship_log.attestations@,
                    hunk_views(added_hunks@),
                    ts as int,
                    entry_views(r@[k].entries@),
                )
            },
{
    let none: Vec<AttestationEntry> = Vec::new();
    let no_lines: Vec<LineRange> = Vec::new();
    let ghost added = hunk_views(added_hunks@);
    let mut entries: Vec<WorkingLogEntry> = Vec::new();
    let mut i: usize = 0;
    assert(entry_views(entries@) =~= Seq::<WorkingLogEntryView>::empty());
    while i < files.len()
        invariant
            i <= files@.len(),
            none@.len() == 0,
            no_lines@.len() == 0,
            added == hunk_views(added_hunks@),
            reset_entries(
                files@.take(i as int),
                authorship_log.attestations@,
                added,
                ts as int,
                entry_views(entries@),
            ),
        decreases files@.len() - i,
    {
        proof {
            assert(files@.take(i + 1).drop_last() =~= files@.take(i as int));
        }
        let file = &files[i];
        let attested = find_entries(&authorship_log.attestations, &file.path, &none);
        let ranges: &Vec<LineRange> = match find_hunks(added_hunks, &file.path) {
            Some(ranges) => ranges,
            None => &no_lines,
        };
        assert(ranges@ =~= added_to(added, file.path@));
        let line_attributions = lines_attested(attested, ranges);
        if line_attributions.len() > 0 {
            let attributions = line_attributions_to_attributions(
                &line_attributions,
                file.content.as_str(),
                ts,
            );
            let ghost before = entries@;
            let e = WorkingLogEntry::new(
                file.path.clone(),
                content_hash(file.content.as_str()),
                attributions,
                line_attributions,
            );
            entries.push(e);
            proof {
                assert(entry_views(entries@) =~= entry_views(before).push(e@));
                assert(entry_views(entries@).drop_last() =~= entry_views(before));
            }
        }
        i = i + 1;
    }
    assert(files@.take(files@.len() as int) =~= files@);
    let mut out: Vec<Checkpoint> = Vec::new();
    if entries.len() == 0 {
        assert(entry_views(entries@) =~= Seq::<WorkingLogEntryView>::empty());
        return out;
    }
    let mut k: usize = 0;
    while k < authorship_log.metadata.prompts.len()
        invariant
            k <= authorship_log.metadata.prompts@.len(),
            out@.len() == k,
            entries@.len() > 0,
            reset_entries(
                files@,
                authorship_log.attestations@,
                hunk_views(added_hunks@),
                ts as int,
                entry_views(entries@),
            ),
            forall|j: int|
                0 <= j < k ==> {
                    &&& (#[trigger] out@[j]).kind == CheckpointKind::AiAgent
                    &&& out@[j].author@ == human_author@
                    &&& out@[j].timestamp == ts
                    &&& out@[j].snapshot@.len() == 0
                    &&& out@[j].line_stats == CheckpointLineStats::zero()
                    &&& out@[j].agent_id == Some(authorship_log.metadata.prompts@[j].1.agent_id)
                    &&& out@[j].transcript matches Some(t) && t@
                        == authorship_log.metadata.prompts@[j].1.messages@
                    &&& out@[j].entries@.len() > 0
                    &&& reset_entries(
                        files@,
                        authorship_log.attestations@,
                        hunk_views(added_hunks@),
                        ts as int,
                        entry_views(out@[j].entries@),
                    )
                },
        decreases authorship_log.metadata.prompts@.len() - k,
    {
        let record = &authorship_log.metadata.prompts[k].1;
        let messages = record.messages.clone();
        assert(messages@ =~= record.messages@);
        let copy = clone_entries(&entries);
        assert(copy@.len() == entry_views(copy@).len());
        assert(entries@.len() == entry_views(entries@).len());
        out.push(
            Checkpoint {
                kind: CheckpointKind::AiAgent,
                snapshot: String::new(),
                author: human_author.to_owned(),
                timestamp: ts,
                entries: copy,
                transcript: Some(AiTranscript { messages }),
                agent_id: Some(record.agent_id.clone()),
                line_stats: CheckpointLineStats::default(),
            },
        );
        k = k + 1;
    }
    out
}

/// Authorship logs as plain values.
pub open spec fn log_views(logs: Seq<AuthorshipLog>) -> Seq<AuthorshipLogView> {
    logs.map_values(|l: AuthorshipLog| l@)
}

/// The logs laid over one another in their order, each later one counting
/// over those before it; the empty log where there is none.
pub open spec fn squashed(logs: Seq<AuthorshipLogView>) -> AuthorshipLogView
    decreases logs.len(),
{
    if logs.len() == 0 {
        AuthorshipLogView {
            attestations: Seq::empty(),
            base_commit_sha: Seq::empty(),
            human_author: None,
            prompts: Seq::empty(),
        }
    } else if logs.len() == 1 {
        logs[0]
    } else {
        overlaid(squashed(logs.drop_last()), logs.last())
    }
}

/// The authorship log of a squash merge: the logs of the commits of the
/// source branch, each taken to the tree of the squash commit, laid over one
/// another from the oldest to the newest.
pub fn squash_authorship(logs: &Vec<AuthorshipLog>) -> (r: AuthorshipLog)
    ensures
        r@ == squashed(log_views(logs@)),
{
    if logs.len() == 0 {
        return AuthorshipLog::new();
    }
    let ghost all = log_views(logs@);
    let mut out = logs[0].clone();
    assert(all.take(1)[0] == logs@[0]@);
    let mut i: usize = 1;
    while i < logs.len()
        invariant
            1 <= i <= logs@.len(),
            all == log_views(logs@),
            out@ == squashed(all.take(i as int)),
        decreases logs@.len() - i,
    {
        proof {
            assert(all.take(i + 1).drop_last() =~= all.take(i as int));
            assert(all.take(i + 1).last() == logs@[i as int]@);
        }
        out.overlay(&logs[i]);
        i = i + 1;
    }
    assert(all.take(logs@.len() as int) =~= all);
    out
}

/// The authorship log of an amended commit: what the log of the commit that
/// was amended attests of lines that the amended commit still adds, under
/// what the working log has added since.
pub fn amend_authorship(original: &AuthorshipLog, committed_hunks: &Hunks, added: &AuthorshipLog) -> (r:
    AuthorshipLog)
    ensures
        r@ == overlaid(
            AuthorshipLogView {
                attestations: files_committed(original@.attestations, hunk_views(committed_hunks@)),
                ..original@
            },
            added@,
        ),
{
    let mut out = original.clone();
    out.filter_to_committed_lines(committed_hunks);
    out.overlay(added);
    out
}

} // verus!
