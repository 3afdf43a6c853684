//! What a commit makes of the working log: the authorship log of the commit,
//! and the working log that stays behind for lines not yet committed.

use vstd::prelude::*;
use vstd::string::StringSliceAdditionalSpecFns;
use vstd::utf8::encode_utf8;

use crate::authorship::attribution_tracker::{line_labeled, Attribution, LineAttribution};
use crate::commands::checkpoint::{assoc_get, lookup_or_empty};
use crate::git::repository::distinct_files;
use crate::authorship::authorship_log::{
    compress, lemma_compressed_init, ranges_hold, LineRange,
};
use crate::authorship::authorship_log_serialization::{
    attested_prompts,
    author_ranges,
    built_files,
    file_entries,
    lemma_author_ranges_hold,
    lemma_file_entries_follow_labels,
    same_labels,
    distinct_hashes,
    lemma_attested_prompts_distinct,
    lemma_built_prompts_are_distinct,
    built_log,
    files_committed,
    files_inside,
    files_to_commit,
    find_hunks,
    hash_attested,
    hashes_within,
    hunk_views,
    hunks_get,
    lemma_attested_prompt_kept,
    lemma_built_files_sound,
    lemma_committed_sound,
    lemma_to_commit_sound,
    logged_files,
    prompt_hashes,
    ranges_compressed,
    session_prompts,
    AuthorshipLog,
    AuthorshipLogView,
    Hunks,
};
use crate::authorship::working_log::{
    checkpoint_views, entry_views, latest_entry, Checkpoint, CheckpointView, WorkingLogEntry,
    WorkingLogEntryView,
};
use crate::text::{
    as_ints, compute_line_bounds, holds_str, lemma_line_bounds, line_bounds, line_count, texts,
    NEWLINE,
};

verus! {

/// The entries whose file is among `files`, in their order.
pub open spec fn kept_entries(entries: Seq<WorkingLogEntry>, files: Seq<Seq<char>>) -> Seq<
    WorkingLogEntryView,
>
    decreases entries.len(),
{
    if entries.len() == 0 {
        Seq::empty()
    } else if files.contains(entries.last().file@) {
        kept_entries(entries.drop_last(), files).push(entries.last()@)
    } else {
        kept_entries(entries.drop_last(), files)
    }
}

/// The checkpoints with only the entries whose file is among `files`; a
/// checkpoint without such an entry is left out.
pub open spec fn kept_checkpoints(checkpoints: Seq<Checkpoint>, files: Seq<Seq<char>>) -> Seq<
    CheckpointView,
>
    decreases checkpoints.len(),
{
    if checkpoints.len() == 0 {
        Seq::empty()
    } else {
        let before = kept_checkpoints(checkpoints.drop_last(), files);
        let entries = kept_entries(checkpoints.last().entries@, files);
        if entries.len() == 0 {
            before
        } else {
            before.push(CheckpointView { entries, ..checkpoints.last()@ })
        }
    }
}

/// Leaves out of a working log what it records of files that the commit has
/// not changed.
pub fn filter_untracked_files(working_log: &Vec<Checkpoint>, committed_files: &Vec<String>) -> (r:
    Vec<Checkpoint>)
    ensures
        checkpoint_views(r@) == kept_checkpoints(working_log@, texts(committed_files@)),
{
    let ghost files = texts(committed_files@);
    let mut out: Vec<Checkpoint> = Vec::new();
    let mut i: usize = 0;
    assert(checkpoint_views(out@) =~= Seq::<CheckpointView>::empty());
    while i < working_log.len()
        invariant
            i <= working_log@.len(),
            files == texts(committed_files@),
            checkpoint_views(out@) == kept_checkpoints(working_log@.take(i as int), files),
        decreases working_log@.len() - i,
    {
        proof {
            assert(working_log@.take(i + 1).drop_last() =~= working_log@.take(i as int));
        }
        let checkpoint = &working_log[i];
        let mut entries: Vec<WorkingLogEntry> = Vec::new();
        let mut j: usize = 0;
        assert(entry_views(entries@) =~= Seq::<WorkingLogEntryView>::empty());
        while j < checkpoint.entries.len()
            invariant
                j <= checkpoint.entries@.len(),
                files == texts(committed_files@),
                entry_views(entries@) == kept_entries(checkpoint.entries@.take(j as int), files),
            decreases checkpoint.entries@.len() - j,
        {
            proof {
                assert(checkpoint.entries@.take(j + 1).drop_last() =~= checkpoint.entries@.take(
                    j as int,
                ));
            }
            if holds_str(committed_files, checkpoint.entries[j].file.as_str()) {
                let ghost before = entries@;
                let e = checkpoint.entries[j].clone();
                entries.push(e);
                assert(entry_views(entries@) =~= entry_views(before).push(e@));
            }
            j = j + 1;
        }
        assert(checkpoint.entries@.take(checkpoint.entries@.len() as int) =~= checkpoint.entries@);
        if entries.len() > 0 {
            let ghost before = out@;
            let mut kept = checkpoint.clone();
            kept.entries = entries;
            out.push(kept);
            assert(checkpoint_views(out@) =~= checkpoint_views(before).push(kept@));
        }
        i = i + 1;
    }
    assert(working_log@.take(working_log@.len() as int) =~= working_log@);
    out
}

/// Added lines by file as plain values.
pub open spec fn added_views(added: Seq<(String, Vec<u32>)>) -> Seq<(Seq<char>, Seq<u32>)> {
    added.map_values(|a: (String, Vec<u32>)| (a.0@, a.1@))
}

/// The added lines of each file as a compressed set; a file without added
/// lines is left out.
pub open spec fn hunks_of(added: Seq<(Seq<char>, Seq<u32>)>) -> Seq<(Seq<char>, Seq<LineRange>)>
    decreases added.len(),
{
    if added.len() == 0 {
        Seq::empty()
    } else if added.last().1.len() == 0 {
        hunks_of(added.drop_last())
    } else {
        hunks_of(added.drop_last()).push((added.last().0, compress(added.last().1)))
    }
}

fn hunks_from_added_lines(added_lines: &Vec<(String, Vec<u32>)>) -> (r: Hunks)
    ensures
        hunk_views(r@) == hunks_of(added_views(added_lines@)),
{
    let ghost views = added_views(added_lines@);
    let mut out: Hunks = Vec::new();
    let mut i: usize = 0;
    assert(hunk_views(out@) =~= Seq::<(Seq<char>, Seq<LineRange>)>::empty());
    while i < added_lines.len()
        invariant
            i <= added_lines@.len(),
            views == added_views(added_lines@),
            hunk_views(out@) == hunks_of(views.take(i as int)),
        decreases added_lines@.len() - i,
    {
        proof {
            assert(views.take(i + 1).drop_last() =~= views.take(i as int));
            assert(views.take(i + 1).last() == (added_lines@[i as int].0@, added_lines@[i as int].1@));
        }
        if added_lines[i].1.len() > 0 {
            let ghost before = out@;
            let h = (
                added_lines[i].0.clone(),
                LineRange::compress_lines(added_lines[i].1.as_slice()),
            );
            out.push(h);
            assert(hunk_views(out@) =~= hunk_views(before).push((h.0@, h.1@)));
        }
        i = i + 1;
    }
    assert(views.take(added_lines@.len() as int) =~= views);
    out
}

/// No file has two pairs: the list stands for a map from files to line
/// ranges.
pub open spec fn distinct_paths(hunks: Seq<(Seq<char>, Seq<LineRange>)>) -> bool {
    forall|i: int, j: int|
        0 <= i < j < hunks.len() ==> (#[trigger] hunks[i]).0 != (#[trigger] hunks[j]).0
}

/// Hunks name a file once where the added lines do: every file of the
/// hunks is a file of the added lines, in the same order.
pub proof fn lemma_hunks_name_each_file_once(added: Seq<(Seq<char>, Seq<u32>)>)
    requires
        distinct_files(added),
    ensures
        distinct_paths(hunks_of(added)),
        forall|k: int|
            0 <= k < hunks_of(added).len() ==> exists|i: int|
                0 <= i < added.len() && added[i].0 == (#[trigger] hunks_of(added)[k]).0,
    decreases added.len(),
{
    if added.len() > 0 {
        let init = added.drop_last();
        assert(distinct_files(init)) by {
            assert forall|i: int, j: int| 0 <= i < j < init.len() implies (#[trigger] init[i]).0
                != (#[trigger] init[j]).0 by {
                assert(added[i].0 != added[j].0);
            }
        }
        lemma_hunks_name_each_file_once(init);
        let kept = hunks_of(init);
        let all = hunks_of(added);
        assert forall|k: int| 0 <= k < all.len() implies exists|i: int|
            0 <= i < added.len() && added[i].0 == (#[trigger] all[k]).0 by {
            if k < kept.len() {
                let i = choose|i: int| 0 <= i < init.len() && init[i].0 == kept[k].0;
                assert(added[i].0 == all[k].0);
            } else {
                assert(added[added.len() - 1].0 == all[k].0);
            }
        }
        assert forall|a: int, b: int| 0 <= a < b < all.len() implies (#[trigger] all[a]).0
            != (#[trigger] all[b]).0 by {
            if b >= kept.len() {
                let i = choose|i: int| 0 <= i < init.len() && init[i].0 == kept[a].0;
                assert(added[i].0 != added[added.len() - 1].0);
            }
        }
    }
}

/// The lines that a commit has added, file by file, as compressed sets: what
/// the diff between the parent and the commit reports.
pub fn collect_committed_hunks(added_lines: &Vec<(String, Vec<u32>)>) -> (r: Hunks)
    ensures
        hunk_views(r@) == hunks_of(added_views(added_lines@)),
        distinct_files(added_views(added_lines@)) ==> distinct_paths(hunk_views(r@)),
{
    proof {
        if distinct_files(added_views(added_lines@)) {
            lemma_hunks_name_each_file_once(added_views(added_lines@));
        }
    }
    hunks_from_added_lines(added_lines)
}

/// The lines of the working tree that a commit lacks, file by file, as
/// compressed sets: what the diff between the commit and the working tree
/// reports.
pub fn collect_unstaged_hunks(added_lines: &Vec<(String, Vec<u32>)>) -> (r: Hunks)
    ensures
        hunk_views(r@) == hunks_of(added_views(added_lines@)),
        distinct_files(added_views(added_lines@)) ==> distinct_paths(hunk_views(r@)),
{
    proof {
        if distinct_files(added_views(added_lines@)) {
            lemma_hunks_name_each_file_once(added_views(added_lines@));
        }
    }
    hunks_from_added_lines(added_lines)
}

/// Takes every line of the log from the coordinates of the working tree to
/// those of the commit.
pub fn convert_authorship_log_to_commit_coordinates(
    authorship_log: &mut AuthorshipLog,
    unstaged_hunks: &Hunks,
)
    ensures
        final(authorship_log)@ == (AuthorshipLogView {
            attestations: files_to_commit(
                old(authorship_log)@.attestations,
                hunk_views(unstaged_hunks@),
            ),
            ..old(authorship_log)@
        }),
{
    authorship_log.to_commit_coordinates(unstaged_hunks);
}

/// Where line `l` of `content` ends, counted from 1: before its newline, or
/// at the end of the content where the line has none.
pub open spec fn line_end(content: Seq<u8>, l: int) -> int {
    let end = line_bounds(content)[l];
    if content[end - 1] == NEWLINE {
        end - 1
    } else {
        end
    }
}

/// The bytes that the run of lines occupies in `content`, from the start of
/// its first line to the end of its last, or to the end of the content where
/// the run reaches past the last line. Nothing where the run is empty or
/// starts outside the content.
pub open spec fn char_range(content: Seq<u8>, range: LineRange) -> Option<(usize, usize)> {
    if 1 <= range.first() <= range.last() && range.first() <= line_count(content) {
        Some(
            (
                line_bounds(content)[range.first() - 1] as usize,
                if range.last() <= line_count(content) {
                    line_end(content, range.last()) as usize
                } else {
                    content.len() as usize
                },
            ),
        )
    } else {
        None
    }
}

/// The byte ranges of the runs that have one, in the order of the runs.
pub open spec fn char_ranges(content: Seq<u8>, ranges: Seq<LineRange>) -> Seq<(usize, usize)>
    decreases ranges.len(),
{
    if ranges.len() == 0 {
        Seq::empty()
    } else {
        match char_range(content, ranges.last()) {
            Some(r) => char_ranges(content, ranges.drop_last()).push(r),
            None => char_ranges(content, ranges.drop_last()),
        }
    }
}

/// Turns runs of lines into ranges of bytes of `content`.
pub fn convert_line_ranges_to_char_ranges(content: &str, line_ranges: &Vec<LineRange>) -> (r: Vec<
    (usize, usize),
>)
    ensures
        r@ == char_ranges(content.spec_bytes(), line_ranges@),
{
    let bytes = content.as_bytes();
    let bounds = compute_line_bounds(bytes);
    proof {
        lemma_line_bounds(bytes@);
        assert(as_ints(bounds@).len() == bounds@.len());
    }
    let n: usize = bounds.len() - 1;
    let mut out: Vec<(usize, usize)> = Vec::new();
    let mut i: usize = 0;
    while i < line_ranges.len()
        invariant
            i <= line_ranges@.len(),
            bytes@ == content.spec_bytes(),
            as_ints(bounds@) == line_bounds(bytes@),
            n == bounds@.len() - 1,
            n == line_count(bytes@),
            line_bounds(bytes@).last() == bytes@.len(),
            forall|a: int, b: int|
                0 <= a < b < line_bounds(bytes@).len() ==> line_bounds(bytes@)[a] < line_bounds(
                    bytes@,
                )[b],
            out@ == char_ranges(bytes@, line_ranges@.take(i as int)),
        decreases line_ranges@.len() - i,
    {
        proof {
            assert(line_ranges@.take(i + 1).drop_last() =~= line_ranges@.take(i as int));
        }
        let first: usize = line_ranges[i].start() as usize;
        let last: usize = line_ranges[i].end() as usize;
        if 1 <= first && first <= last && first <= n {
            let start: usize = bounds[first - 1];
            proof {
                assert(as_ints(bounds@)[first - 1] == start);
            }
            let end: usize = if last <= n {
                let stop: usize = bounds[last];
                proof {
                    assert(as_ints(bounds@)[last as int] == stop);
                    assert(line_bounds(bytes@)[0] < line_bounds(bytes@)[last as int]);
                    if last < n {
                        assert(line_bounds(bytes@)[last as int] < line_bounds(bytes@)[n as int]);
                    }
                }
                if bytes[stop - 1] == NEWLINE {
                    stop - 1
                } else {
                    stop
                }
            } else {
                bytes.len()
            };
            out.push((start, end));
        }
        i = i + 1;
    }
    assert(line_ranges@.take(line_ranges@.len() as int) =~= line_ranges@);
    out
}

/// Whether the attribution and the byte range share a position.
pub open spec fn overlaps(a: Attribution, range: (usize, usize)) -> bool {
    a.start < range.1 && a.end > range.0
}

/// The part of the attribution that lies within the byte range.
pub open spec fn clip(a: Attribution, range: (usize, usize)) -> Attribution {
    Attribution {
        start: if a.start > range.0 {
            a.start
        } else {
            range.0
        },
        end: if a.end < range.1 {
            a.end
        } else {
            range.1
        },
        author_id: a.author_id,
        timestamp: a.timestamp,
    }
}

/// The parts of one attribution within each byte range that it overlaps, in
/// the order of the ranges.
pub open spec fn clipped_by(a: Attribution, ranges: Seq<(usize, usize)>) -> Seq<Attribution>
    decreases ranges.len(),
{
    if ranges.len() == 0 {
        Seq::empty()
    } else if overlaps(a, ranges.last()) {
        clipped_by(a, ranges.drop_last()).push(clip(a, ranges.last()))
    } else {
        clipped_by(a, ranges.drop_last())
    }
}

/// The parts of the attributions within the byte ranges, in the order of the
/// attributions.
pub open spec fn clipped(attrs: Seq<Attribution>, ranges: Seq<(usize, usize)>) -> Seq<Attribution>
    decreases attrs.len(),
{
    if attrs.len() == 0 {
        Seq::empty()
    } else {
        clipped(attrs.drop_last(), ranges) + clipped_by(attrs.last(), ranges)
    }
}

/// Cuts attributions down to the given byte ranges.
pub fn filter_attributions_to_ranges(attributions: &Vec<Attribution>, ranges: &Vec<(usize, usize)>) -> (r:
    Vec<Attribution>)
    ensures
        r@ == clipped(attributions@, ranges@),
{
    let mut out: Vec<Attribution> = Vec::new();
    let mut i: usize = 0;
    while i < attributions.len()
        invariant
            i <= attributions@.len(),
            out@ == clipped(attributions@.take(i as int), ranges@),
        decreases attributions@.len() - i,
    {
        proof {
            assert(attributions@.take(i + 1).drop_last() =~= attributions@.take(i as int));
        }
        let a = &attributions[i];
        let ghost start = out@;
        let mut j: usize = 0;
        while j < ranges.len()
            invariant
                j <= ranges@.len(),
                out@ == start + clipped_by(*a, ranges@.take(j as int)),
            decreases ranges@.len() - j,
        {
            proof {
                assert(ranges@.take(j + 1).drop_last() =~= ranges@.take(j as int));
            }
            let range = ranges[j];
            if a.start < range.1 && a.end > range.0 {
                let from: usize = if a.start > range.0 {
                    a.start
                } else {
                    range.0
                };
                let to: usize = if a.end < range.1 {
                    a.end
                } else {
                    range.1
                };
                let ghost before = out@;
                out.push(Attribution::new(from, to, a.author_id.clone(), a.timestamp));
                assert(out@ =~= start + clipped_by(*a, ranges@.take(j as int)).push(
                    clip(*a, ranges@[j as int]),
                ));
            }
            j = j + 1;
        }
        assert(ranges@.take(ranges@.len() as int) =~= ranges@);
        i = i + 1;
    }
    assert(attributions@.take(attributions@.len() as int) =~= attributions@);
    out
}

/// Whether the line attribution and the run share a line.
pub open spec fn shares_lines(a: LineAttribution, range: LineRange) -> bool {
    a.start_line <= range.last() && range.first() <= a.end_line && a.start_line <= a.end_line
        && range.first() <= range.last()
}

/// The part of the line attribution that lies within the run.
pub open spec fn clip_lines(a: LineAttribution, range: LineRange) -> LineAttribution {
    LineAttribution {
        start_line: if a.start_line > range.first() {
            a.start_line
        } else {
            range.first() as u32
        },
        end_line: if a.end_line < range.last() {
            a.end_line
        } else {
            range.last() as u32
        },
        author_id: a.author_id,
    }
}

/// The parts of one line attribution within each run that it shares lines
/// with, in the order of the runs.
pub open spec fn lines_clipped_by(a: LineAttribution, ranges: Seq<LineRange>) -> Seq<
    LineAttribution,
>
    decreases ranges.len(),
{
    if ranges.len() == 0 {
        Seq::empty()
    } else if shares_lines(a, ranges.last()) {
        lines_clipped_by(a, ranges.drop_last()).push(clip_lines(a, ranges.last()))
    } else {
        lines_clipped_by(a, ranges.drop_last())
    }
}

/// The parts of the line attributions within the runs, in the order of the
/// attributions.
pub open spec fn lines_clipped(lines: Seq<LineAttribution>, ranges: Seq<LineRange>) -> Seq<
    LineAttribution,
>
    decreases lines.len(),
{
    if lines.len() == 0 {
        Seq::empty()
    } else {
        lines_clipped(lines.drop_last(), ranges) + lines_clipped_by(lines.last(), ranges)
    }
}

/// Cuts line attributions down to the given runs of lines.
pub fn filter_line_attributions_to_ranges(
    line_attributions: &Vec<LineAttribution>,
    ranges: &Vec<LineRange>,
) -> (r: Vec<LineAttribution>)
    ensures
        r@ == lines_clipped(line_attributions@, ranges@),
{
    let mut out: Vec<LineAttribution> = Vec::new();
    let mut i: usize = 0;
    while i < line_attributions.len()
        invariant
            i <= line_attributions@.len(),
            out@ == lines_clipped(line_attributions@.take(i as int), ranges@),
        decreases line_attributions@.len() - i,
    {
        proof {
            assert(line_attributions@.take(i + 1).drop_last() =~= line_attributions@.take(
                i as int,
            ));
        }
        let a = &line_attributions[i];
        let ghost start = out@;
        let mut j: usize = 0;
        while j < ranges.len()
            invariant
                j <= ranges@.len(),
                out@ == start + lines_clipped_by(*a, ranges@.take(j as int)),
            decreases ranges@.len() - j,
        {
            proof {
                assert(ranges@.take(j + 1).drop_last() =~= ranges@.take(j as int));
            }
            let first: u32 = ranges[j].start();
            let last: u32 = ranges[j].end();
            if a.start_line <= last && first <= a.end_line && a.start_line <= a.end_line && first
                <= last {
                let from: u32 = if a.start_line > first {
                    a.start_line
                } else {
                    first
                };
                let to: u32 = if a.end_line < last {
                    a.end_line
                } else {
                    last
                };
                out.push(LineAttribution::new(from, to, a.author_id.clone()));
                assert(out@ =~= start + lines_clipped_by(*a, ranges@.take(j as int)).push(
                    clip_lines(*a, ranges@[j as int]),
                ));
            }
            j = j + 1;
        }
        assert(ranges@.take(ranges@.len() as int) =~= ranges@);
        i = i + 1;
    }
    assert(line_attributions@.take(line_attributions@.len() as int) =~= line_attributions@);
    out
}

/// The snapshot that `blobs` hold under the content hash of the entry, or
/// the empty content where they hold none.
pub open spec fn snapshot_of(entry: WorkingLogEntry, blobs: Seq<(String, String)>) -> Seq<u8> {
    encode_utf8(
        match assoc_get(blobs, entry.blob_sha@) {
            Some(content) => content,
            None => Seq::<char>::empty(),
        },
    )
}

/// The unstaged lines of the file of the entry; none where the file has no
/// unstaged lines.
pub open spec fn unstaged_lines_of(
    entry: WorkingLogEntry,
    unstaged: Seq<(Seq<char>, Seq<LineRange>)>,
) -> Seq<LineRange> {
    unstaged_ranges(unstaged, entry.file@)
}

/// The attributions of an entry that lie in unstaged lines: the attributions
/// cut down to the bytes of these lines in the snapshot of the entry.
pub open spec fn unstaged_attributions(
    entry: WorkingLogEntry,
    unstaged: Seq<(Seq<char>, Seq<LineRange>)>,
    blobs: Seq<(String, String)>,
) -> Seq<Attribution> {
    clipped(
        entry.attributions@,
        char_ranges(snapshot_of(entry, blobs), unstaged_lines_of(entry, unstaged)),
    )
}

/// The entries with only their unstaged attributions; an entry that has none
/// is left out.
pub open spec fn unstaged_entries(
    entries: Seq<WorkingLogEntry>,
    unstaged: Seq<(Seq<char>, Seq<LineRange>)>,
    blobs: Seq<(String, String)>,
) -> Seq<WorkingLogEntryView>
    decreases entries.len(),
{
    if entries.len() == 0 {
        Seq::empty()
    } else {
        let before = unstaged_entries(entries.drop_last(), unstaged, blobs);
        let attributions = unstaged_attributions(entries.last(), unstaged, blobs);
        if attributions.len() == 0 {
            before
        } else {
            before.push(
                WorkingLogEntryView {
                    attributions,
                    line_attributions: lines_clipped(
                        entries.last().line_attributions@,
                        unstaged_lines_of(entries.last(), unstaged),
                    ),
                    ..entries.last()@
                },
            )
        }
    }
}

/// The working log that stays behind after a commit: every checkpoint with
/// only what it records of unstaged lines; a checkpoint that records nothing
/// of them is left out.
pub open spec fn unstaged_checkpoints(
    checkpoints: Seq<Checkpoint>,
    unstaged: Seq<(Seq<char>, Seq<LineRange>)>,
    blobs: Seq<(String, String)>,
) -> Seq<CheckpointView>
    decreases checkpoints.len(),
{
    if checkpoints.len() == 0 {
        Seq::empty()
    } else {
        let before = unstaged_checkpoints(checkpoints.drop_last(), unstaged, blobs);
        let entries = unstaged_entries(checkpoints.last().entries@, unstaged, blobs);
        if entries.len() == 0 {
            before
        } else {
            before.push(CheckpointView { entries, ..checkpoints.last()@ })
        }
    }
}

/// Builds the working log that stays behind after a commit. `blobs` holds
/// the snapshots of the old working log: each content hash with its content.
pub fn transfer_unstaged_checkpoints(
    checkpoints: &Vec<Checkpoint>,
    unstaged_hunks: &Hunks,
    blobs: &Vec<(String, String)>,
) -> (r: Vec<Checkpoint>)
    ensures
        checkpoint_views(r@) == unstaged_checkpoints(
            checkpoints@,
            hunk_views(unstaged_hunks@),
            blobs@,
        ),
{
    let ghost unstaged = hunk_views(unstaged_hunks@);
    let none: Vec<LineRange> = Vec::new();
    let mut out: Vec<Checkpoint> = Vec::new();
    let mut i: usize = 0;
    assert(checkpoint_views(out@) =~= Seq::<CheckpointView>::empty());
    while i < checkpoints.len()
        invariant
            i <= checkpoints@.len(),
            unstaged == hunk_views(unstaged_hunks@),
            none@.len() == 0,
            checkpoint_views(out@) == unstaged_checkpoints(
                checkpoints@.take(i as int),
                unstaged,
                blobs@,
            ),
        decreases checkpoints@.len() - i,
    {
        proof {
            assert(checkpoints@.take(i + 1).drop_last() =~= checkpoints@.take(i as int));
        }
        let checkpoint = &checkpoints[i];
        let mut entries: Vec<WorkingLogEntry> = Vec::new();
        let mut j: usize = 0;
        assert(entry_views(entries@) =~= Seq::<WorkingLogEntryView>::empty());
        while j < checkpoint.entries.len()
            invariant
                j <= checkpoint.entries@.len(),
                unstaged == hunk_views(unstaged_hunks@),
                none@.len() == 0,
                entry_views(entries@) == unstaged_entries(
                    checkpoint.entries@.take(j as int),
                    unstaged,
                    blobs@,
                ),
            decreases checkpoint.entries@.len() - j,
        {
            proof {
                assert(checkpoint.entries@.take(j + 1).drop_last() =~= checkpoint.entries@.take(
                    j as int,
                ));
            }
            let entry = &checkpoint.entries[j];
            let ranges: &Vec<LineRange> = match find_hunks(unstaged_hunks, &entry.file) {
                Some(ranges) => ranges,
                None => &none,
            };
            assert(ranges@ =~= unstaged_lines_of(*entry, unstaged));
            let content = lookup_or_empty(blobs, &entry.blob_sha);
            let char_ranges = convert_line_ranges_to_char_ranges(content.as_str(), ranges);
            let attributions = filter_attributions_to_ranges(&entry.attributions, &char_ranges);
            if attributions.len() > 0 {
                let ghost before = entries@;
                let line_attributions = filter_line_attributions_to_ranges(
                    &entry.line_attributions,
                    ranges,
                );
                let e = WorkingLogEntry::new(
                    entry.file.clone(),
                    entry.blob_sha.clone(),
                    attributions,
                    line_attributions,
                );
                entries.push(e);
                assert(entry_views(entries@) =~= entry_views(before).push(e@));
            }
            j = j + 1;
        }
        assert(checkpoint.entries@.take(checkpoint.entries@.len() as int) =~= checkpoint.entries@);
        if entries.len() > 0 {
            let ghost before = out@;
            let mut kept = checkpoint.clone();
            kept.entries = entries;
            out.push(kept);
            assert(checkpoint_views(out@) =~= checkpoint_views(before).push(kept@));
        }
        i = i + 1;
    }
    assert(checkpoints@.take(checkpoints@.len() as int) =~= checkpoints@);
    out
}

/// Whether the attribution lies within one of the byte ranges.
pub open spec fn attribution_within(x: Attribution, ranges: Seq<(usize, usize)>) -> bool {
    exists|j: int|
        0 <= j < ranges.len() && (#[trigger] ranges[j]).0 <= x.start && x.end <= ranges[j].1
}

/// Whether the line attribution lies within one of the runs.
pub open spec fn line_attribution_within(x: LineAttribution, ranges: Seq<LineRange>) -> bool {
    exists|j: int|
        0 <= j < ranges.len() && (#[trigger] ranges[j]).first() <= x.start_line && x.end_line
            <= ranges[j].last()
}

proof fn lemma_clipped_by_within(a: Attribution, ranges: Seq<(usize, usize)>)
    ensures
        forall|k: int|
            0 <= k < clipped_by(a, ranges).len() ==> attribution_within(
                #[trigger] clipped_by(a, ranges)[k],
                ranges,
            ),
    decreases ranges.len(),
{
    if ranges.len() > 0 {
        let init = ranges.drop_last();
        lemma_clipped_by_within(a, init);
        assert forall|k: int| 0 <= k < clipped_by(a, ranges).len() implies attribution_within(
            #[trigger] clipped_by(a, ranges)[k],
            ranges,
        ) by {
            let x = clipped_by(a, ranges)[k];
            if k < clipped_by(a, init).len() {
                assert(attribution_within(clipped_by(a, init)[k], init));
                let j = choose|j: int|
                    0 <= j < init.len() && (#[trigger] init[j]).0 <= x.start && x.end <= init[j].1;
                assert(ranges[j].0 <= x.start && x.end <= ranges[j].1);
            } else {
                assert(ranges[ranges.len() - 1].0 <= x.start && x.end <= ranges[ranges.len()
                    - 1].1);
            }
        }
    }
}

/// Whatever is left of attributions that are cut down to byte ranges lies
/// within one of the ranges.
pub proof fn lemma_clipped_within(attrs: Seq<Attribution>, ranges: Seq<(usize, usize)>)
    ensures
        forall|k: int|
            0 <= k < clipped(attrs, ranges).len() ==> attribution_within(
                #[trigger] clipped(attrs, ranges)[k],
                ranges,
            ),
    decreases attrs.len(),
{
    if attrs.len() > 0 {
        lemma_clipped_within(attrs.drop_last(), ranges);
        lemma_clipped_by_within(attrs.last(), ranges);
        let head = clipped(attrs.drop_last(), ranges);
        let tail = clipped_by(attrs.last(), ranges);
        assert forall|k: int| 0 <= k < clipped(attrs, ranges).len() implies attribution_within(
            #[trigger] clipped(attrs, ranges)[k],
            ranges,
        ) by {
            if k < head.len() {
                assert(attribution_within(head[k], ranges));
            } else {
                assert(attribution_within(tail[k - head.len()], ranges));
            }
        }
    }
}

proof fn lemma_lines_clipped_by_within(a: LineAttribution, ranges: Seq<LineRange>)
    ensures
        forall|k: int|
            0 <= k < lines_clipped_by(a, ranges).len() ==> line_attribution_within(
                #[trigger] lines_clipped_by(a, ranges)[k],
                ranges,
            ),
    decreases ranges.len(),
{
    if ranges.len() > 0 {
        let init = ranges.drop_last();
        lemma_lines_clipped_by_within(a, init);
        assert forall|k: int|
            0 <= k < lines_clipped_by(a, ranges).len() implies line_attribution_within(
            #[trigger] lines_clipped_by(a, ranges)[k],
            ranges,
        ) by {
            let x = lines_clipped_by(a, ranges)[k];
            if k < lines_clipped_by(a, init).len() {
                assert(line_attribution_within(lines_clipped_by(a, init)[k], init));
                let j = choose|j: int|
                    0 <= j < init.len() && (#[trigger] init[j]).first() <= x.start_line
                        && x.end_line <= init[j].last();
                assert(ranges[j].first() <= x.start_line && x.end_line <= ranges[j].last());
            } else {
                assert(ranges[ranges.len() - 1].first() <= x.start_line && x.end_line
                    <= ranges[ranges.len() - 1].last());
            }
        }
    }
}

/// Whatever is left of line attributions that are cut down to runs of lines
/// lies within one of the runs.
pub proof fn lemma_lines_clipped_within(lines: Seq<LineAttribution>, ranges: Seq<LineRange>)
    ensures
        forall|k: int|
            0 <= k < lines_clipped(lines, ranges).len() ==> line_attribution_within(
                #[trigger] lines_clipped(lines, ranges)[k],
                ranges,
            ),
    decreases lines.len(),
{
    if lines.len() > 0 {
        lemma_lines_clipped_within(lines.drop_last(), ranges);
        lemma_lines_clipped_by_within(lines.last(), ranges);
        let head = lines_clipped(lines.drop_last(), ranges);
        let tail = lines_clipped_by(lines.last(), ranges);
        assert forall|k: int|
            0 <= k < lines_clipped(lines, ranges).len() implies line_attribution_within(
            #[trigger] lines_clipped(lines, ranges)[k],
            ranges,
        ) by {
            if k < head.len() {
                assert(line_attribution_within(head[k], ranges));
            } else {
                assert(line_attribution_within(tail[k - head.len()], ranges));
            }
        }
    }
}

/// The unstaged lines of `file`; none where the file has no unstaged lines.
pub open spec fn unstaged_ranges(unstaged: Seq<(Seq<char>, Seq<LineRange>)>, file: Seq<char>) -> Seq<
    LineRange,
> {
    match hunks_get(unstaged, file) {
        Some(ranges) => ranges,
        None => Seq::empty(),
    }
}

/// The entry records nothing but unstaged lines of its file: every line
/// attribution lies within a run of unstaged lines, and every attribution
/// within the bytes of such a run in the snapshot of the entry.
pub open spec fn entry_is_unstaged(
    entry: WorkingLogEntryView,
    unstaged: Seq<(Seq<char>, Seq<LineRange>)>,
    blobs: Seq<(String, String)>,
) -> bool {
    &&& forall|k: int|
        0 <= k < entry.line_attributions.len() ==> line_attribution_within(
            #[trigger] entry.line_attributions[k],
            unstaged_ranges(unstaged, entry.file),
        )
    &&& forall|k: int|
        0 <= k < entry.attributions.len() ==> attribution_within(
            #[trigger] entry.attributions[k],
            char_ranges(
                encode_utf8(
                    match assoc_get(blobs, entry.blob_sha) {
                        Some(content) => content,
                        None => Seq::<char>::empty(),
                    },
                ),
                unstaged_ranges(unstaged, entry.file),
            ),
        )
}

proof fn lemma_unstaged_entries(
    entries: Seq<WorkingLogEntry>,
    unstaged: Seq<(Seq<char>, Seq<LineRange>)>,
    blobs: Seq<(String, String)>,
)
    ensures
        forall|e: int|
            0 <= e < unstaged_entries(entries, unstaged, blobs).len() ==> entry_is_unstaged(
                #[trigger] unstaged_entries(entries, unstaged, blobs)[e],
                unstaged,
                blobs,
            ),
    decreases entries.len(),
{
    if entries.len() > 0 {
        lemma_unstaged_entries(entries.drop_last(), unstaged, blobs);
        let last = entries.last();
        lemma_clipped_within(
            last.attributions@,
            char_ranges(snapshot_of(last, blobs), unstaged_lines_of(last, unstaged)),
        );
        lemma_lines_clipped_within(last.line_attributions@, unstaged_lines_of(last, unstaged));
        let before = unstaged_entries(entries.drop_last(), unstaged, blobs);
        assert forall|e: int|
            0 <= e < unstaged_entries(entries, unstaged, blobs).len() implies entry_is_unstaged(
            #[trigger] unstaged_entries(entries, unstaged, blobs)[e],
            unstaged,
            blobs,
        ) by {
            if e < before.len() {
                assert(entry_is_unstaged(before[e], unstaged, blobs));
            }
        }
    }
}

proof fn lemma_unstaged_checkpoints(
    checkpoints: Seq<Checkpoint>,
    unstaged: Seq<(Seq<char>, Seq<LineRange>)>,
    blobs: Seq<(String, String)>,
)
    ensures
        forall|c: int, e: int|
            0 <= c < unstaged_checkpoints(checkpoints, unstaged, blobs).len() && 0 <= e
                < unstaged_checkpoints(checkpoints, unstaged, blobs)[c].entries.len()
                ==> entry_is_unstaged(
                #[trigger] unstaged_checkpoints(checkpoints, unstaged, blobs)[c].entries[e],
                unstaged,
                blobs,
            ),
    decreases checkpoints.len(),
{
    if checkpoints.len() > 0 {
        lemma_unstaged_checkpoints(checkpoints.drop_last(), unstaged, blobs);
        lemma_unstaged_entries(checkpoints.last().entries@, unstaged, blobs);
        let before = unstaged_checkpoints(checkpoints.drop_last(), unstaged, blobs);
        let all = unstaged_checkpoints(checkpoints, unstaged, blobs);
        assert forall|c: int, e: int|
            0 <= c < all.len() && 0 <= e < all[c].entries.len() implies entry_is_unstaged(
            #[trigger] all[c].entries[e],
            unstaged,
            blobs,
        ) by {
            if c < before.len() {
                assert(entry_is_unstaged(before[c].entries[e], unstaged, blobs));
            }
        }
    }
}

/// Whether a working log may hold lines of an agent that the commit lacks:
/// there are unstaged lines, and some checkpoint is the work of an agent.
pub open spec fn may_hold_unstaged_ai_lines(
    checkpoints: Seq<Checkpoint>,
    unstaged: Seq<(Seq<char>, Seq<LineRange>)>,
) -> bool {
    unstaged.len() > 0 && exists|i: int|
        0 <= i < checkpoints.len() && (#[trigger] checkpoints[i]).agent_id is Some
}

pub fn has_unstaged_ai_lines(checkpoints: &Vec<Checkpoint>, unstaged_hunks: &Hunks) -> (r: bool)
    ensures
        r == may_hold_unstaged_ai_lines(checkpoints@, hunk_views(unstaged_hunks@)),
{
    if unstaged_hunks.len() == 0 {
        return false;
    }
    let mut i: usize = 0;
    while i < checkpoints.len()
        invariant
            i <= checkpoints@.len(),
            hunk_views(unstaged_hunks@).len() > 0,
            forall|k: int| 0 <= k < i ==> (#[trigger] checkpoints@[k]).agent_id is None,
        decreases checkpoints@.len() - i,
    {
        if checkpoints[i].agent_id.is_some() {
            return true;
        }
        i = i + 1;
    }
    false
}

/// The name under which the working log of a repository without commits is
/// kept.
pub open spec fn initial_name() -> Seq<char> {
    "initial"@
}

/// The authorship log that is published for a commit, given the checkpoints
/// of the working log that belong to files of the commit: the log that the
/// checkpoints amount to, taken to the coordinates of the commit, cut down
/// to the lines that the commit has added, with the prompts of the sessions
/// that still have lines.
pub open spec fn published_log(
    checkpoints: Seq<Checkpoint>,
    parent: Seq<char>,
    human_author: Seq<char>,
    committed: Seq<(Seq<char>, Seq<LineRange>)>,
    unstaged: Seq<(Seq<char>, Seq<LineRange>)>,
) -> AuthorshipLogView {
    let built = built_log(checkpoints, parent, Some(human_author));
    let files = files_committed(files_to_commit(built.attestations, unstaged), committed);
    AuthorshipLogView {
        attestations: files,
        prompts: attested_prompts(built.prompts, files),
        ..built
    }
}

/// In the authorship log that is published for a commit, every author of a
/// line is an agent session that the log knows: each hash that lines are
/// attested to has a prompt. Every other line counts as written by a person.
pub proof fn lemma_published_authors_are_known(
    checkpoints: Seq<Checkpoint>,
    parent: Seq<char>,
    human_author: Seq<char>,
    committed: Seq<(Seq<char>, Seq<LineRange>)>,
    unstaged: Seq<(Seq<char>, Seq<LineRange>)>,
)
    ensures
        hashes_within(
            published_log(checkpoints, parent, human_author, committed, unstaged).attestations,
            prompt_hashes(
                published_log(checkpoints, parent, human_author, committed, unstaged).prompts,
            ),
        ),
{
    let built = built_log(checkpoints, parent, Some(human_author));
    let sessions = session_prompts(checkpoints, Some(human_author));
    let hashes = prompt_hashes(sessions);
    assert(prompt_hashes(built.prompts) =~= hashes);
    lemma_built_files_sound(checkpoints, logged_files(checkpoints), hashes);
    lemma_to_commit_sound(built.attestations, unstaged, hashes);
    let moved = files_to_commit(built.attestations, unstaged);
    lemma_committed_sound(moved, committed, hashes);
    let files = files_committed(moved, committed);
    let log = published_log(checkpoints, parent, human_author, committed, unstaged);
    assert forall|i: int, j: int|
        0 <= i < files.len() && 0 <= j < files[i].entries.len() implies prompt_hashes(
        log.prompts,
    ).contains((#[trigger] files[i].entries[j]).hash) by {
        let h = files[i].entries[j].hash;
        assert(hashes.contains(h));
        assert(hash_attested(files, h));
        lemma_attested_prompt_kept(built.prompts, files, h);
    }
}

/// In the authorship log that is published for a commit, the line ranges of
/// every attestation are sorted and apart from one another, and every line
/// among them is a line that the commit has added to the file.
pub proof fn lemma_published_ranges(
    checkpoints: Seq<Checkpoint>,
    parent: Seq<char>,
    human_author: Seq<char>,
    committed: Seq<(Seq<char>, Seq<LineRange>)>,
    unstaged: Seq<(Seq<char>, Seq<LineRange>)>,
)
    ensures
        ranges_compressed(
            published_log(checkpoints, parent, human_author, committed, unstaged).attestations,
        ),
        files_inside(
            published_log(checkpoints, parent, human_author, committed, unstaged).attestations,
            committed,
        ),
{
    let built = built_log(checkpoints, parent, Some(human_author));
    let hashes = prompt_hashes(session_prompts(checkpoints, Some(human_author)));
    lemma_built_files_sound(checkpoints, logged_files(checkpoints), hashes);
    lemma_to_commit_sound(built.attestations, unstaged, hashes);
    let moved = files_to_commit(built.attestations, unstaged);
    lemma_committed_sound(moved, committed, hashes);
}

/// The authorship log that is published for a commit names every session
/// once among its prompts, as the keys of a map do.
pub proof fn lemma_published_prompts_are_distinct(
    checkpoints: Seq<Checkpoint>,
    parent: Seq<char>,
    human_author: Seq<char>,
    committed: Seq<(Seq<char>, Seq<LineRange>)>,
    unstaged: Seq<(Seq<char>, Seq<LineRange>)>,
)
    ensures
        distinct_hashes(
            published_log(checkpoints, parent, human_author, committed, unstaged).prompts,
        ),
{
    let built = built_log(checkpoints, parent, Some(human_author));
    lemma_built_prompts_are_distinct(checkpoints, parent, Some(human_author));
    let files = files_committed(files_to_commit(built.attestations, unstaged), committed);
    lemma_attested_prompts_distinct(built.prompts, files);
}

/// What the latest entry for `file` in a working log says of its lines;
/// nothing where the file has no entry.
pub open spec fn latest_lines(checkpoints: Seq<Checkpoint>, file: Seq<char>) -> Seq<
    LineAttribution,
> {
    match latest_entry(checkpoints, file) {
        Some(entry) => entry.line_attributions@,
        None => Seq::empty(),
    }
}

/// Whether two working logs have come to the same state: they name the same
/// files and the same agent sessions in the same order, and the latest
/// entry of every file gives the same lines to the same authors.
pub open spec fn same_final_state(
    first: Seq<Checkpoint>,
    second: Seq<Checkpoint>,
    human_author: Seq<char>,
) -> bool {
    &&& logged_files(first) == logged_files(second)
    &&& prompt_hashes(session_prompts(first, Some(human_author))) == prompt_hashes(
        session_prompts(second, Some(human_author)),
    )
    &&& forall|file: Seq<char>| #[trigger]
        same_labels(latest_lines(first, file), latest_lines(second, file))
}

proof fn lemma_built_files_read_latest(
    first: Seq<Checkpoint>,
    second: Seq<Checkpoint>,
    files: Seq<Seq<char>>,
    hashes: Seq<Seq<char>>,
)
    requires
        forall|file: Seq<char>| #[trigger]
            same_labels(latest_lines(first, file), latest_lines(second, file)),
    ensures
        built_files(first, files, hashes) == built_files(second, files, hashes),
    decreases files.len(),
{
    if files.len() > 0 {
        lemma_built_files_read_latest(first, second, files.drop_last(), hashes);
        let file = files.last();
        assert(same_labels(latest_lines(first, file), latest_lines(second, file)));
        lemma_file_entries_follow_labels(
            latest_lines(first, file),
            latest_lines(second, file),
            hashes,
        );
        lemma_no_lines_no_entries(hashes);
    }
}

proof fn lemma_no_lines_no_entries(hashes: Seq<Seq<char>>)
    ensures
        file_entries(Seq::<LineAttribution>::empty(), hashes).len() == 0,
    decreases hashes.len(),
{
    if hashes.len() > 0 {
        lemma_no_lines_no_entries(hashes.drop_last());
        let none = Seq::<LineAttribution>::empty();
        lemma_author_ranges_hold(none, hashes.last());
        let ranges = author_ranges(none, hashes.last());
        if ranges.len() > 0 {
            lemma_compressed_init(ranges);
            assert(ranges.last().holds(ranges.last().first()));
            assert(ranges_hold(ranges, ranges.last().first()));
            assert(line_labeled(none, ranges.last().first(), hashes.last()));
        }
    }
}

/// The lines that are published for a commit depend on the working log only
/// through the state it has come to: two working logs in the same final
/// state attest the same lines, however many checkpoints each has taken on
/// the way.
pub proof fn lemma_published_lines_ignore_earlier_checkpoints(
    first: Seq<Checkpoint>,
    second: Seq<Checkpoint>,
    parent: Seq<char>,
    human_author: Seq<char>,
    committed: Seq<(Seq<char>, Seq<LineRange>)>,
    unstaged: Seq<(Seq<char>, Seq<LineRange>)>,
)
    requires
        same_final_state(first, second, human_author),
    ensures
        published_log(first, parent, human_author, committed, unstaged).attestations
            == published_log(second, parent, human_author, committed, unstaged).attestations,
{
    lemma_built_files_read_latest(
        first,
        second,
        logged_files(first),
        prompt_hashes(session_prompts(first, Some(human_author))),
    );
}

/// What a commit leaves behind.
pub struct PostCommitOutcome {
    /// The authorship log to attach to the commit.
    pub authorship_log: AuthorshipLog,
    /// The working log to keep under the new commit; none where nothing of
    /// the old working log is left to commit.
    pub working_log: Option<Vec<Checkpoint>>,
}

/// What `post_commit` keeps of the old working log.
pub open spec fn handed_over(
    working_log: Seq<Checkpoint>,
    unstaged: Seq<(Seq<char>, Seq<LineRange>)>,
    blobs: Seq<(String, String)>,
) -> Option<Seq<CheckpointView>> {
    if may_hold_unstaged_ai_lines(working_log, unstaged) {
        Some(unstaged_checkpoints(working_log, unstaged, blobs))
    } else {
        None
    }
}

/// After a commit, the working log of its parent is either given up or
/// records nothing but unstaged lines: each entry of what `post_commit`
/// hands over is cut down to the unstaged lines of its file.
pub proof fn lemma_handed_over_is_unstaged(
    working_log: Seq<Checkpoint>,
    unstaged: Seq<(Seq<char>, Seq<LineRange>)>,
    blobs: Seq<(String, String)>,
)
    ensures
        match handed_over(working_log, unstaged, blobs) {
            Some(log) => forall|c: int, e: int|
                0 <= c < log.len() && 0 <= e < log[c].entries.len() ==> entry_is_unstaged(
                    #[trigger] log[c].entries[e],
                    unstaged,
                    blobs,
                ),
            None => true,
        },
{
    lemma_unstaged_checkpoints(working_log, unstaged, blobs);
}

/// Publishes a commit: builds its authorship log from the working log of
/// its parent, and decides what of that working log stays behind.
///
/// `committed_files` are the files that the commit has changed,
/// `committed_lines` the lines that it has added, `unstaged_lines` the lines
/// of the working tree that it lacks, and `blobs` the snapshots of the
/// working log by content hash.
pub fn post_commit(
    working_log: &Vec<Checkpoint>,
    base_commit: Option<&str>,
    human_author: &str,
    committed_files: &Vec<String>,
    committed_lines: &Vec<(String, Vec<u32>)>,
    unstaged_lines: &Vec<(String, Vec<u32>)>,
    blobs: &Vec<(String, String)>,
) -> (r: PostCommitOutcome)
    ensures
        exists|filtered: Seq<Checkpoint>| #[trigger]
            checkpoint_views(filtered) == kept_checkpoints(working_log@, texts(committed_files@))
                && r.authorship_log@ == published_log(
                filtered,
                match base_commit {
                    Some(sha) => sha@,
                    None => initial_name(),
                },
                human_author@,
                hunks_of(added_views(committed_lines@)),
                hunks_of(added_views(unstaged_lines@)),
            ),
        match r.working_log {
            Some(log) => Some(checkpoint_views(log@)),
            None => None,
        } == handed_over(working_log@, hunks_of(added_views(unstaged_lines@)), blobs@),
{
    let parent: &str = match base_commit {
        Some(sha) => sha,
        None => "initial",
    };
    let filtered = filter_untracked_files(working_log, committed_files);
    let mut authorship_log = AuthorshipLog::from_working_log_with_base_commit_and_human_author(
        &filtered,
        parent,
        Some(human_author),
    );
    let committed_hunks = collect_committed_hunks(committed_lines);
    let unstaged_hunks = collect_unstaged_hunks(unstaged_lines);
    convert_authorship_log_to_commit_coordinates(&mut authorship_log, &unstaged_hunks);
    authorship_log.filter_to_committed_lines(&committed_hunks);
    authorship_log.retain_attested_prompts();
    let kept = if has_unstaged_ai_lines(working_log, &unstaged_hunks) {
        Some(transfer_unstaged_checkpoints(working_log, &unstaged_hunks, blobs))
    } else {
        None
    };
    proof {
        assert(checkpoint_views(filtered@) == kept_checkpoints(
            working_log@,
            texts(committed_files@),
        ));
    }
    PostCommitOutcome { authorship_log, working_log: kept }
}

} // verus!
