//! Taking a checkpoint: what the working log learns from the state of the
//! working tree.

use vstd::prelude::*;
use vstd::string::StringSliceAdditionalSpecFns;
use vstd::utf8::encode_utf8;

use crate::authorship::attribution_tracker::{
    attributions_to_line_attributions, byte_attributions, content_script, follows, gap_filled,
    line_attributions_to_attributions, line_projection, views, Attribution, AttributionTracker,
    LineAttribution,
};
use crate::authorship::authorship_log_serialization::{generate_short_hash, short_hash};
use crate::authorship::edit_script::{
    capture_text_diff, lines_diff, lines_of, myers_diff, script_matches, EditOp,
};
use crate::authorship::working_log::{
    find_latest_entry, known_attributions, AgentId, Checkpoint, CheckpointKind,
    CheckpointLineStats, WorkingLogEntry,
};
use crate::commands::checkpoint_agent::agent_presets::AgentRunResult;
use crate::text::{chars_of, part_views, parts, split, Separator};
use crate::utils::{sha256_hex, sha256_hex_digest};
use crate::authorship::transcript::{transcript_view, AiTranscript};
use crate::error::GitAiError;
use crate::git::status::StatusEntry;
use crate::text::{holds_str, line_bounds, line_count, texts};

verus! {

/// The author id of a checkpoint: the short hash of the session for an agent
/// that is known, else the name of the kind.
pub open spec fn author_id_of(kind: CheckpointKind, agent: Option<AgentId>) -> Seq<char> {
    match agent {
        Some(agent) if kind != CheckpointKind::Human => short_hash(agent.id@, agent.tool@),
        _ => kind.name(),
    }
}

/// The id under which a checkpoint attributes what it finds.
pub fn checkpoint_author_id(kind: CheckpointKind, agent: Option<&AgentId>) -> (r: String)
    ensures
        r@ == author_id_of(
            kind,
            match agent {
                Some(a) => Some(*a),
                None => None,
            },
        ),
{
    match (kind, agent) {
        (CheckpointKind::Human, _) => kind.to_str(),
        (_, Some(agent)) => generate_short_hash(agent.id.as_str(), agent.tool.as_str()),
        (_, None) => kind.to_str(),
    }
}

/// `entry` is what a checkpoint at time `ts` records of a file that read
/// `previous` and now reads `content`, the change being the work of `author`:
/// bytes of the previous content that nobody was known to have written count
/// as written by a person just before `ts`; the attributions then follow
/// `script` to the new content, and the lines are given to the authors of
/// their bytes.
pub open spec fn entry_records(
    file: Seq<char>,
    blob_sha: Seq<char>,
    author: Seq<char>,
    previous: Seq<u8>,
    previous_attributions: Seq<Attribution>,
    content: Seq<u8>,
    ts: int,
    script: Seq<EditOp>,
    entry: WorkingLogEntry,
) -> bool {
    &&& entry.file@ == file
    &&& entry.blob_sha@ == blob_sha
    &&& exists|filled: Seq<Attribution>| #[trigger]
        gap_filled(
            previous_attributions,
            previous.len() as int,
            CheckpointKind::Human.name(),
            ts - 1,
            filled,
        ) && follows(filled, script, author, ts, entry.attributions@)
    &&& line_projection(entry.attributions@, line_bounds(content), entry.line_attributions@)
}

/// The entry of a checkpoint for one file.
///
/// Fails where the comparison of the two contents does not come back as an
/// edit script from the one to the other.
pub fn make_entry_for_file(
    file_path: &str,
    blob_sha: &str,
    author_id: &str,
    previous_content: &str,
    previous_attributions: &Vec<Attribution>,
    content: &str,
    ts: u128,
) -> (r: Result<WorkingLogEntry, GitAiError>)
    requires
        ts >= 1,
        line_count(content.spec_bytes()) <= u32::MAX,
    ensures
        r matches Err(e) ==> e is Generic,
        match (r, content_script(previous_content.spec_bytes(), content.spec_bytes())) {
            (Ok(entry), Some(script)) => script_matches(
                script,
                previous_content.spec_bytes(),
                content.spec_bytes(),
            ) && entry_records(
                file_path@,
                blob_sha@,
                author_id@,
                previous_content.spec_bytes(),
                previous_attributions@,
                content.spec_bytes(),
                ts as int,
                script,
                entry,
            ),
            (Ok(_), None) => false,
            (Err(_), Some(script)) => !script_matches(
                script,
                previous_content.spec_bytes(),
                content.spec_bytes(),
            ),
            (Err(_), None) => true,
        },
{
    let tracker = AttributionTracker::new();
    let human = CheckpointKind::Human.to_str();
    let filled = tracker.attribute_unattributed_ranges(
        previous_content,
        previous_attributions,
        human.as_str(),
        ts - 1,
    );
    let new_attributions = match tracker.update_attributions(
        previous_content,
        content,
        &filled,
        author_id,
        ts,
    ) {
        Ok(attributions) => attributions,
        Err(e) => {
            return Err(e);
        },
    };
    let line_attributions = attributions_to_line_attributions(&new_attributions, content);
    Ok(
        WorkingLogEntry::new(
            file_path.to_owned(),
            blob_sha.to_owned(),
            new_attributions,
            line_attributions,
        ),
    )
}

/// A file that a checkpoint looks at.
pub struct TrackedFile {
    pub path: String,
    /// What the file read before: at the checkpoint before this one, or at
    /// the base commit where there is none.
    pub previous_content: String,
    /// What the file reads now.
    pub current_content: String,
    /// Line numbers of the file at the base commit, each with the id of the
    /// author that the notes of earlier commits name. Only the first
    /// checkpoint after a commit reads it.
    pub blame: Vec<(u32, String)>,
}

/// The value that `pairs` holds under `key`: that of the last pair with this
/// key.
pub open spec fn assoc_get(pairs: Seq<(String, String)>, key: Seq<char>) -> Option<Seq<char>>
    decreases pairs.len(),
{
    if pairs.len() == 0 {
        None
    } else if pairs.last().0@ == key {
        Some(pairs.last().1@)
    } else {
        assoc_get(pairs.drop_last(), key)
    }
}

/// The value under `key`, or the empty string where there is none.
pub fn lookup_or_empty(pairs: &Vec<(String, String)>, key: &String) -> (r: String)
    ensures
        r@ == match assoc_get(pairs@, key@) {
            Some(v) => v,
            None => Seq::<char>::empty(),
        },
{
    let mut i: usize = pairs.len();
    assert(pairs@.take(i as int) =~= pairs@);
    while i > 0
        invariant
            i <= pairs@.len(),
            assoc_get(pairs@, key@) == assoc_get(pairs@.take(i as int), key@),
        decreases i,
    {
        proof {
            assert(pairs@.take(i as int).drop_last() =~= pairs@.take(i - 1));
        }
        if pairs[i - 1].0 == *key {
            return pairs[i - 1].1.clone();
        }
        i = i - 1;
    }
    String::new()
}

/// The lines of a blame that an agent wrote, one line attribution each.
pub open spec fn agent_lines(blame: Seq<(u32, String)>) -> Seq<LineAttribution>
    decreases blame.len(),
{
    if blame.len() == 0 {
        Seq::empty()
    } else if blame.last().1@ == CheckpointKind::Human.name() {
        agent_lines(blame.drop_last())
    } else {
        agent_lines(blame.drop_last()).push(
            LineAttribution {
                start_line: blame.last().0,
                end_line: blame.last().0,
                author_id: blame.last().1,
            },
        )
    }
}

fn blame_to_line_attributions(blame: &Vec<(u32, String)>) -> (r: Vec<LineAttribution>)
    ensures
        r@ == agent_lines(blame@),
{
    let human = CheckpointKind::Human.to_str();
    let mut out: Vec<LineAttribution> = Vec::new();
    let mut i: usize = 0;
    while i < blame.len()
        invariant
            i <= blame@.len(),
            human@ == CheckpointKind::Human.name(),
            out@ == agent_lines(blame@.take(i as int)),
        decreases blame@.len() - i,
    {
        proof {
            assert(blame@.take(i + 1).drop_last() =~= blame@.take(i as int));
        }
        if !(blame[i].1 == human) {
            out.push(LineAttribution::new(blame[i].0, blame[i].0, blame[i].1.clone()));
        }
        i = i + 1;
    }
    assert(blame@.take(blame@.len() as int) =~= blame@);
    out
}

/// Whether the comparison of the two contents comes back as an edit script
/// from the one to the other.
pub open spec fn comparable(previous: Seq<u8>, content: Seq<u8>) -> bool {
    content_script(previous, content) matches Some(script) && script_matches(
        script,
        previous,
        content,
    )
}

/// `entry` is what a first checkpoint records of `file`.
pub open spec fn base_entry(
    file: TrackedFile,
    hashes: Seq<(String, String)>,
    author: Seq<char>,
    ts: int,
    entry: WorkingLogEntry,
) -> bool {
    &&& comparable(encode_utf8(file.previous_content@), encode_utf8(file.current_content@))
    &&& exists|known: Seq<Attribution>| #[trigger]
        views(known) == byte_attributions(
            agent_lines(file.blame@),
            line_bounds(encode_utf8(file.previous_content@)),
            ts,
        ) && entry_records(
            file.path@,
            match assoc_get(hashes, file.path@) {
                Some(v) => v,
                None => Seq::<char>::empty(),
            },
            author,
            encode_utf8(file.previous_content@),
            known,
            encode_utf8(file.current_content@),
            ts,
            content_script(
                encode_utf8(file.previous_content@),
                encode_utf8(file.current_content@),
            )->0,
            entry,
        )
}

/// `entries` are what a first checkpoint records of `files`: one entry for
/// each file whose content has changed, in the order of the files.
pub open spec fn base_entries(
    files: Seq<TrackedFile>,
    hashes: Seq<(String, String)>,
    author: Seq<char>,
    ts: int,
    entries: Seq<WorkingLogEntry>,
) -> bool
    decreases files.len(),
{
    if files.len() == 0 {
        entries.len() == 0
    } else if files.last().current_content@ == files.last().previous_content@ {
        base_entries(files.drop_last(), hashes, author, ts, entries)
    } else {
        entries.len() > 0 && base_entries(files.drop_last(), hashes, author, ts, entries.drop_last())
            && base_entry(files.last(), hashes, author, ts, entries.last())
    }
}

/// The entries of the first checkpoint after a commit. The previous content
/// of each file is that of the base commit, and the lines that the notes of
/// earlier commits give to an agent stay with that agent.
///
/// Fails on the first changed file whose two contents cannot be compared.
pub fn get_initial_checkpoint_entries(
    kind: CheckpointKind,
    files: &Vec<TrackedFile>,
    file_content_hashes: &Vec<(String, String)>,
    agent: Option<&AgentId>,
    ts: u128,
) -> (r: Result<Vec<WorkingLogEntry>, GitAiError>)
    requires
        ts >= 1,
        forall|i: int|
            0 <= i < files@.len() ==> line_count(
                encode_utf8((#[trigger] files@[i]).current_content@),
            ) <= u32::MAX,
    ensures
        r matches Err(e) ==> e is Generic,
        match r {
            Ok(entries) => base_entries(
                files@,
                file_content_hashes@,
                author_id_of(
                    kind,
                    match agent {
                        Some(a) => Some(*a),
                        None => None,
                    },
                ),
                ts as int,
                entries@,
            ),
            Err(_) => exists|i: int|
                0 <= i < files@.len() && (#[trigger] files@[i]).current_content@
                    != files@[i].previous_content@ && !comparable(
                    encode_utf8(files@[i].previous_content@),
                    encode_utf8(files@[i].current_content@),
                ),
        },
{
    let author_id = checkpoint_author_id(kind, agent);
    let mut entries: Vec<WorkingLogEntry> = Vec::new();
    let mut i: usize = 0;
    while i < files.len()
        invariant
            i <= files@.len(),
            ts >= 1,
            forall|k: int|
                0 <= k < files@.len() ==> line_count(
                    encode_utf8((#[trigger] files@[k]).current_content@),
                ) <= u32::MAX,
            base_entries(
                files@.take(i as int),
                file_content_hashes@,
                author_id@,
                ts as int,
                entries@,
            ),
        decreases files@.len() - i,
    {
        let file = &files[i];
        proof {
            assert(files@.take(i + 1).drop_last() =~= files@.take(i as int));
            assert(files@.take(i + 1).last() == files@[i as int]);
        }
        if !(file.current_content == file.previous_content) {
            let lines = blame_to_line_attributions(&file.blame);
            let known = line_attributions_to_attributions(
                &lines,
                file.previous_content.as_str(),
                ts,
            );
            let blob_sha = lookup_or_empty(file_content_hashes, &file.path);
            let entry = match make_entry_for_file(
                file.path.as_str(),
                blob_sha.as_str(),
                author_id.as_str(),
                file.previous_content.as_str(),
                &known,
                file.current_content.as_str(),
                ts,
            ) {
                Ok(entry) => entry,
                Err(e) => {
                    return Err(e);
                },
            };
            let ghost before = entries@;
            entries.push(entry);
            proof {
                assert(entries@.drop_last() =~= before);
                assert(views(known@) == byte_attributions(
                    agent_lines(file.blame@),
                    line_bounds(encode_utf8(file.previous_content@)),
                    ts as int,
                ));
            }
        }
        i = i + 1;
    }
    assert(files@.take(files@.len() as int) =~= files@);
    Ok(entries)
}

/// `entry` is what a later checkpoint records of `file`.
pub open spec fn snapshot_entry(
    file: TrackedFile,
    hashes: Seq<(String, String)>,
    previous_checkpoints: Seq<Checkpoint>,
    author: Seq<char>,
    ts: int,
    entry: WorkingLogEntry,
) -> bool {
    &&& comparable(encode_utf8(file.previous_content@), encode_utf8(file.current_content@))
    &&& entry_records(
        file.path@,
        match assoc_get(hashes, file.path@) {
            Some(v) => v,
            None => Seq::<char>::empty(),
        },
        author,
        encode_utf8(file.previous_content@),
        known_attributions(previous_checkpoints, file.path@),
        encode_utf8(file.current_content@),
        ts,
        content_script(encode_utf8(file.previous_content@), encode_utf8(file.current_content@))->0,
        entry,
    )
}

/// `entries` are what a later checkpoint records of `files`: one entry for
/// each file whose content has changed, in the order of the files.
pub open spec fn snapshot_entries(
    files: Seq<TrackedFile>,
    hashes: Seq<(String, String)>,
    previous_checkpoints: Seq<Checkpoint>,
    author: Seq<char>,
    ts: int,
    entries: Seq<WorkingLogEntry>,
) -> bool
    decreases files.len(),
{
    if files.len() == 0 {
        entries.len() == 0
    } else if files.last().current_content@ == files.last().previous_content@ {
        snapshot_entries(files.drop_last(), hashes, previous_checkpoints, author, ts, entries)
    } else {
        entries.len() > 0 && snapshot_entries(
            files.drop_last(),
            hashes,
            previous_checkpoints,
            author,
            ts,
            entries.drop_last(),
        ) && snapshot_entry(
            files.last(),
            hashes,
            previous_checkpoints,
            author,
            ts,
            entries.last(),
        )
    }
}

/// The entries of a checkpoint that follows others in the working log. The
/// previous content of each file is the snapshot of the checkpoint before,
/// and its attributions are those of the latest entry for the file.
///
/// Fails on the first changed file whose two contents cannot be compared.
pub fn get_subsequent_checkpoint_entries(
    kind: CheckpointKind,
    files: &Vec<TrackedFile>,
    file_content_hashes: &Vec<(String, String)>,
    previous_checkpoints: &Vec<Checkpoint>,
    agent: Option<&AgentId>,
    ts: u128,
) -> (r: Result<Vec<WorkingLogEntry>, GitAiError>)
    requires
        ts >= 1,
        forall|i: int|
            0 <= i < files@.len() ==> line_count(
                encode_utf8((#[trigger] files@[i]).current_content@),
            ) <= u32::MAX,
    ensures
        r matches Err(e) ==> e is Generic,
        match r {
            Ok(entries) => snapshot_entries(
                files@,
                file_content_hashes@,
                previous_checkpoints@,
                author_id_of(
                    kind,
                    match agent {
                        Some(a) => Some(*a),
                        None => None,
                    },
                ),
                ts as int,
                entries@,
            ),
            Err(_) => exists|i: int|
                0 <= i < files@.len() && (#[trigger] files@[i]).current_content@
                    != files@[i].previous_content@ && !comparable(
                    encode_utf8(files@[i].previous_content@),
                    encode_utf8(files@[i].current_content@),
                ),
        },
{
    let author_id = checkpoint_author_id(kind, agent);
    let none: Vec<Attribution> = Vec::new();
    let mut entries: Vec<WorkingLogEntry> = Vec::new();
    let mut i: usize = 0;
    while i < files.len()
        invariant
            i <= files@.len(),
            ts >= 1,
            none@.len() == 0,
            forall|k: int|
                0 <= k < files@.len() ==> line_count(
                    encode_utf8((#[trigger] files@[k]).current_content@),
                ) <= u32::MAX,
            snapshot_entries(
                files@.take(i as int),
                file_content_hashes@,
                previous_checkpoints@,
                author_id@,
                ts as int,
                entries@,
            ),
        decreases files@.len() - i,
    {
        let file = &files[i];
        proof {
            assert(files@.take(i + 1).drop_last() =~= files@.take(i as int));
            assert(files@.take(i + 1).last() == files@[i as int]);
        }
        if !(file.current_content == file.previous_content) {
            let known: &Vec<Attribution> = match find_latest_entry(previous_checkpoints, &file.path) {
                Some(e) => &e.attributions,
                None => &none,
            };
            assert(known@ =~= known_attributions(previous_checkpoints@, file.path@));
            let blob_sha = lookup_or_empty(file_content_hashes, &file.path);
            let entry = match make_entry_for_file(
                file.path.as_str(),
                blob_sha.as_str(),
                author_id.as_str(),
                file.previous_content.as_str(),
                known,
                file.current_content.as_str(),
                ts,
            ) {
                Ok(entry) => entry,
                Err(e) => {
                    return Err(e);
                },
            };
            let ghost before = entries@;
            entries.push(entry);
            proof {
                assert(entries@.drop_last() =~= before);
            }
        }
        i = i + 1;
    }
    assert(files@.take(files@.len() as int) =~= files@);
    Ok(entries)
}

/// `files` with the files of `entries` that are text and that it lacks, in
/// their order; `is_text` says of each entry whether its file is text.
pub open spec fn with_entry_files(
    files: Seq<Seq<char>>,
    entries: Seq<WorkingLogEntry>,
    is_text: Seq<bool>,
) -> Seq<Seq<char>>
    decreases entries.len(),
{
    if entries.len() == 0 {
        files
    } else {
        let before = with_entry_files(files, entries.drop_last(), is_text);
        if before.contains(entries.last().file@) || !is_text[entries.len() - 1] {
            before
        } else {
            before.push(entries.last().file@)
        }
    }
}

/// Adds to the files of a checkpoint those of an earlier checkpoint that
/// are still text: a file that is back at its state of the base commit is
/// looked at once more, so that what was deleted from it is recorded.
pub fn add_previous_files(files: &mut Vec<String>, entries: &Vec<WorkingLogEntry>, is_text: &Vec<bool>)
    requires
        is_text@.len() == entries@.len(),
    ensures
        texts(final(files)@) == with_entry_files(texts(old(files)@), entries@, is_text@),
{
    let ghost start = texts(files@);
    let mut i: usize = 0;
    while i < entries.len()
        invariant
            i <= entries@.len(),
            is_text@.len() == entries@.len(),
            texts(files@) == with_entry_files(start, entries@.take(i as int), is_text@),
        decreases entries@.len() - i,
    {
        proof {
            assert(entries@.take(i + 1).drop_last() =~= entries@.take(i as int));
        }
        if !holds_str(files, entries[i].file.as_str()) && is_text[i] {
            let ghost before = files@;
            files.push(entries[i].file.clone());
            assert(texts(files@) =~= texts(before).push(entries@[i as int].file@));
        }
        i = i + 1;
    }
    assert(entries@.take(entries@.len() as int) =~= entries@);
}

/// How many bytes at the start of a file decide whether it is text.
pub const TEXT_PROBE_LEN: usize = 8192;

/// Whether `content` is the content of a text file: none of its first
/// `TEXT_PROBE_LEN` bytes is zero.
pub open spec fn text(content: Seq<u8>) -> bool {
    forall|i: int| 0 <= i < content.len() && i < TEXT_PROBE_LEN ==> #[trigger] content[i] != 0
}

pub fn is_text_content(content: &[u8]) -> (r: bool)
    ensures
        r == text(content@),
{
    let stop: usize = if content.len() < TEXT_PROBE_LEN {
        content.len()
    } else {
        TEXT_PROBE_LEN
    };
    let mut i: usize = 0;
    while i < stop
        invariant
            i <= stop,
            stop <= content@.len(),
            stop <= TEXT_PROBE_LEN,
            stop == content@.len() || stop == TEXT_PROBE_LEN,
            forall|k: int| 0 <= k < i ==> #[trigger] content@[k] != 0,
        decreases stop - i,
    {
        if content[i] == 0 {
            return false;
        }
        i = i + 1;
    }
    true
}

/// The paths of the records that a checkpoint looks at and that are text, in
/// the order of the records.
pub open spec fn files_of(statuses: Seq<StatusEntry>, is_text: Seq<bool>) -> Seq<Seq<char>>
    decreases statuses.len(),
{
    if statuses.len() == 0 {
        Seq::empty()
    } else if statuses.last().relevant() && is_text[statuses.len() - 1] {
        files_of(statuses.drop_last(), is_text).push(statuses.last().path@)
    } else {
        files_of(statuses.drop_last(), is_text)
    }
}

/// The files that a checkpoint looks at, given the records of `git status`
/// and, for each record, whether its file is text. Files that are ignored or
/// in conflict are left out.
pub fn get_all_files(statuses: &Vec<StatusEntry>, is_text: &Vec<bool>) -> (r: Vec<String>)
    requires
        is_text@.len() == statuses@.len(),
    ensures
        texts(r@) == files_of(statuses@, is_text@),
{
    let mut files: Vec<String> = Vec::new();
    let mut i: usize = 0;
    assert(texts(files@) =~= Seq::<Seq<char>>::empty());
    while i < statuses.len()
        invariant
            i <= statuses@.len(),
            is_text@.len() == statuses@.len(),
            texts(files@) == files_of(statuses@.take(i as int), is_text@),
        decreases statuses@.len() - i,
    {
        proof {
            assert(statuses@.take(i + 1).drop_last() =~= statuses@.take(i as int));
        }
        if statuses[i].has_change() && is_text[i] {
            let ghost before = files@;
            files.push(statuses[i].path.clone());
            assert(texts(files@) =~= texts(before).push(statuses@[i as int].path@));
        }
        i = i + 1;
    }
    assert(statuses@.take(statuses@.len() as int) =~= statuses@);
    files
}

/// The lines that a script over lines adds.
pub open spec fn added_count(ops: Seq<EditOp>) -> int
    decreases ops.len(),
{
    if ops.len() == 0 {
        0
    } else {
        added_count(ops.drop_last()) + if ops.last().keeps() {
            0
        } else {
            ops.last().new_count()
        }
    }
}

/// The lines that a script over lines deletes.
pub open spec fn deleted_count(ops: Seq<EditOp>) -> int
    decreases ops.len(),
{
    if ops.len() == 0 {
        0
    } else {
        deleted_count(ops.drop_last()) + if ops.last().keeps() {
            0
        } else {
            ops.last().old_count()
        }
    }
}

/// The script over lines that leads from `previous` to `content`.
pub open spec fn line_script(previous: Seq<u8>, content: Seq<u8>) -> Seq<EditOp> {
    myers_diff(lines_of(previous), lines_of(content))
}

/// How many lines a script over lines adds, and how many it deletes.
pub fn count_script_lines(script: &Vec<EditOp>) -> (r: (u128, u128))
    ensures
        r.0 == added_count(script@),
        r.1 == deleted_count(script@),
{
    let mut added: u128 = 0;
    let mut deleted: u128 = 0;
    let mut i: usize = 0;
    while i < script.len()
        invariant
            i <= script@.len(),
            added == added_count(script@.take(i as int)),
            deleted == deleted_count(script@.take(i as int)),
            added <= i * 0x1_0000_0000_0000_0000,
            deleted <= i * 0x1_0000_0000_0000_0000,
        decreases script@.len() - i,
    {
        proof {
            assert(script@.take(i + 1).drop_last() =~= script@.take(i as int));
        }
        let (_, oc, _, nc) = script[i].parts();
        if !script[i].is_equal() {
            added = added + nc as u128;
            deleted = deleted + oc as u128;
        }
        i = i + 1;
    }
    assert(script@.take(script@.len() as int) =~= script@);
    (added, deleted)
}

/// How many lines the change from `previous` to `current` adds, and how many
/// it deletes, by the comparison of the two texts line by line.
pub fn count_line_changes(previous: &str, current: &str) -> (r: (u128, u128))
    ensures
        r.0 == added_count(lines_diff(previous@, current@)),
        r.1 == deleted_count(lines_diff(previous@, current@)),
{
    let script = capture_text_diff(previous, current);
    count_script_lines(&script)
}

/// The lines that a checkpoint adds over all its files.
pub open spec fn total_added(files: Seq<TrackedFile>) -> int
    decreases files.len(),
{
    if files.len() == 0 {
        0
    } else {
        total_added(files.drop_last()) + added_count(
            lines_diff(files.last().previous_content@, files.last().current_content@),
        )
    }
}

/// The lines that a checkpoint deletes over all its files.
pub open spec fn total_deleted(files: Seq<TrackedFile>) -> int
    decreases files.len(),
{
    if files.len() == 0 {
        0
    } else {
        total_deleted(files.drop_last()) + deleted_count(
            lines_diff(files.last().previous_content@, files.last().current_content@),
        )
    }
}

proof fn lemma_counts_nonnegative(ops: Seq<EditOp>)
    ensures
        added_count(ops) >= 0,
        deleted_count(ops) >= 0,
    decreases ops.len(),
{
    if ops.len() > 0 {
        lemma_counts_nonnegative(ops.drop_last());
    }
}

proof fn lemma_totals_grow(files: Seq<TrackedFile>, i: int)
    requires
        0 <= i <= files.len(),
    ensures
        0 <= total_added(files.take(i)) <= total_added(files),
        0 <= total_deleted(files.take(i)) <= total_deleted(files),
    decreases files.len(),
{
    if files.len() > 0 {
        lemma_counts_nonnegative(
            lines_diff(files.last().previous_content@, files.last().current_content@),
        );
        if i < files.len() {
            lemma_totals_grow(files.drop_last(), i);
            assert(files.drop_last().take(i) =~= files.take(i));
        } else {
            assert(files.take(i) =~= files);
            lemma_totals_grow(files.drop_last(), i - 1);
            assert(files.drop_last().take(i - 1) =~= files.drop_last());
        }
    } else {
        assert(files.take(i) =~= files);
    }
}

/// The counts before a checkpoint: those of the last checkpoint of the
/// working log, or zero.
pub open spec fn stats_before(previous_checkpoints: Seq<Checkpoint>) -> CheckpointLineStats {
    if previous_checkpoints.len() == 0 {
        CheckpointLineStats::zero()
    } else {
        previous_checkpoints.last().line_stats
    }
}

/// `stats` with `added` and `deleted` lines more for `kind`.
pub open spec fn stats_plus(
    stats: CheckpointLineStats,
    kind: CheckpointKind,
    added: int,
    deleted: int,
) -> CheckpointLineStats {
    match kind {
        CheckpointKind::Human => CheckpointLineStats {
            human_additions: (stats.human_additions + added) as u32,
            human_deletions: (stats.human_deletions + deleted) as u32,
            ..stats
        },
        CheckpointKind::AiAgent => CheckpointLineStats {
            ai_agent_additions: (stats.ai_agent_additions + added) as u32,
            ai_agent_deletions: (stats.ai_agent_deletions + deleted) as u32,
            ..stats
        },
        CheckpointKind::AiTab => CheckpointLineStats {
            ai_tab_additions: (stats.ai_tab_additions + added) as u32,
            ai_tab_deletions: (stats.ai_tab_deletions + deleted) as u32,
            ..stats
        },
    }
}

/// Whether the counts of `kind` can take `added` and `deleted` lines more.
pub open spec fn stats_fit(
    stats: CheckpointLineStats,
    kind: CheckpointKind,
    added: int,
    deleted: int,
) -> bool {
    match kind {
        CheckpointKind::Human => stats.human_additions + added <= u32::MAX
            && stats.human_deletions + deleted <= u32::MAX,
        CheckpointKind::AiAgent => stats.ai_agent_additions + added <= u32::MAX
            && stats.ai_agent_deletions + deleted <= u32::MAX,
        CheckpointKind::AiTab => stats.ai_tab_additions + added <= u32::MAX
            && stats.ai_tab_deletions + deleted <= u32::MAX,
    }
}

/// The line counts of a checkpoint of `kind`: those before it, with the lines
/// that the checkpoint adds and deletes over all its files. Fails where a
/// count leaves the range of 32 bits.
pub fn compute_line_stats(
    files: &Vec<TrackedFile>,
    previous_checkpoints: &Vec<Checkpoint>,
    kind: CheckpointKind,
) -> (r: Result<CheckpointLineStats, GitAiError>)
    ensures
        r matches Err(e) ==> e is Generic,
        match r {
            Ok(stats) => stats_fit(
                stats_before(previous_checkpoints@),
                kind,
                total_added(files@),
                total_deleted(files@),
            ) && stats == stats_plus(
                stats_before(previous_checkpoints@),
                kind,
                total_added(files@),
                total_deleted(files@),
            ),
            Err(_) => !stats_fit(
                stats_before(previous_checkpoints@),
                kind,
                total_added(files@),
                total_deleted(files@),
            ),
        },
{
    let stats: CheckpointLineStats = if previous_checkpoints.len() == 0 {
        CheckpointLineStats::default()
    } else {
        previous_checkpoints[previous_checkpoints.len() - 1].line_stats
    };
    let limit: u128 = 0xffff_ffff;
    let mut added: u128 = 0;
    let mut deleted: u128 = 0;
    let mut i: usize = 0;
    while i < files.len()
        invariant
            i <= files@.len(),
            limit == u32::MAX,
            added == total_added(files@.take(i as int)),
            deleted == total_deleted(files@.take(i as int)),
            added <= limit,
            deleted <= limit,
        decreases files@.len() - i,
    {
        proof {
            assert(files@.take(i + 1).drop_last() =~= files@.take(i as int));
            lemma_totals_grow(files@, i + 1);
        }
        let (a, d) = count_line_changes(
            files[i].previous_content.as_str(),
            files[i].current_content.as_str(),
        );
        proof {
            lemma_counts_nonnegative(
                lines_diff(files@[i as int].previous_content@, files@[i as int].current_content@),
            );
        }
        if a > limit - added || d > limit - deleted {
            return Err(GitAiError::Generic("more lines than a checkpoint can count".to_owned()));
        }
        added = added + a;
        deleted = deleted + d;
        i = i + 1;
    }
    assert(files@.take(files@.len() as int) =~= files@);
    let (base_added, base_deleted) = match kind {
        CheckpointKind::Human => (stats.human_additions, stats.human_deletions),
        CheckpointKind::AiAgent => (stats.ai_agent_additions, stats.ai_agent_deletions),
        CheckpointKind::AiTab => (stats.ai_tab_additions, stats.ai_tab_deletions),
    };
    if added > limit - base_added as u128 || deleted > limit - base_deleted as u128 {
        return Err(GitAiError::Generic("more lines than a checkpoint can count".to_owned()));
    }
    let new_added: u32 = base_added + added as u32;
    let new_deleted: u32 = base_deleted + deleted as u32;
    Ok(
        match kind {
            CheckpointKind::Human => CheckpointLineStats {
                human_additions: new_added,
                human_deletions: new_deleted,
                ..stats
            },
            CheckpointKind::AiAgent => CheckpointLineStats {
                ai_agent_additions: new_added,
                ai_agent_deletions: new_deleted,
                ..stats
            },
            CheckpointKind::AiTab => CheckpointLineStats {
                ai_tab_additions: new_added,
                ai_tab_deletions: new_deleted,
                ..stats
            },
        },
    )
}

/// The hash under which a snapshot of a file is kept: the SHA-256 digest of
/// its content.
pub fn content_hash(content: &str) -> (r: String)
    ensures
        r@ == sha256_hex(content.spec_bytes()),
{
    sha256_hex_digest(content.as_bytes())
}

/// The order of byte strings: byte by byte, a proper prefix coming first.
pub open spec fn lex_le(a: Seq<u8>, b: Seq<u8>) -> bool
    decreases a.len(),
{
    if a.len() == 0 {
        true
    } else if b.len() == 0 {
        false
    } else if a[0] != b[0] {
        a[0] < b[0]
    } else {
        lex_le(a.drop_first(), b.drop_first())
    }
}

/// Whether `a` comes no later than `b` in the order of byte strings.
pub fn bytes_le(a: &[u8], b: &[u8]) -> (r: bool)
    ensures
        r == lex_le(a@, b@),
{
    let mut i: usize = 0;
    assert(a@.skip(0) =~= a@ && b@.skip(0) =~= b@);
    while i < a.len() && i < b.len()
        invariant
            i <= a@.len(),
            i <= b@.len(),
            lex_le(a@, b@) == lex_le(a@.skip(i as int), b@.skip(i as int)),
        decreases a@.len() - i,
    {
        proof {
            assert(a@.skip(i as int).drop_first() =~= a@.skip(i + 1));
            assert(b@.skip(i as int).drop_first() =~= b@.skip(i + 1));
            assert(a@.skip(i as int)[0] == a@[i as int]);
            assert(b@.skip(i as int)[0] == b@[i as int]);
        }
        if a[i] != b[i] {
            return a[i] < b[i];
        }
        i = i + 1;
    }
    i == a.len()
}

/// `sorted` with `x` put in after the last pair whose path comes no later
/// than that of `x`.
pub open spec fn insert_by_path(sorted: Seq<(String, String)>, x: (String, String)) -> Seq<
    (String, String),
>
    decreases sorted.len(),
{
    if sorted.len() == 0 {
        seq![x]
    } else if lex_le(encode_utf8(sorted.last().0@), encode_utf8(x.0@)) {
        sorted.push(x)
    } else {
        insert_by_path(sorted.drop_last(), x).push(sorted.last())
    }
}

/// The pairs in the order of their paths, pairs of one path in their given
/// order.
pub open spec fn sort_by_path(pairs: Seq<(String, String)>) -> Seq<(String, String)>
    decreases pairs.len(),
{
    if pairs.len() == 0 {
        Seq::empty()
    } else {
        insert_by_path(sort_by_path(pairs.drop_last()), pairs.last())
    }
}

/// The bytes of every path, each followed by those of its hash.
pub open spec fn hash_input(pairs: Seq<(String, String)>) -> Seq<u8>
    decreases pairs.len(),
{
    if pairs.len() == 0 {
        Seq::empty()
    } else {
        hash_input(pairs.drop_last()) + encode_utf8(pairs.last().0@) + encode_utf8(pairs.last().1@)
    }
}

/// The hash that stands for all files of a checkpoint: the SHA-256 digest of
/// the paths and content hashes, in the order of the paths.
pub open spec fn snapshot_hash(pairs: Seq<(String, String)>) -> Seq<char> {
    sha256_hex(hash_input(sort_by_path(pairs)))
}

proof fn lemma_insert_at(sorted: Seq<(String, String)>, x: (String, String), i: int)
    requires
        0 <= i <= sorted.len(),
        i > 0 ==> lex_le(encode_utf8(sorted[i - 1].0@), encode_utf8(x.0@)),
        forall|j: int|
            i <= j < sorted.len() ==> !lex_le(
                encode_utf8((#[trigger] sorted[j]).0@),
                encode_utf8(x.0@),
            ),
    ensures
        insert_by_path(sorted, x) == sorted.insert(i, x),
    decreases sorted.len(),
{
    if sorted.len() == 0 {
        assert(sorted.insert(0, x) =~= seq![x]);
    } else if i == sorted.len() {
        assert(sorted.insert(i, x) =~= sorted.push(x));
    } else {
        assert(!lex_le(encode_utf8(sorted[sorted.len() - 1].0@), encode_utf8(x.0@)));
        let init = sorted.drop_last();
        assert forall|j: int| i <= j < init.len() implies !lex_le(
            encode_utf8((#[trigger] init[j]).0@),
            encode_utf8(x.0@),
        ) by {
            assert(init[j] == sorted[j]);
        }
        lemma_insert_at(init, x, i);
        assert(init.insert(i, x).push(sorted.last()) =~= sorted.insert(i, x));
    }
}

/// Computes the hash that stands for all files of a checkpoint.
pub fn combined_snapshot_hash(file_content_hashes: &Vec<(String, String)>) -> (r: String)
    ensures
        r@ == snapshot_hash(file_content_hashes@),
{
    let mut sorted: Vec<(String, String)> = Vec::new();
    let mut k: usize = 0;
    while k < file_content_hashes.len()
        invariant
            k <= file_content_hashes@.len(),
            sorted@ == sort_by_path(file_content_hashes@.take(k as int)),
        decreases file_content_hashes@.len() - k,
    {
        proof {
            assert(file_content_hashes@.take(k + 1).drop_last() =~= file_content_hashes@.take(
                k as int,
            ));
        }
        let x = (file_content_hashes[k].0.clone(), file_content_hashes[k].1.clone());
        assert(x == file_content_hashes@[k as int]);
        let mut i: usize = sorted.len();
        while i > 0 && !bytes_le(sorted[i - 1].0.as_str().as_bytes(), x.0.as_str().as_bytes())
            invariant
                i <= sorted@.len(),
                forall|j: int|
                    i <= j < sorted@.len() ==> !lex_le(
                        encode_utf8((#[trigger] sorted@[j]).0@),
                        encode_utf8(x.0@),
                    ),
            decreases i,
        {
            i = i - 1;
        }
        proof {
            lemma_insert_at(sorted@, x, i as int);
        }
        sorted.insert(i, x);
        k = k + 1;
    }
    assert(file_content_hashes@.take(file_content_hashes@.len() as int) =~= file_content_hashes@);
    let mut input: Vec<u8> = Vec::new();
    let mut j: usize = 0;
    while j < sorted.len()
        invariant
            j <= sorted@.len(),
            input@ == hash_input(sorted@.take(j as int)),
        decreases sorted@.len() - j,
    {
        proof {
            assert(sorted@.take(j + 1).drop_last() =~= sorted@.take(j as int));
        }
        let ghost before = input@;
        input.extend_from_slice(sorted[j].0.as_str().as_bytes());
        let ghost middle = input@;
        assert(middle =~= before + encode_utf8(sorted@[j as int].0@));
        input.extend_from_slice(sorted[j].1.as_str().as_bytes());
        assert(input@ =~= middle + encode_utf8(sorted@[j as int].1@));
        j = j + 1;
    }
    assert(sorted@.take(sorted@.len() as int) =~= sorted@);
    sha256_hex_digest(input.as_slice())
}

/// How many files have changed.
pub open spec fn changed_count(files: Seq<TrackedFile>) -> int
    decreases files.len(),
{
    if files.len() == 0 {
        0
    } else {
        changed_count(files.drop_last()) + if files.last().current_content@
            == files.last().previous_content@ {
            0int
        } else {
            1int
        }
    }
}

/// What a checkpoint run leaves behind: the checkpoint for the working log,
/// where anything has changed, and the counts that the caller reports.
pub struct CheckpointOutcome {
    /// The checkpoint to append to the working log; none where no file has
    /// changed.
    pub checkpoint: Option<Checkpoint>,
    /// How many files have an entry in the checkpoint.
    pub entries_len: usize,
    /// How many files the checkpoint has looked at.
    pub files_len: usize,
    /// How many checkpoints the working log holds after the run.
    pub checkpoints_len: usize,
}

/// The working log that a run builds on: nothing after a reset.
pub open spec fn log_before(reset: bool, working_log: Seq<Checkpoint>) -> Seq<Checkpoint> {
    if reset {
        Seq::empty()
    } else {
        working_log
    }
}

/// `entries` are what a run at time `ts` records of `files`.
pub open spec fn run_entries(
    kind: CheckpointKind,
    reset: bool,
    working_log: Seq<Checkpoint>,
    files: Seq<TrackedFile>,
    hashes: Seq<(String, String)>,
    agent: Option<AgentId>,
    ts: int,
    entries: Seq<WorkingLogEntry>,
) -> bool {
    if log_before(reset, working_log).len() == 0 {
        base_entries(files, hashes, author_id_of(kind, agent), ts, entries)
    } else {
        snapshot_entries(files, hashes, working_log, author_id_of(kind, agent), ts, entries)
    }
}

/// Takes a checkpoint of `files` at time `ts` on top of `working_log`.
///
/// With `reset`, or on an empty working log, every file is compared with its
/// content at the base commit; else with its snapshot of the checkpoint
/// before. A file whose content is unchanged has no entry, and where no file
/// has an entry there is no checkpoint. A checkpoint of an agent carries the
/// agent and its transcript.
pub fn run(
    author: &str,
    kind: CheckpointKind,
    reset: bool,
    working_log: &Vec<Checkpoint>,
    files: &Vec<TrackedFile>,
    file_content_hashes: &Vec<(String, String)>,
    agent_run_result: Option<&AgentRunResult>,
    ts: u128,
) -> (r: Result<CheckpointOutcome, GitAiError>)
    requires
        ts >= 1,
        forall|i: int|
            0 <= i < files@.len() ==> line_count(
                encode_utf8((#[trigger] files@[i]).current_content@),
            ) <= u32::MAX,
    ensures
        r matches Err(e) ==> e is Generic,
        r is Err <==> (exists|i: int|
            0 <= i < files@.len() && (#[trigger] files@[i]).current_content@
                != files@[i].previous_content@ && !comparable(
                encode_utf8(files@[i].previous_content@),
                encode_utf8(files@[i].current_content@),
            )) || (changed_count(files@) > 0 && (log_before(reset, working_log@).len()
            == usize::MAX || !stats_fit(
            stats_before(log_before(reset, working_log@)),
            kind,
            total_added(files@),
            total_deleted(files@),
        ))),
        r matches Ok(outcome) ==> {
            &&& outcome.files_len == files@.len()
            &&& outcome.entries_len == changed_count(files@)
            &&& outcome.checkpoints_len == log_before(reset, working_log@).len() + (
            if outcome.entries_len > 0 {
                1int
            } else {
                0int
            })
            &&& outcome.entries_len <= files@.len()
            &&& (outcome.entries_len == 0 <==> outcome.checkpoint is None)
            &&& outcome.entries_len == 0 ==> run_entries(
                kind,
                reset,
                working_log@,
                files@,
                file_content_hashes@,
                match agent_run_result {
                    Some(a) => Some(a.agent_id),
                    None => None,
                },
                ts as int,
                Seq::empty(),
            )
            &&& outcome.checkpoint matches Some(cp) ==> {
                &&& cp.kind == kind
                &&& cp.snapshot@ == snapshot_hash(file_content_hashes@)
                &&& cp.author@ == author@
                &&& cp.timestamp == ts
                &&& cp.entries@.len() == outcome.entries_len
                &&& run_entries(
                    kind,
                    reset,
                    working_log@,
                    files@,
                    file_content_hashes@,
                    match agent_run_result {
                        Some(a) => Some(a.agent_id),
                        None => None,
                    },
                    ts as int,
                    cp.entries@,
                )
                &&& stats_fit(
                    stats_before(log_before(reset, working_log@)),
                    kind,
                    total_added(files@),
                    total_deleted(files@),
                )
                &&& cp.line_stats == stats_plus(
                    stats_before(log_before(reset, working_log@)),
                    kind,
                    total_added(files@),
                    total_deleted(files@),
                )
                &&& match agent_run_result {
                    Some(a) if kind != CheckpointKind::Human => cp.agent_id == Some(a.agent_id)
                        && transcript_view(cp.transcript) == Some(
                        match a.transcript {
                            Some(t) => t@,
                            None => Seq::empty(),
                        },
                    ),
                    _ => cp.agent_id is None && cp.transcript is None,
                }
            }
        },
{
    let empty: Vec<Checkpoint> = Vec::new();
    let before: &Vec<Checkpoint> = if reset {
        &empty
    } else {
        working_log
    };
    assert(before@ =~= log_before(reset, working_log@));
    let agent: Option<&AgentId> = match agent_run_result {
        Some(request) => Some(&request.agent_id),
        None => None,
    };
    let entries = if before.len() == 0 {
        get_initial_checkpoint_entries(kind, files, file_content_hashes, agent, ts)
    } else {
        get_subsequent_checkpoint_entries(kind, files, file_content_hashes, before, agent, ts)
    };
    let entries = match entries {
        Ok(entries) => entries,
        Err(e) => {
            return Err(e);
        },
    };
    let entries_len: usize = entries.len();
    proof {
        if before@.len() == 0 {
            lemma_base_entries_len(
                files@,
                file_content_hashes@,
                author_id_of(kind, agent_of_ref(agent_run_result)),
                ts as int,
                entries@,
            );
        } else {
            lemma_snapshot_entries_len(
                files@,
                file_content_hashes@,
                before@,
                author_id_of(kind, agent_of_ref(agent_run_result)),
                ts as int,
                entries@,
            );
        }
    }
    if entries_len == 0 {
        assert(entries@ =~= Seq::<WorkingLogEntry>::empty());
        return Ok(
            CheckpointOutcome {
                checkpoint: None,
                entries_len: 0,
                files_len: files.len(),
                checkpoints_len: before.len(),
            },
        );
    }
    let line_stats = match compute_line_stats(files, before, kind) {
        Ok(stats) => stats,
        Err(e) => {
            return Err(e);
        },
    };
    let (transcript, agent_id) = match (kind, agent_run_result) {
        (CheckpointKind::Human, _) => (None, None),
        (_, Some(request)) => (
            Some(
                match &request.transcript {
                    Some(t) => t.clone(),
                    None => AiTranscript::new(),
                },
            ),
            Some(request.agent_id.clone()),
        ),
        (_, None) => (None, None),
    };
    if before.len() == usize::MAX {
        return Err(GitAiError::Generic("the working log is full".to_owned()));
    }
    let checkpoint = Checkpoint {
        kind,
        snapshot: combined_snapshot_hash(file_content_hashes),
        author: author.to_owned(),
        timestamp: ts,
        entries,
        transcript,
        agent_id,
        line_stats,
    };
    Ok(
        CheckpointOutcome {
            checkpoint: Some(checkpoint),
            entries_len,
            files_len: files.len(),
            checkpoints_len: before.len() + 1,
        },
    )
}

/// The agent of a request.
pub open spec fn agent_of_ref(request: Option<&AgentRunResult>) -> Option<AgentId> {
    match request {
        Some(r) => Some(r.agent_id),
        None => None,
    }
}

proof fn lemma_base_entries_len(
    files: Seq<TrackedFile>,
    hashes: Seq<(String, String)>,
    author: Seq<char>,
    ts: int,
    entries: Seq<WorkingLogEntry>,
)
    requires
        base_entries(files, hashes, author, ts, entries),
    ensures
        entries.len() == changed_count(files),
        entries.len() <= files.len(),
        forall|i: int|
            0 <= i < files.len() && (#[trigger] files[i]).current_content@
                != files[i].previous_content@ ==> comparable(
                encode_utf8(files[i].previous_content@),
                encode_utf8(files[i].current_content@),
            ),
    decreases files.len(),
{
    if files.len() > 0 {
        assert(forall|i: int|
            0 <= i < files.len() - 1 ==> files.drop_last()[i] == #[trigger] files[i]);
        if files.last().current_content@ == files.last().previous_content@ {
            lemma_base_entries_len(files.drop_last(), hashes, author, ts, entries);
        } else {
            lemma_base_entries_len(files.drop_last(), hashes, author, ts, entries.drop_last());
        }
    }
}

proof fn lemma_snapshot_entries_len(
    files: Seq<TrackedFile>,
    hashes: Seq<(String, String)>,
    previous_checkpoints: Seq<Checkpoint>,
    author: Seq<char>,
    ts: int,
    entries: Seq<WorkingLogEntry>,
)
    requires
        snapshot_entries(files, hashes, previous_checkpoints, author, ts, entries),
    ensures
        entries.len() == changed_count(files),
        entries.len() <= files.len(),
        forall|i: int|
            0 <= i < files.len() && (#[trigger] files[i]).current_content@
                != files[i].previous_content@ ==> comparable(
                encode_utf8(files[i].previous_content@),
                encode_utf8(files[i].current_content@),
            ),
    decreases files.len(),
{
    if files.len() > 0 {
        assert(forall|i: int|
            0 <= i < files.len() - 1 ==> files.drop_last()[i] == #[trigger] files[i]);
        if files.last().current_content@ == files.last().previous_content@ {
            lemma_snapshot_entries_len(
                files.drop_last(),
                hashes,
                previous_checkpoints,
                author,
                ts,
                entries,
            );
        } else {
            lemma_snapshot_entries_len(
                files.drop_last(),
                hashes,
                previous_checkpoints,
                author,
                ts,
                entries.drop_last(),
            );
        }
    }
}

/// The names between the slashes of a path, but for empty ones and single
/// dots.
pub open spec fn components(names: Seq<Seq<char>>) -> Seq<Seq<char>>
    decreases names.len(),
{
    if names.len() == 0 {
        Seq::empty()
    } else if names.last().len() == 0 || names.last() == seq!['.'] {
        components(names.drop_last())
    } else {
        components(names.drop_last()).push(names.last())
    }
}

/// The components of a path.
pub open spec fn path_components(path: Seq<char>) -> Seq<Seq<char>> {
    components(parts(path, Separator::Char('/'), true, true))
}

/// `base` with `names` appended one by one, every `..` taking out the
/// component before it; at the root `..` leads nowhere.
pub open spec fn resolve_onto(base: Seq<Seq<char>>, names: Seq<Seq<char>>) -> Seq<Seq<char>>
    decreases names.len(),
{
    if names.len() == 0 {
        base
    } else {
        let before = resolve_onto(base, names.drop_last());
        if names.last() == seq!['.', '.'] {
            if before.len() > 0 {
                before.drop_last()
            } else {
                before
            }
        } else {
            before.push(names.last())
        }
    }
}

/// The components with every `..` resolved.
pub open spec fn resolved_components(names: Seq<Seq<char>>) -> Seq<Seq<char>> {
    resolve_onto(Seq::empty(), names)
}

proof fn lemma_resolve_onto_concat(base: Seq<Seq<char>>, a: Seq<Seq<char>>, b: Seq<Seq<char>>)
    ensures
        resolve_onto(base, a + b) == resolve_onto(resolve_onto(base, a), b),
    decreases b.len(),
{
    if b.len() == 0 {
        assert(a + b =~= a);
    } else {
        lemma_resolve_onto_concat(base, a, b.drop_last());
        assert((a + b).drop_last() =~= a + b.drop_last());
        assert((a + b).last() == b.last());
    }
}

fn push_resolved(out: &mut Vec<Vec<char>>, names: &Vec<Vec<char>>)
    ensures
        part_views(final(out)@) == resolve_onto(part_views(old(out)@), part_views(names@)),
{
    let ghost base = part_views(out@);
    let ghost all = part_views(names@);
    let mut i: usize = 0;
    while i < names.len()
        invariant
            i <= names@.len(),
            all == part_views(names@),
            part_views(out@) == resolve_onto(base, all.take(i as int)),
        decreases names@.len() - i,
    {
        proof {
            assert(all.take(i + 1).drop_last() =~= all.take(i as int));
            assert(all.take(i + 1).last() == names@[i as int]@);
        }
        let name = &names[i];
        let up: bool = name.len() == 2 && name[0] == '.' && name[1] == '.';
        proof {
            if up {
                assert(name@ =~= seq!['.', '.']);
            }
        }
        let ghost before = out@;
        if up {
            if out.len() > 0 {
                out.pop();
                assert(part_views(out@) =~= part_views(before).drop_last());
            }
        } else {
            let copy = name.clone();
            assert(copy@ =~= name@);
            out.push(copy);
            assert(part_views(out@) =~= part_views(before).push(name@));
        }
        i = i + 1;
    }
    assert(all.take(names@.len() as int) =~= all);
}

/// Whether a path begins with a slash.
pub open spec fn absolute(path: Seq<char>) -> bool {
    path.len() > 0 && path[0] == '/'
}

/// Whether `path` lies in the working tree at `workdir`, going by the names
/// alone: an absolute path does where its components begin with those of the
/// working tree; a relative one where it still does once it is joined to the
/// working tree and every `..` is resolved.
pub open spec fn inside_workdir(workdir: Seq<char>, path: Seq<char>) -> bool {
    if absolute(path) {
        path_components(workdir).is_prefix_of(path_components(path))
    } else {
        path_components(workdir).is_prefix_of(
            resolved_components(path_components(workdir) + path_components(path)),
        )
    }
}

fn split_path(path: &[char]) -> (r: Vec<Vec<char>>)
    ensures
        part_views(r@) == path_components(path@),
{
    let names = split(path, Separator::Char('/'), true, true);
    let ghost all = part_views(names@);
    let mut out: Vec<Vec<char>> = Vec::new();
    let mut i: usize = 0;
    assert(part_views(out@) =~= Seq::<Seq<char>>::empty());
    while i < names.len()
        invariant
            i <= names@.len(),
            all == part_views(names@),
            part_views(out@) == components(all.take(i as int)),
        decreases names@.len() - i,
    {
        proof {
            assert(all.take(i + 1).drop_last() =~= all.take(i as int));
            assert(all.take(i + 1).last() == names@[i as int]@);
        }
        let name = &names[i];
        let skip: bool = name.len() == 0 || (name.len() == 1 && name[0] == '.');
        proof {
            if name@.len() == 1 && name@[0] == '.' {
                assert(name@ =~= seq!['.']);
            }
        }
        if !skip {
            let ghost before = out@;
            let copy = name.clone();
            assert(copy@ =~= name@);
            out.push(copy);
            assert(part_views(out@) =~= part_views(before).push(name@));
        }
        i = i + 1;
    }
    assert(all.take(names@.len() as int) =~= all);
    out
}

fn same_chars(a: &Vec<char>, b: &Vec<char>) -> (r: bool)
    ensures
        r == (a@ == b@),
{
    if a.len() != b.len() {
        return false;
    }
    let mut i: usize = 0;
    while i < a.len()
        invariant
            i <= a@.len(),
            a@.len() == b@.len(),
            forall|k: int| 0 <= k < i ==> a@[k] == b@[k],
        decreases a@.len() - i,
    {
        if a[i] != b[i] {
            return false;
        }
        i = i + 1;
    }
    assert(a@ =~= b@);
    true
}

fn begins_with(all: &Vec<Vec<char>>, start: &Vec<Vec<char>>) -> (r: bool)
    ensures
        r == part_views(start@).is_prefix_of(part_views(all@)),
{
    if start.len() > all.len() {
        return false;
    }
    let mut i: usize = 0;
    while i < start.len()
        invariant
            i <= start@.len(),
            start@.len() <= all@.len(),
            forall|k: int| 0 <= k < i ==> all@[k]@ == start@[k]@,
        decreases start@.len() - i,
    {
        if !same_chars(&all[i], &start[i]) {
            assert(part_views(all@).subrange(0, start@.len() as int)[i as int] != part_views(
                start@,
            )[i as int]);
            return false;
        }
        i = i + 1;
    }
    assert(part_views(all@).subrange(0, start@.len() as int) =~= part_views(start@));
    true
}

/// Whether `path` lies in the working tree at `workdir`, going by the names
/// alone.
pub fn path_in_workdir(workdir: &str, path: &str) -> (r: bool)
    ensures
        r == inside_workdir(workdir@, path@),
{
    let root_chars = chars_of(workdir);
    let path_chars = chars_of(path);
    let root = split_path(root_chars.as_slice());
    let names = split_path(path_chars.as_slice());
    if path_chars.len() > 0 && path_chars[0] == '/' {
        return begins_with(&names, &root);
    }
    let mut out: Vec<Vec<char>> = Vec::new();
    assert(part_views(out@) =~= Seq::<Seq<char>>::empty());
    push_resolved(&mut out, &root);
    push_resolved(&mut out, &names);
    proof {
        lemma_resolve_onto_concat(Seq::empty(), part_views(root@), part_views(names@));
    }
    begins_with(&out, &root)
}

/// The paths that lie in the working tree, in their order.
pub open spec fn paths_inside(workdir: Seq<char>, paths: Seq<Seq<char>>) -> Seq<Seq<char>>
    decreases paths.len(),
{
    if paths.len() == 0 {
        Seq::empty()
    } else if inside_workdir(workdir, paths.last()) {
        paths_inside(workdir, paths.drop_last()).push(paths.last())
    } else {
        paths_inside(workdir, paths.drop_last())
    }
}

/// The paths that a checkpoint is narrowed to: those of the given paths that
/// lie in the working tree; none where none of them does, and the
/// checkpoint then looks at every file.
pub fn filter_paths_in_repo(workdir: &str, paths: &Vec<String>) -> (r: Option<Vec<String>>)
    ensures
        match r {
            Some(kept) => texts(kept@) == paths_inside(workdir@, texts(paths@)) && kept@.len() > 0,
            None => paths_inside(workdir@, texts(paths@)).len() == 0,
        },
{
    let ghost all = texts(paths@);
    let mut out: Vec<String> = Vec::new();
    let mut i: usize = 0;
    assert(texts(out@) =~= Seq::<Seq<char>>::empty());
    while i < paths.len()
        invariant
            i <= paths@.len(),
            all == texts(paths@),
            texts(out@) == paths_inside(workdir@, all.take(i as int)),
        decreases paths@.len() - i,
    {
        proof {
            assert(all.take(i + 1).drop_last() =~= all.take(i as int));
            assert(all.take(i + 1).last() == paths@[i as int]@);
        }
        if path_in_workdir(workdir, paths[i].as_str()) {
            let ghost before = out@;
            out.push(paths[i].clone());
            assert(texts(out@) =~= texts(before).push(paths@[i as int]@));
        }
        i = i + 1;
    }
    assert(all.take(paths@.len() as int) =~= all);
    if out.len() == 0 {
        None
    } else {
        Some(out)
    }
}

/// The paths that an agent names for a checkpoint: those that a person is
/// about to hand over for a checkpoint of a person, else those that the
/// agent has edited.
pub open spec fn named_paths(request: AgentRunResult) -> Option<Vec<String>> {
    if request.checkpoint_kind == CheckpointKind::Human {
        request.will_edit_filepaths
    } else {
        request.edited_filepaths
    }
}

/// The paths that a checkpoint is narrowed to, given what the agent names.
pub fn checkpoint_pathspec(workdir: &str, request: Option<&AgentRunResult>) -> (r: Option<
    Vec<String>,
>)
    ensures
        match (request, r) {
            (Some(req), Some(kept)) => named_paths(*req) matches Some(paths) && texts(kept@)
                == paths_inside(workdir@, texts(paths@)) && kept@.len() > 0,
            (Some(req), None) => named_paths(*req) matches Some(paths) ==> paths_inside(
                workdir@,
                texts(paths@),
            ).len() == 0,
            (None, Some(_)) => false,
            (None, None) => true,
        },
{
    match request {
        Some(req) => {
            let named = if req.checkpoint_kind == CheckpointKind::Human {
                &req.will_edit_filepaths
            } else {
                &req.edited_filepaths
            };
            match named {
                Some(paths) => filter_paths_in_repo(workdir, paths),
                None => None,
            }
        },
        None => None,
    }
}

} // verus!
