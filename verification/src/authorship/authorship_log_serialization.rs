//! The authorship log of a commit.

use vstd::prelude::*;

use crate::text::{holds_str, texts};
use vstd::string::{StrSliceExecFns, StringExecFns, StringSliceAdditionalSpecFns};
use vstd::utf8::encode_utf8;

use crate::authorship::authorship_log::{
    all_lines, commit_lines, compress, compressed, drop_lines_within, expand_all,
    keep_lines_within, lemma_compress_ascending, lemma_compressed_unique, lemma_sort_lines,
    lemma_sorted_compress, lemma_within_compressed, lines_outside,
    lines_within, move_lines, moved_lines,
    ranges_hold, sort_line_numbers, sort_lines, to_commit_lines, LineRange,
};
use crate::authorship::edit_script::EditOp;
use crate::authorship::attribution_tracker::{line_labeled, LineAttribution};
use crate::authorship::transcript::Message;
use crate::authorship::working_log::{
    find_latest_entry, latest_entry, AgentId, Checkpoint, WorkingLogEntry,
};
use crate::utils::{sha256_hex, sha256_hex_digest};

verus! {

/// The text of an optional string.
pub open spec fn option_text(s: Option<String>) -> Option<Seq<char>> {
    match s {
        Some(t) => Some(t@),
        None => None,
    }
}

/// How many characters of a digest make a short hash.
pub const SHORT_HASH_LEN: usize = 16;

/// The first `n` items of `s`, or all of them where there are fewer.
pub open spec fn prefix<T>(s: Seq<T>, n: int) -> Seq<T> {
    if n < s.len() {
        s.take(n)
    } else {
        s
    }
}

/// The short hash of an agent session: the first characters of the SHA-256
/// digest of the tool, a colon, and the session id.
pub open spec fn short_hash(agent_id: Seq<char>, tool: Seq<char>) -> Seq<char> {
    prefix(sha256_hex(encode_utf8(tool + ":"@ + agent_id)), SHORT_HASH_LEN as int)
}

/// The id under which the work of an agent session is attributed.
pub fn generate_short_hash(agent_id: &str, tool: &str) -> (r: String)
    ensures
        r@ == short_hash(agent_id@, tool@),
{
    let mut combined = tool.to_owned();
    combined.append(":");
    combined.append(agent_id);
    let hex = sha256_hex_digest(combined.as_str().as_bytes());
    let n: usize = hex.as_str().unicode_len();
    let k: usize = if n < SHORT_HASH_LEN {
        n
    } else {
        SHORT_HASH_LEN
    };
    let short = hex.as_str().substring_char(0, k);
    assert(hex@.subrange(0, k as int) =~= prefix(hex@, SHORT_HASH_LEN as int));
    short.to_owned()
}

/// The lines of one file that one author has written.
#[derive(Debug, PartialEq, Eq)]
pub struct AttestationEntry {
    /// The short hash of the agent session.
    pub hash: String,
    pub line_ranges: Vec<LineRange>,
}

/// An attestation entry as plain values.
pub struct AttestationEntryView {
    pub hash: Seq<char>,
    pub line_ranges: Seq<LineRange>,
}

impl View for AttestationEntry {
    type V = AttestationEntryView;

    open spec fn view(&self) -> AttestationEntryView {
        AttestationEntryView { hash: self.hash@, line_ranges: self.line_ranges@ }
    }
}

impl Clone for AttestationEntry {
    fn clone(&self) -> (r: Self)
        ensures
            r@ == self@,
    {
        let line_ranges = self.line_ranges.clone();
        assert(line_ranges@ =~= self.line_ranges@);
        AttestationEntry { hash: self.hash.clone(), line_ranges }
    }
}

impl AttestationEntry {
    pub fn new(hash: String, line_ranges: Vec<LineRange>) -> (r: Self)
        ensures
            r@ == (AttestationEntryView { hash: hash@, line_ranges: line_ranges@ }),
    {
        AttestationEntry { hash, line_ranges }
    }
}

/// The entries of a list as plain values.
pub open spec fn attestation_views(entries: Seq<AttestationEntry>) -> Seq<AttestationEntryView> {
    entries.map_values(|e: AttestationEntry| e@)
}

/// What is attested of one file.
#[derive(Debug, PartialEq, Eq)]
pub struct FileAttestation {
    pub file_path: String,
    pub entries: Vec<AttestationEntry>,
}

/// The attestation of a file as plain values.
pub struct FileAttestationView {
    pub file_path: Seq<char>,
    pub entries: Seq<AttestationEntryView>,
}

impl View for FileAttestation {
    type V = FileAttestationView;

    open spec fn view(&self) -> FileAttestationView {
        FileAttestationView { file_path: self.file_path@, entries: attestation_views(self.entries@) }
    }
}

impl FileAttestation {
    pub fn new(file_path: String) -> (r: Self)
        ensures
            r@ == (FileAttestationView { file_path: file_path@, entries: Seq::empty() }),
    {
        let r = FileAttestation { file_path, entries: Vec::new() };
        assert(r@.entries =~= Seq::empty());
        r
    }

    pub fn add_entry(&mut self, entry: AttestationEntry)
        ensures
            final(self)@ == (FileAttestationView {
                entries: old(self)@.entries.push(entry@),
                ..old(self)@
            }),
    {
        self.entries.push(entry);
        assert(self@.entries =~= old(self)@.entries.push(entry@));
    }
}

/// The attestations of a list as plain values.
pub open spec fn file_views(files: Seq<FileAttestation>) -> Seq<FileAttestationView> {
    files.map_values(|f: FileAttestation| f@)
}

/// What is recorded of one agent session.
#[derive(Debug, PartialEq, Eq)]
pub struct PromptRecord {
    pub agent_id: AgentId,
    pub human_author: Option<String>,
    pub messages: Vec<Message>,
    /// How many lines the session wrote that a person has rewritten since.
    pub overriden_lines: u32,
}

/// A prompt record as plain values.
pub struct PromptRecordView {
    pub agent_id: AgentId,
    pub human_author: Option<Seq<char>>,
    pub messages: Seq<Message>,
    pub overriden_lines: int,
}

impl View for PromptRecord {
    type V = PromptRecordView;

    open spec fn view(&self) -> PromptRecordView {
        PromptRecordView {
            agent_id: self.agent_id,
            human_author: option_text(self.human_author),
            messages: self.messages@,
            overriden_lines: self.overriden_lines as int,
        }
    }
}

/// The prompts of a list as plain values: each hash with its record.
pub open spec fn prompt_views(prompts: Seq<(String, PromptRecord)>) -> Seq<
    (Seq<char>, PromptRecordView),
> {
    prompts.map_values(|p: (String, PromptRecord)| (p.0@, p.1@))
}

/// What an authorship log says beside its attestations.
#[derive(Debug, PartialEq, Eq)]
pub struct AuthorshipMetadata {
    pub base_commit_sha: String,
    pub human_author: Option<String>,
    /// The agent sessions by short hash, each hash once.
    pub prompts: Vec<(String, PromptRecord)>,
}

/// The authorship log of a commit.
#[derive(Debug, PartialEq, Eq)]
pub struct AuthorshipLog {
    pub attestations: Vec<FileAttestation>,
    pub metadata: AuthorshipMetadata,
}

/// An authorship log as plain values.
pub struct AuthorshipLogView {
    pub attestations: Seq<FileAttestationView>,
    pub base_commit_sha: Seq<char>,
    pub human_author: Option<Seq<char>>,
    pub prompts: Seq<(Seq<char>, PromptRecordView)>,
}

impl View for AuthorshipLog {
    type V = AuthorshipLogView;

    open spec fn view(&self) -> AuthorshipLogView {
        AuthorshipLogView {
            attestations: file_views(self.attestations@),
            base_commit_sha: self.metadata.base_commit_sha@,
            human_author: option_text(self.metadata.human_author),
            prompts: prompt_views(self.metadata.prompts@),
        }
    }
}

/// Every list of line ranges of the attestations is in compressed form.
pub open spec fn ranges_compressed(files: Seq<FileAttestationView>) -> bool {
    forall|i: int, j: int|
        0 <= i < files.len() && 0 <= j < files[i].entries.len() ==> crate::authorship::authorship_log::compressed(
            (#[trigger] files[i].entries[j]).line_ranges,
        )
}

impl AuthorshipLog {
    /// A log without attestations and prompts.
    pub fn new() -> (r: Self)
        ensures
            r@ == (AuthorshipLogView {
                attestations: Seq::empty(),
                base_commit_sha: Seq::empty(),
                human_author: None,
                prompts: Seq::empty(),
            }),
            r.well_formed(),
    {
        let r = AuthorshipLog {
            attestations: Vec::new(),
            metadata: AuthorshipMetadata {
                base_commit_sha: String::new(),
                human_author: None,
                prompts: Vec::new(),
            },
        };
        assert(r@.attestations =~= Seq::empty());
        assert(r@.prompts =~= Seq::empty());
        r
    }

    /// Every list of line ranges of the log is sorted, its ranges apart from
    /// one another.
    pub open spec fn well_formed(self) -> bool {
        ranges_compressed(self@.attestations)
    }
}

/// The lines that the line attributions give to `author`, in the order of
/// the attributions.
pub open spec fn author_lines(lines: Seq<LineAttribution>, author: Seq<char>) -> Seq<u32>
    decreases lines.len(),
{
    if lines.len() == 0 {
        Seq::empty()
    } else if lines.last().author_id@ == author {
        author_lines(lines.drop_last(), author) + LineRange::Range(
            lines.last().start_line,
            lines.last().end_line,
        ).lines()
    } else {
        author_lines(lines.drop_last(), author)
    }
}

/// The lines that the line attributions give to `author`, as a compressed set.
pub open spec fn author_ranges(lines: Seq<LineAttribution>, author: Seq<char>) -> Seq<LineRange> {
    compress(sort_lines(author_lines(lines, author)))
}

proof fn lemma_run_contains(run: LineRange, l: u32)
    ensures
        run.lines().contains(l) <==> run.holds(l as int),
{
    if run.lines().contains(l) {
        let i = choose|i: int| 0 <= i < run.lines().len() && run.lines()[i] == l;
        assert(run.lines()[i] == (run.first() + i) as u32);
    }
    if run.holds(l as int) {
        let i = l - run.first();
        assert(run.lines()[i] == l);
    }
}

proof fn lemma_author_lines(lines: Seq<LineAttribution>, author: Seq<char>)
    ensures
        forall|l: u32|
            #![trigger author_lines(lines, author).contains(l)]
            author_lines(lines, author).contains(l) <==> line_labeled(lines, l as int, author),
    decreases lines.len(),
{
    if lines.len() == 0 {
        assert forall|l: u32|
            #![trigger author_lines(lines, author).contains(l)]
            author_lines(lines, author).contains(l) <==> line_labeled(
                lines,
                l as int,
                author,
            ) by {}
    } else {
        let init = lines.drop_last();
        let x = lines.last();
        lemma_author_lines(init, author);
        let run = LineRange::Range(x.start_line, x.end_line);
        assert forall|l: u32|
            #![trigger author_lines(lines, author).contains(l)]
            author_lines(lines, author).contains(l) <==> line_labeled(
                lines,
                l as int,
                author,
            ) by {
            lemma_run_contains(run, l);
            let before = author_lines(init, author);
            let all = author_lines(lines, author);
            if all.contains(l) {
                let i = choose|i: int| 0 <= i < all.len() && all[i] == l;
                if i < before.len() {
                    assert(before[i] == l);
                    assert(before.contains(l));
                    let k = choose|k: int|
                        0 <= k < init.len() && (#[trigger] init[k]@).author == author
                            && init[k]@.holds(l as int);
                    assert(lines[k]@.author == author && lines[k]@.holds(l as int));
                } else {
                    assert(x.author_id@ == author);
                    assert(run.lines()[i - before.len()] == l);
                    assert(run.lines().contains(l));
                    assert(lines[lines.len() - 1]@.author == author && lines[lines.len()
                        - 1]@.holds(l as int));
                }
            }
            if line_labeled(lines, l as int, author) {
                let k = choose|k: int|
                    0 <= k < lines.len() && (#[trigger] lines[k]@).author == author
                        && lines[k]@.holds(l as int);
                if k < init.len() {
                    assert(init[k]@.author == author && init[k]@.holds(l as int));
                    assert(before.contains(l));
                    let i = choose|i: int| 0 <= i < before.len() && before[i] == l;
                    assert(all[i] == l);
                } else {
                    assert(run.lines().contains(l));
                    let i = choose|i: int| 0 <= i < run.lines().len() && run.lines()[i] == l;
                    assert(all[before.len() + i] == l);
                }
            }
        }
    }
}

/// The ranges of an author are the compressed form of the lines that the
/// line attributions give to that author.
pub proof fn lemma_author_ranges_hold(lines: Seq<LineAttribution>, author: Seq<char>)
    ensures
        compressed(author_ranges(lines, author)),
        forall|l: int|
            ranges_hold(author_ranges(lines, author), l) <==> line_labeled(lines, l, author),
{
    let given = author_lines(lines, author);
    let sorted = sort_lines(given);
    lemma_author_lines(lines, author);
    lemma_sort_lines(given);
    lemma_compress_ascending(sorted);
    assert forall|l: int|
        ranges_hold(author_ranges(lines, author), l) <==> line_labeled(lines, l, author) by {
        if ranges_hold(author_ranges(lines, author), l) {
            let i = choose|i: int| 0 <= i < sorted.len() && sorted[i] == l;
            assert(sorted.contains(sorted[i]));
            assert(given.contains(sorted[i]));
        }
        if line_labeled(lines, l, author) {
            let k = choose|k: int|
                0 <= k < lines.len() && (#[trigger] lines[k]@).author == author
                    && lines[k]@.holds(l);
            let x = l as u32;
            assert(given.contains(x));
            assert(sorted.contains(x));
            let i = choose|i: int| 0 <= i < sorted.len() && sorted[i] == x;
            assert(sorted[i] == l);
        }
    }
}

/// The ranges of an author depend on the line attributions only through
/// the lines that they give to that author.
pub proof fn lemma_author_ranges_follow_labels(
    first: Seq<LineAttribution>,
    second: Seq<LineAttribution>,
    author: Seq<char>,
)
    requires
        forall|l: int| line_labeled(first, l, author) <==> line_labeled(second, l, author),
    ensures
        author_ranges(first, author) == author_ranges(second, author),
{
    lemma_author_ranges_hold(first, author);
    lemma_author_ranges_hold(second, author);
    let a = author_ranges(first, author);
    let b = author_ranges(second, author);
    assert forall|l: int| ranges_hold(a, l) <==> ranges_hold(b, l) by {
        assert(ranges_hold(a, l) <==> line_labeled(first, l, author));
        assert(ranges_hold(b, l) <==> line_labeled(second, l, author));
        assert(line_labeled(first, l, author) <==> line_labeled(second, l, author));
    }
    lemma_compressed_unique(a, b);
}

/// Computes the compressed set of the lines of `author`.
pub fn ranges_of_author(lines: &Vec<LineAttribution>, author: &String) -> (r: Vec<LineRange>)
    ensures
        r@ == author_ranges(lines@, author@),
{
    let mut all: Vec<u32> = Vec::new();
    let mut i: usize = 0;
    while i < lines.len()
        invariant
            i <= lines@.len(),
            all@ == author_lines(lines@.take(i as int), author@),
        decreases lines@.len() - i,
    {
        proof {
            assert(lines@.take(i + 1).drop_last() =~= lines@.take(i as int));
        }
        if lines[i].author_id == *author {
            let run = LineRange::Range(lines[i].start_line, lines[i].end_line).expand();
            let ghost before = all@;
            all.extend_from_slice(run.as_slice());
            assert(all@ =~= before + run@);
        }
        i = i + 1;
    }
    assert(lines@.take(lines@.len() as int) =~= lines@);
    let sorted = sort_line_numbers(&all);
    LineRange::compress_lines(sorted.as_slice())
}

/// How many lines the runs hold together.
pub open spec fn total_lines(ranges: Seq<LineRange>) -> nat
    decreases ranges.len(),
{
    if ranges.len() == 0 {
        0
    } else {
        total_lines(ranges.drop_last()) + ranges.last().count()
    }
}

/// Counts the lines of the runs.
pub fn count_lines(ranges: &Vec<LineRange>) -> (r: u128)
    ensures
        r == total_lines(ranges@),
{
    let mut total: u128 = 0;
    let mut i: usize = 0;
    while i < ranges.len()
        invariant
            i <= ranges@.len(),
            total == total_lines(ranges@.take(i as int)),
            total <= i * 0x1_0000_0000,
        decreases ranges@.len() - i,
    {
        proof {
            assert(ranges@.take(i + 1).drop_last() =~= ranges@.take(i as int));
        }
        total = total + ranges[i].line_count() as u128;
        i = i + 1;
    }
    assert(ranges@.take(ranges@.len() as int) =~= ranges@);
    total
}

/// The line ranges of changed files: each path with its ranges.
pub type Hunks = Vec<(String, Vec<LineRange>)>;

/// Hunks as plain values.
pub open spec fn hunk_views(hunks: Seq<(String, Vec<LineRange>)>) -> Seq<(Seq<char>, Seq<LineRange>)> {
    hunks.map_values(|h: (String, Vec<LineRange>)| (h.0@, h.1@))
}

/// The ranges that `hunks` hold for `file`: those of the last pair with this
/// path.
pub open spec fn hunks_get(hunks: Seq<(Seq<char>, Seq<LineRange>)>, file: Seq<char>) -> Option<
    Seq<LineRange>,
>
    decreases hunks.len(),
{
    if hunks.len() == 0 {
        None
    } else if hunks.last().0 == file {
        Some(hunks.last().1)
    } else {
        hunks_get(hunks.drop_last(), file)
    }
}

/// Finds the ranges that `hunks` hold for `file`.
pub fn find_hunks<'a>(hunks: &'a Hunks, file: &String) -> (r: Option<&'a Vec<LineRange>>)
    ensures
        match r {
            Some(ranges) => hunks_get(hunk_views(hunks@), file@) == Some(ranges@),
            None => hunks_get(hunk_views(hunks@), file@) is None,
        },
{
    let ghost views = hunk_views(hunks@);
    let mut i: usize = hunks.len();
    assert(views.take(i as int) =~= views);
    while i > 0
        invariant
            i <= hunks@.len(),
            views == hunk_views(hunks@),
            hunks_get(views, file@) == hunks_get(views.take(i as int), file@),
        decreases i,
    {
        proof {
            assert(views.take(i as int).drop_last() =~= views.take(i - 1));
            assert(views.take(i as int).last() == (hunks@[i - 1].0@, hunks@[i - 1].1@));
        }
        if hunks[i - 1].0 == *file {
            return Some(&hunks[i - 1].1);
        }
        i = i - 1;
    }
    None
}

/// How the lines of an attestation are rewritten.
pub enum LineRewrite {
    /// From the coordinates of the working tree to those of the commit, given
    /// the lines of the working tree that the commit lacks.
    ToCommit(Seq<u32>),
    /// Only the lines that the given ranges hold stay.
    Within(Seq<LineRange>),
    /// Along an edit script over lines: a line that the script keeps moves
    /// to its new place, any other line is gone.
    Along(Seq<EditOp>),
    /// The lines that the given ranges hold are gone.
    Without(Seq<LineRange>),
}

impl LineRewrite {
    /// What becomes of `ranges`.
    pub open spec fn apply(self, ranges: Seq<LineRange>) -> Seq<LineRange> {
        match self {
            LineRewrite::ToCommit(unstaged) => compress(
                sort_lines(commit_lines(all_lines(ranges), unstaged)),
            ),
            LineRewrite::Within(kept) => compress(lines_within(all_lines(ranges), kept)),
            LineRewrite::Along(ops) => compress(sort_lines(moved_lines(all_lines(ranges), ops))),
            LineRewrite::Without(gone) => compress(
                sort_lines(lines_outside(all_lines(ranges), gone)),
            ),
        }
    }

    /// What becomes of the entries of a file: each has its lines rewritten,
    /// and an entry without lines is dropped.
    pub open spec fn entries(self, entries: Seq<AttestationEntryView>) -> Seq<AttestationEntryView>
        decreases entries.len(),
    {
        if entries.len() == 0 {
            Seq::empty()
        } else if self.apply(entries.last().line_ranges).len() == 0 {
            self.entries(entries.drop_last())
        } else {
            self.entries(entries.drop_last()).push(
                AttestationEntryView {
                    hash: entries.last().hash,
                    line_ranges: self.apply(entries.last().line_ranges),
                },
            )
        }
    }
}

pub(crate) enum Rewrite<'a> {
    ToCommit(&'a Vec<u32>),
    Within(&'a Vec<LineRange>),
    Along(&'a Vec<EditOp>),
    Without(&'a Vec<LineRange>),
}

impl<'a> Rewrite<'a> {
    pub(crate) open spec fn model(self) -> LineRewrite {
        match self {
            Rewrite::ToCommit(unstaged) => LineRewrite::ToCommit(unstaged@),
            Rewrite::Within(kept) => LineRewrite::Within(kept@),
            Rewrite::Along(ops) => LineRewrite::Along(ops@),
            Rewrite::Without(gone) => LineRewrite::Without(gone@),
        }
    }

    fn apply(&self, ranges: &Vec<LineRange>) -> (r: Vec<LineRange>)
        ensures
            r@ == self.model().apply(ranges@),
    {
        let lines = expand_all(ranges);
        match self {
            Rewrite::ToCommit(unstaged) => {
                let moved = to_commit_lines(&lines, unstaged);
                let sorted = sort_line_numbers(&moved);
                LineRange::compress_lines(sorted.as_slice())
            },
            Rewrite::Within(kept) => {
                let inside = keep_lines_within(&lines, kept);
                LineRange::compress_lines(inside.as_slice())
            },
            Rewrite::Along(ops) => {
                let moved = move_lines(&lines, ops);
                let sorted = sort_line_numbers(&moved);
                LineRange::compress_lines(sorted.as_slice())
            },
            Rewrite::Without(gone) => {
                let left = drop_lines_within(&lines, gone);
                let sorted = sort_line_numbers(&left);
                LineRange::compress_lines(sorted.as_slice())
            },
        }
    }

    pub(crate) fn entries(&self, entries: &Vec<AttestationEntry>) -> (r: Vec<AttestationEntry>)
        ensures
            attestation_views(r@) == self.model().entries(attestation_views(entries@)),
    {
        let ghost views = attestation_views(entries@);
        let mut out: Vec<AttestationEntry> = Vec::new();
        let mut i: usize = 0;
        assert(attestation_views(out@) =~= Seq::<AttestationEntryView>::empty());
        while i < entries.len()
            invariant
                i <= entries@.len(),
                views == attestation_views(entries@),
                attestation_views(out@) == self.model().entries(views.take(i as int)),
            decreases entries@.len() - i,
        {
            proof {
                assert(views.take(i + 1).drop_last() =~= views.take(i as int));
                assert(views.take(i + 1).last() == entries@[i as int]@);
            }
            let ranges = self.apply(&entries[i].line_ranges);
            if ranges.len() > 0 {
                let ghost before = out@;
                let e = AttestationEntry::new(entries[i].hash.clone(), ranges);
                out.push(e);
                assert(attestation_views(out@) =~= attestation_views(before).push(e@));
            }
            i = i + 1;
        }
        assert(views.take(entries@.len() as int) =~= views);
        out
    }
}

/// A copy of a list of attestation entries.
pub fn clone_attestations(entries: &Vec<AttestationEntry>) -> (r: Vec<AttestationEntry>)
    ensures
        attestation_views(r@) == attestation_views(entries@),
{
    let mut out: Vec<AttestationEntry> = Vec::new();
    let mut i: usize = 0;
    while i < entries.len()
        invariant
            i <= entries@.len(),
            out@.len() == i,
            forall|k: int| 0 <= k < i ==> (#[trigger] out@[k])@ == entries@[k]@,
        decreases entries@.len() - i,
    {
        out.push(entries[i].clone());
        i = i + 1;
    }
    assert(attestation_views(out@) =~= attestation_views(entries@));
    out
}

/// The attestations in the coordinates of the commit. The entries of a file
/// with unstaged lines are rewritten; in the end a file without entries is
/// dropped.
pub open spec fn files_to_commit(
    files: Seq<FileAttestationView>,
    unstaged: Seq<(Seq<char>, Seq<LineRange>)>,
) -> Seq<FileAttestationView>
    decreases files.len(),
{
    if files.len() == 0 {
        Seq::empty()
    } else {
        let f = files.last();
        let entries = match hunks_get(unstaged, f.file_path) {
            Some(ranges) => LineRewrite::ToCommit(all_lines(ranges)).entries(f.entries),
            None => f.entries,
        };
        if entries.len() == 0 {
            files_to_commit(files.drop_last(), unstaged)
        } else {
            files_to_commit(files.drop_last(), unstaged).push(
                FileAttestationView { file_path: f.file_path, entries },
            )
        }
    }
}

/// The attestations cut down to the committed lines. A file without
/// committed lines loses all its entries, and a file without entries is
/// dropped.
pub open spec fn files_committed(
    files: Seq<FileAttestationView>,
    committed: Seq<(Seq<char>, Seq<LineRange>)>,
) -> Seq<FileAttestationView>
    decreases files.len(),
{
    if files.len() == 0 {
        Seq::empty()
    } else {
        let f = files.last();
        let entries = match hunks_get(committed, f.file_path) {
            Some(ranges) => LineRewrite::Within(ranges).entries(f.entries),
            None => Seq::empty(),
        };
        if entries.len() == 0 {
            files_committed(files.drop_last(), committed)
        } else {
            files_committed(files.drop_last(), committed).push(
                FileAttestationView { file_path: f.file_path, entries },
            )
        }
    }
}

impl AuthorshipLog {
    /// Takes every line of the log from the coordinates of the working tree
    /// to those of the commit: a line moves up by as many lines as unstaged
    /// lines of its file lie before it.
    pub fn to_commit_coordinates(&mut self, unstaged_hunks: &Hunks)
        ensures
            final(self)@ == (AuthorshipLogView {
                attestations: files_to_commit(old(self)@.attestations, hunk_views(unstaged_hunks@)),
                ..old(self)@
            }),
    {
        let ghost views = file_views(self.attestations@);
        let mut out: Vec<FileAttestation> = Vec::new();
        let mut i: usize = 0;
        assert(file_views(out@) =~= Seq::<FileAttestationView>::empty());
        while i < self.attestations.len()
            invariant
                i <= self.attestations@.len(),
                *self == *old(self),
                views == file_views(self.attestations@),
                file_views(out@) == files_to_commit(views.take(i as int), hunk_views(unstaged_hunks@)),
            decreases self.attestations@.len() - i,
        {
            proof {
                assert(views.take(i + 1).drop_last() =~= views.take(i as int));
                assert(views.take(i + 1).last() == self.attestations@[i as int]@);
            }
            let file = &self.attestations[i];
            let entries = match find_hunks(unstaged_hunks, &file.file_path) {
                Some(ranges) => {
                    let unstaged = expand_all(ranges);
                    Rewrite::ToCommit(&unstaged).entries(&file.entries)
                },
                None => clone_attestations(&file.entries),
            };
            if entries.len() > 0 {
                let ghost before = out@;
                let f = FileAttestation { file_path: file.file_path.clone(), entries };
                out.push(f);
                assert(file_views(out@) =~= file_views(before).push(f@));
            }
            i = i + 1;
        }
        assert(views.take(self.attestations@.len() as int) =~= views);
        self.attestations = out;
    }

    /// Cuts the log down to the lines that the commit has added.
    pub fn filter_to_committed_lines(&mut self, committed_hunks: &Hunks)
        ensures
            final(self)@ == (AuthorshipLogView {
                attestations: files_committed(
                    old(self)@.attestations,
                    hunk_views(committed_hunks@),
                ),
                ..old(self)@
            }),
    {
        let ghost views = file_views(self.attestations@);
        let none: Vec<LineRange> = Vec::new();
        let mut out: Vec<FileAttestation> = Vec::new();
        let mut i: usize = 0;
        assert(file_views(out@) =~= Seq::<FileAttestationView>::empty());
        while i < self.attestations.len()
            invariant
                i <= self.attestations@.len(),
                *self == *old(self),
                views == file_views(self.attestations@),
                file_views(out@) == files_committed(
                    views.take(i as int),
                    hunk_views(committed_hunks@),
                ),
            decreases self.attestations@.len() - i,
        {
            proof {
                assert(views.take(i + 1).drop_last() =~= views.take(i as int));
                assert(views.take(i + 1).last() == self.attestations@[i as int]@);
            }
            let file = &self.attestations[i];
            let entries = match find_hunks(committed_hunks, &file.file_path) {
                Some(ranges) => Rewrite::Within(ranges).entries(&file.entries),
                None => Vec::new(),
            };
            if entries.len() > 0 {
                let ghost before = out@;
                let f = FileAttestation { file_path: file.file_path.clone(), entries };
                out.push(f);
                assert(file_views(out@) =~= file_views(before).push(f@));
            }
            i = i + 1;
        }
        assert(views.take(self.attestations@.len() as int) =~= views);
        self.attestations = out;
    }
}

/// Where `prompts` hold `key`: the index of the last pair with this hash, or
/// -1 where there is none.
pub open spec fn key_index(prompts: Seq<(Seq<char>, PromptRecordView)>, key: Seq<char>) -> int
    decreases prompts.len(),
{
    if prompts.len() == 0 {
        -1
    } else if prompts.last().0 == key {
        prompts.len() - 1
    } else {
        key_index(prompts.drop_last(), key)
    }
}

/// `prompts` with `record` under `key`: in the place of the record that was
/// there, or at the end.
pub open spec fn upsert(
    prompts: Seq<(Seq<char>, PromptRecordView)>,
    key: Seq<char>,
    record: PromptRecordView,
) -> Seq<(Seq<char>, PromptRecordView)> {
    if key_index(prompts, key) >= 0 {
        prompts.update(key_index(prompts, key), (key, record))
    } else {
        prompts.push((key, record))
    }
}

proof fn lemma_key_index(prompts: Seq<(Seq<char>, PromptRecordView)>, key: Seq<char>)
    ensures
        -1 <= key_index(prompts, key) < prompts.len(),
        key_index(prompts, key) >= 0 ==> prompts[key_index(prompts, key)].0 == key,
    decreases prompts.len(),
{
    if prompts.len() > 0 && prompts.last().0 != key {
        lemma_key_index(prompts.drop_last(), key);
    }
}

/// What a checkpoint of an agent says of its session.
pub open spec fn session_record(
    checkpoint: Checkpoint,
    agent: AgentId,
    human_author: Option<Seq<char>>,
) -> PromptRecordView {
    PromptRecordView {
        agent_id: agent,
        human_author,
        messages: match checkpoint.transcript {
            Some(t) => t@,
            None => Seq::empty(),
        },
        overriden_lines: 0,
    }
}

/// The agent sessions of a working log by short hash, in the order in which
/// they first occur, each with the transcript of its last checkpoint.
pub open spec fn session_prompts(checkpoints: Seq<Checkpoint>, human_author: Option<Seq<char>>) -> Seq<
    (Seq<char>, PromptRecordView),
>
    decreases checkpoints.len(),
{
    if checkpoints.len() == 0 {
        Seq::empty()
    } else {
        let before = session_prompts(checkpoints.drop_last(), human_author);
        match checkpoints.last().agent_id {
            Some(agent) => upsert(
                before,
                short_hash(agent.id@, agent.tool@),
                session_record(checkpoints.last(), agent, human_author),
            ),
            None => before,
        }
    }
}

fn find_prompt(prompts: &Vec<(String, PromptRecord)>, key: &String) -> (r: Option<usize>)
    ensures
        match r {
            Some(i) => key_index(prompt_views(prompts@), key@) == i,
            None => key_index(prompt_views(prompts@), key@) == -1,
        },
{
    let ghost views = prompt_views(prompts@);
    let mut i: usize = prompts.len();
    assert(views.take(i as int) =~= views);
    while i > 0
        invariant
            i <= prompts@.len(),
            views == prompt_views(prompts@),
            key_index(views, key@) == key_index(views.take(i as int), key@),
        decreases i,
    {
        proof {
            assert(views.take(i as int).drop_last() =~= views.take(i - 1));
            assert(views.take(i as int).last() == (prompts@[i - 1].0@, prompts@[i - 1].1@));
        }
        if prompts[i - 1].0 == *key {
            return Some(i - 1);
        }
        i = i - 1;
    }
    None
}

fn collect_prompts(checkpoints: &Vec<Checkpoint>, human_author: &Option<String>) -> (r: Vec<
    (String, PromptRecord),
>)
    ensures
        prompt_views(r@) == session_prompts(checkpoints@, option_text(*human_author)),
{
    let mut prompts: Vec<(String, PromptRecord)> = Vec::new();
    let mut i: usize = 0;
    assert(prompt_views(prompts@) =~= Seq::<(Seq<char>, PromptRecordView)>::empty());
    while i < checkpoints.len()
        invariant
            i <= checkpoints@.len(),
            prompt_views(prompts@) == session_prompts(
                checkpoints@.take(i as int),
                option_text(*human_author),
            ),
        decreases checkpoints@.len() - i,
    {
        proof {
            assert(checkpoints@.take(i + 1).drop_last() =~= checkpoints@.take(i as int));
        }
        let cp = &checkpoints[i];
        match &cp.agent_id {
            Some(agent) => {
                let hash = generate_short_hash(agent.id.as_str(), agent.tool.as_str());
                let messages: Vec<Message> = match &cp.transcript {
                    Some(t) => {
                        let m = t.messages().clone();
                        assert(m@ =~= t@);
                        m
                    },
                    None => Vec::new(),
                };
                let record = PromptRecord {
                    agent_id: agent.clone(),
                    human_author: human_author.clone(),
                    messages,
                    overriden_lines: 0,
                };
                assert(record@ == session_record(*cp, *agent, option_text(*human_author)));
                let ghost before = prompts@;
                match find_prompt(&prompts, &hash) {
                    Some(at) => {
                        proof {
                            lemma_key_index(prompt_views(before), hash@);
                        }
                        prompts.set(at, (hash, record));
                        assert(prompt_views(prompts@) =~= prompt_views(before).update(
                            at as int,
                            (hash@, record@),
                        ));
                    },
                    None => {
                        prompts.push((hash, record));
                        assert(prompt_views(prompts@) =~= prompt_views(before).push(
                            (hash@, record@),
                        ));
                    },
                }
            },
            None => {},
        }
        i = i + 1;
    }
    assert(checkpoints@.take(checkpoints@.len() as int) =~= checkpoints@);
    prompts
}

/// `seen` with the files of `entries` that it lacks, in their order.
pub open spec fn entry_files(entries: Seq<WorkingLogEntry>, seen: Seq<Seq<char>>) -> Seq<Seq<char>>
    decreases entries.len(),
{
    if entries.len() == 0 {
        seen
    } else {
        let before = entry_files(entries.drop_last(), seen);
        if before.contains(entries.last().file@) {
            before
        } else {
            before.push(entries.last().file@)
        }
    }
}

/// The files of a working log, each once, in the order in which they first
/// occur.
pub open spec fn logged_files(checkpoints: Seq<Checkpoint>) -> Seq<Seq<char>>
    decreases checkpoints.len(),
{
    if checkpoints.len() == 0 {
        Seq::empty()
    } else {
        entry_files(checkpoints.last().entries@, logged_files(checkpoints.drop_last()))
    }
}

/// Lists the files of a working log.
pub fn files_of_working_log(checkpoints: &Vec<Checkpoint>) -> (r: Vec<String>)
    ensures
        texts(r@) == logged_files(checkpoints@),
{
    let mut files: Vec<String> = Vec::new();
    let mut i: usize = 0;
    assert(texts(files@) =~= Seq::<Seq<char>>::empty());
    while i < checkpoints.len()
        invariant
            i <= checkpoints@.len(),
            texts(files@) == logged_files(checkpoints@.take(i as int)),
        decreases checkpoints@.len() - i,
    {
        proof {
            assert(checkpoints@.take(i + 1).drop_last() =~= checkpoints@.take(i as int));
        }
        let entries = &checkpoints[i].entries;
        let ghost start = texts(files@);
        let mut j: usize = 0;
        while j < entries.len()
            invariant
                j <= entries@.len(),
                texts(files@) == entry_files(entries@.take(j as int), start),
            decreases entries@.len() - j,
        {
            proof {
                assert(entries@.take(j + 1).drop_last() =~= entries@.take(j as int));
            }
            if !holds_str(&files, entries[j].file.as_str()) {
                let ghost before = files@;
                files.push(entries[j].file.clone());
                assert(texts(files@) =~= texts(before).push(entries@[j as int].file@));
            }
            j = j + 1;
        }
        assert(entries@.take(entries@.len() as int) =~= entries@);
        i = i + 1;
    }
    assert(checkpoints@.take(checkpoints@.len() as int) =~= checkpoints@);
    files
}

/// What the line attributions of a file attest: for each hash, in the given
/// order, the lines of that author; a hash without lines has no entry.
pub open spec fn file_entries(lines: Seq<LineAttribution>, hashes: Seq<Seq<char>>) -> Seq<
    AttestationEntryView,
>
    decreases hashes.len(),
{
    if hashes.len() == 0 {
        Seq::empty()
    } else {
        let before = file_entries(lines, hashes.drop_last());
        let ranges = author_ranges(lines, hashes.last());
        if ranges.len() == 0 {
            before
        } else {
            before.push(AttestationEntryView { hash: hashes.last(), line_ranges: ranges })
        }
    }
}

/// Whether two lists of line attributions give the same lines to the same
/// authors, in whatever order and pieces they say so.
pub open spec fn same_labels(first: Seq<LineAttribution>, second: Seq<LineAttribution>) -> bool {
    forall|l: int, author: Seq<char>| #[trigger]
        line_labeled(first, l, author) <==> line_labeled(second, l, author)
}

/// What is attested of a file depends on the line attributions only
/// through the lines that they give to each author.
pub proof fn lemma_file_entries_follow_labels(
    first: Seq<LineAttribution>,
    second: Seq<LineAttribution>,
    hashes: Seq<Seq<char>>,
)
    requires
        same_labels(first, second),
    ensures
        file_entries(first, hashes) == file_entries(second, hashes),
    decreases hashes.len(),
{
    if hashes.len() > 0 {
        lemma_file_entries_follow_labels(first, second, hashes.drop_last());
        let author = hashes.last();
        assert forall|l: int| line_labeled(first, l, author) <==> line_labeled(
            second,
            l,
            author,
        ) by {}
        lemma_author_ranges_follow_labels(first, second, author);
    }
}

/// What a working log attests of `files`: for each file, what its latest
/// entry attests; a file without attested lines is left out.
pub open spec fn built_files(
    checkpoints: Seq<Checkpoint>,
    files: Seq<Seq<char>>,
    hashes: Seq<Seq<char>>,
) -> Seq<FileAttestationView>
    decreases files.len(),
{
    if files.len() == 0 {
        Seq::empty()
    } else {
        let before = built_files(checkpoints, files.drop_last(), hashes);
        let entries = match latest_entry(checkpoints, files.last()) {
            Some(e) => file_entries(e.line_attributions@, hashes),
            None => Seq::empty(),
        };
        if entries.len() == 0 {
            before
        } else {
            before.push(FileAttestationView { file_path: files.last(), entries })
        }
    }
}

/// The hashes of a list of prompts.
pub open spec fn prompt_hashes(prompts: Seq<(Seq<char>, PromptRecordView)>) -> Seq<Seq<char>> {
    prompts.map_values(|p: (Seq<char>, PromptRecordView)| p.0)
}

fn build_file_entries(lines: &Vec<LineAttribution>, prompts: &Vec<(String, PromptRecord)>) -> (r:
    Vec<AttestationEntry>)
    ensures
        attestation_views(r@) == file_entries(lines@, prompt_hashes(prompt_views(prompts@))),
{
    let ghost hashes = prompt_hashes(prompt_views(prompts@));
    let mut out: Vec<AttestationEntry> = Vec::new();
    let mut i: usize = 0;
    assert(attestation_views(out@) =~= Seq::<AttestationEntryView>::empty());
    while i < prompts.len()
        invariant
            i <= prompts@.len(),
            hashes == prompt_hashes(prompt_views(prompts@)),
            attestation_views(out@) == file_entries(lines@, hashes.take(i as int)),
        decreases prompts@.len() - i,
    {
        proof {
            assert(hashes.take(i + 1).drop_last() =~= hashes.take(i as int));
            assert(hashes.take(i + 1).last() == prompts@[i as int].0@);
        }
        let ranges = ranges_of_author(lines, &prompts[i].0);
        if ranges.len() > 0 {
            let ghost before = out@;
            let e = AttestationEntry::new(prompts[i].0.clone(), ranges);
            out.push(e);
            assert(attestation_views(out@) =~= attestation_views(before).push(e@));
        }
        i = i + 1;
    }
    assert(hashes.take(prompts@.len() as int) =~= hashes);
    out
}

fn build_files(
    checkpoints: &Vec<Checkpoint>,
    files: &Vec<String>,
    prompts: &Vec<(String, PromptRecord)>,
) -> (r: Vec<FileAttestation>)
    ensures
        file_views(r@) == built_files(
            checkpoints@,
            texts(files@),
            prompt_hashes(prompt_views(prompts@)),
        ),
{
    let ghost paths = texts(files@);
    let ghost hashes = prompt_hashes(prompt_views(prompts@));
    let mut out: Vec<FileAttestation> = Vec::new();
    let mut i: usize = 0;
    assert(file_views(out@) =~= Seq::<FileAttestationView>::empty());
    while i < files.len()
        invariant
            i <= files@.len(),
            paths == texts(files@),
            hashes == prompt_hashes(prompt_views(prompts@)),
            file_views(out@) == built_files(checkpoints@, paths.take(i as int), hashes),
        decreases files@.len() - i,
    {
        proof {
            assert(paths.take(i + 1).drop_last() =~= paths.take(i as int));
            assert(paths.take(i + 1).last() == files@[i as int]@);
        }
        let entries = match find_latest_entry(checkpoints, &files[i]) {
            Some(e) => build_file_entries(&e.line_attributions, prompts),
            None => Vec::new(),
        };
        if entries.len() > 0 {
            let ghost before = out@;
            let f = FileAttestation { file_path: files[i].clone(), entries };
            out.push(f);
            assert(file_views(out@) =~= file_views(before).push(f@));
        }
        i = i + 1;
    }
    assert(paths.take(files@.len() as int) =~= paths);
    out
}

/// What a working log attests: for each of its files, what the latest entry
/// of the file attests of the agent sessions of the log.
pub open spec fn built_attestations(checkpoints: Seq<Checkpoint>, human_author: Option<Seq<char>>) -> Seq<
    FileAttestationView,
> {
    built_files(
        checkpoints,
        logged_files(checkpoints),
        prompt_hashes(session_prompts(checkpoints, human_author)),
    )
}

/// A count, taken as the greatest number of 128 bits where it exceeds it.
pub open spec fn capped(x: int) -> int {
    if x > u128::MAX {
        u128::MAX as int
    } else {
        x
    }
}

/// How many lines the entries give to `hash`, over all their files.
pub open spec fn claimed_lines(entries: Seq<WorkingLogEntry>, hash: Seq<char>) -> int
    decreases entries.len(),
{
    if entries.len() == 0 {
        0
    } else {
        capped(
            claimed_lines(entries.drop_last(), hash) + capped(
                total_lines(author_ranges(entries.last().line_attributions@, hash)) as int,
            ),
        )
    }
}

/// How many lines the session `hash` had written when it last took a
/// checkpoint.
pub open spec fn session_claim(checkpoints: Seq<Checkpoint>, hash: Seq<char>) -> int
    decreases checkpoints.len(),
{
    if checkpoints.len() == 0 {
        0
    } else {
        match checkpoints.last().agent_id {
            Some(agent) if short_hash(agent.id@, agent.tool@) == hash => claimed_lines(
                checkpoints.last().entries@,
                hash,
            ),
            _ => session_claim(checkpoints.drop_last(), hash),
        }
    }
}

/// How many lines the entries of one file attest to `hash`.
pub open spec fn attested_in_file(entries: Seq<AttestationEntryView>, hash: Seq<char>) -> int
    decreases entries.len(),
{
    if entries.len() == 0 {
        0
    } else if entries.last().hash == hash {
        capped(
            attested_in_file(entries.drop_last(), hash) + capped(
                total_lines(entries.last().line_ranges) as int,
            ),
        )
    } else {
        attested_in_file(entries.drop_last(), hash)
    }
}

/// How many lines the attestations give to `hash`.
pub open spec fn attested_lines(files: Seq<FileAttestationView>, hash: Seq<char>) -> int
    decreases files.len(),
{
    if files.len() == 0 {
        0
    } else {
        capped(
            attested_lines(files.drop_last(), hash) + attested_in_file(files.last().entries, hash),
        )
    }
}

/// How many lines of the session `hash` a person has rewritten: those that
/// the session had written at its last checkpoint and that are no longer
/// attested to it. At most the greatest number of 32 bits.
pub open spec fn overridden_lines(
    checkpoints: Seq<Checkpoint>,
    files: Seq<FileAttestationView>,
    hash: Seq<char>,
) -> int {
    let claim = session_claim(checkpoints, hash);
    let rest = attested_lines(files, hash);
    if claim <= rest {
        0
    } else if claim - rest > u32::MAX {
        u32::MAX as int
    } else {
        claim - rest
    }
}

/// The prompts, each with the count of its overridden lines.
pub open spec fn with_overridden(
    prompts: Seq<(Seq<char>, PromptRecordView)>,
    checkpoints: Seq<Checkpoint>,
    files: Seq<FileAttestationView>,
) -> Seq<(Seq<char>, PromptRecordView)> {
    prompts.map_values(
        |p: (Seq<char>, PromptRecordView)|
            (
                p.0,
                PromptRecordView {
                    overriden_lines: overridden_lines(checkpoints, files, p.0),
                    ..p.1
                },
            ),
    )
}

fn cap_add(a: u128, b: u128) -> (r: u128)
    ensures
        r == capped(a + b),
{
    if b > u128::MAX - a {
        u128::MAX
    } else {
        a + b
    }
}

fn count_claimed(entries: &Vec<WorkingLogEntry>, hash: &String) -> (r: u128)
    ensures
        r == claimed_lines(entries@, hash@),
{
    let mut total: u128 = 0;
    let mut i: usize = 0;
    while i < entries.len()
        invariant
            i <= entries@.len(),
            total == claimed_lines(entries@.take(i as int), hash@),
        decreases entries@.len() - i,
    {
        proof {
            assert(entries@.take(i + 1).drop_last() =~= entries@.take(i as int));
        }
        let ranges = ranges_of_author(&entries[i].line_attributions, hash);
        total = cap_add(total, count_lines(&ranges));
        i = i + 1;
    }
    assert(entries@.take(entries@.len() as int) =~= entries@);
    total
}

fn count_session_claim(checkpoints: &Vec<Checkpoint>, hash: &String) -> (r: u128)
    ensures
        r == session_claim(checkpoints@, hash@),
{
    let mut i: usize = checkpoints.len();
    assert(checkpoints@.take(i as int) =~= checkpoints@);
    while i > 0
        invariant
            i <= checkpoints@.len(),
            session_claim(checkpoints@, hash@) == session_claim(checkpoints@.take(i as int), hash@),
        decreases i,
    {
        proof {
            assert(checkpoints@.take(i as int).drop_last() =~= checkpoints@.take(i - 1));
        }
        let cp = &checkpoints[i - 1];
        match &cp.agent_id {
            Some(agent) => {
                let h = generate_short_hash(agent.id.as_str(), agent.tool.as_str());
                if h == *hash {
                    return count_claimed(&cp.entries, hash);
                }
            },
            None => {},
        }
        i = i - 1;
    }
    0
}

fn count_attested(files: &Vec<FileAttestation>, hash: &String) -> (r: u128)
    ensures
        r == attested_lines(file_views(files@), hash@),
{
    let ghost views = file_views(files@);
    let mut total: u128 = 0;
    let mut i: usize = 0;
    while i < files.len()
        invariant
            i <= files@.len(),
            views == file_views(files@),
            total == attested_lines(views.take(i as int), hash@),
        decreases files@.len() - i,
    {
        proof {
            assert(views.take(i + 1).drop_last() =~= views.take(i as int));
            assert(views.take(i + 1).last() == files@[i as int]@);
        }
        let entries = &files[i].entries;
        let ghost entry_views = attestation_views(entries@);
        let mut in_file: u128 = 0;
        let mut j: usize = 0;
        while j < entries.len()
            invariant
                j <= entries@.len(),
                entry_views == attestation_views(entries@),
                in_file == attested_in_file(entry_views.take(j as int), hash@),
            decreases entries@.len() - j,
        {
            proof {
                assert(entry_views.take(j + 1).drop_last() =~= entry_views.take(j as int));
                assert(entry_views.take(j + 1).last() == entries@[j as int]@);
            }
            if entries[j].hash == *hash {
                in_file = cap_add(in_file, count_lines(&entries[j].line_ranges));
            }
            j = j + 1;
        }
        assert(entry_views.take(entries@.len() as int) =~= entry_views);
        total = cap_add(total, in_file);
        i = i + 1;
    }
    assert(views.take(files@.len() as int) =~= views);
    total
}

/// No hash has two prompts: the list stands for a map from hashes to
/// prompts.
pub open spec fn distinct_hashes(prompts: Seq<(Seq<char>, PromptRecordView)>) -> bool {
    forall|i: int, j: int|
        0 <= i < j < prompts.len() ==> (#[trigger] prompts[i]).0 != (#[trigger] prompts[j]).0
}

proof fn lemma_key_absent(prompts: Seq<(Seq<char>, PromptRecordView)>, key: Seq<char>)
    ensures
        key_index(prompts, key) == -1 ==> forall|k: int|
            0 <= k < prompts.len() ==> (#[trigger] prompts[k]).0 != key,
    decreases prompts.len(),
{
    if prompts.len() > 0 && prompts.last().0 != key {
        lemma_key_absent(prompts.drop_last(), key);
        assert forall|k: int| 0 <= k < prompts.len() - 1 implies prompts.drop_last()[k]
            == #[trigger] prompts[k] by {}
    }
}

proof fn lemma_session_prompts_distinct(
    checkpoints: Seq<Checkpoint>,
    human_author: Option<Seq<char>>,
)
    ensures
        distinct_hashes(session_prompts(checkpoints, human_author)),
    decreases checkpoints.len(),
{
    if checkpoints.len() > 0 {
        lemma_session_prompts_distinct(checkpoints.drop_last(), human_author);
        let before = session_prompts(checkpoints.drop_last(), human_author);
        match checkpoints.last().agent_id {
            Some(agent) => {
                let key = short_hash(agent.id@, agent.tool@);
                lemma_key_index(before, key);
                lemma_key_absent(before, key);
            },
            None => {},
        }
    }
}

/// The prompts that stay are prompts that were there, so that no hash comes
/// to have two.
pub proof fn lemma_attested_prompts_distinct(
    prompts: Seq<(Seq<char>, PromptRecordView)>,
    files: Seq<FileAttestationView>,
)
    requires
        distinct_hashes(prompts),
    ensures
        distinct_hashes(attested_prompts(prompts, files)),
        forall|k: int|
            0 <= k < attested_prompts(prompts, files).len() ==> exists|i: int|
                0 <= i < prompts.len() && prompts[i] == #[trigger] attested_prompts(
                    prompts,
                    files,
                )[k],
    decreases prompts.len(),
{
    if prompts.len() > 0 {
        let init = prompts.drop_last();
        assert(distinct_hashes(init)) by {
            assert forall|i: int, j: int| 0 <= i < j < init.len() implies (#[trigger] init[i]).0
                != (#[trigger] init[j]).0 by {
                assert(prompts[i].0 != prompts[j].0);
            }
        }
        lemma_attested_prompts_distinct(init, files);
        let kept = attested_prompts(init, files);
        let all = attested_prompts(prompts, files);
        assert forall|k: int| 0 <= k < all.len() implies exists|i: int|
            0 <= i < prompts.len() && prompts[i] == #[trigger] all[k] by {
            if k < kept.len() {
                let i = choose|i: int| 0 <= i < init.len() && init[i] == kept[k];
                assert(prompts[i] == all[k]);
            } else {
                assert(prompts[prompts.len() - 1] == all[k]);
            }
        }
        assert forall|a: int, b: int| 0 <= a < b < all.len() implies (#[trigger] all[a]).0
            != (#[trigger] all[b]).0 by {
            if b >= kept.len() {
                let i = choose|i: int| 0 <= i < init.len() && init[i] == kept[a];
                assert(prompts[i].0 != prompts[prompts.len() - 1].0);
            }
        }
    }
}

/// The prompts of the log that a working log amounts to name every session
/// once, as the keys of a map do.
pub proof fn lemma_built_prompts_are_distinct(
    checkpoints: Seq<Checkpoint>,
    base_commit_sha: Seq<char>,
    human_author: Option<Seq<char>>,
)
    ensures
        distinct_hashes(built_log(checkpoints, base_commit_sha, human_author).prompts),
{
    lemma_session_prompts_distinct(checkpoints, human_author);
}

/// The authorship log that a working log amounts to, before any line is
/// moved or dropped.
pub open spec fn built_log(
    checkpoints: Seq<Checkpoint>,
    base_commit_sha: Seq<char>,
    human_author: Option<Seq<char>>,
) -> AuthorshipLogView {
    AuthorshipLogView {
        attestations: built_attestations(checkpoints, human_author),
        base_commit_sha,
        human_author,
        prompts: with_overridden(
            session_prompts(checkpoints, human_author),
            checkpoints,
            built_attestations(checkpoints, human_author),
        ),
    }
}

impl AuthorshipLog {
    /// Builds the authorship log of a working log. There is one prompt for
    /// each agent session of the log, and for each file the lines that the
    /// latest entry of the file gives to each session. Lines of any other
    /// author are not attested: they count as written by a person.
    pub fn from_working_log_with_base_commit_and_human_author(
        checkpoints: &Vec<Checkpoint>,
        base_commit_sha: &str,
        human_author: Option<&str>,
    ) -> (r: Self)
        ensures
            r@ == built_log(
                checkpoints@,
                base_commit_sha@,
                match human_author {
                    Some(a) => Some(a@),
                    None => None,
                },
            ),
    {
        let author: Option<String> = match human_author {
            Some(a) => Some(a.to_owned()),
            None => None,
        };
        let mut prompts = collect_prompts(checkpoints, &author);
        let files = files_of_working_log(checkpoints);
        let attestations = build_files(checkpoints, &files, &prompts);
        let ghost plain = prompt_views(prompts@);
        let n: usize = prompts.len();
        let mut i: usize = 0;
        while i < n
            invariant
                i <= n,
                n == prompts@.len(),
                plain.len() == n,
                prompt_hashes(prompt_views(prompts@)) == prompt_hashes(plain),
                forall|k: int|
                    0 <= k < i ==> (#[trigger] prompt_views(prompts@)[k]) == with_overridden(
                        plain,
                        checkpoints@,
                        file_views(attestations@),
                    )[k],
                forall|k: int|
                    i <= k < n ==> (#[trigger] prompt_views(prompts@)[k]) == plain[k],
            decreases n - i,
        {
            let claim = count_session_claim(checkpoints, &prompts[i].0);
            let rest = count_attested(&attestations, &prompts[i].0);
            let overridden: u32 = if claim <= rest {
                0
            } else if claim - rest > 0xffff_ffff {
                0xffff_ffff
            } else {
                (claim - rest) as u32
            };
            let ghost before = prompts@;
            let record = PromptRecord {
                agent_id: prompts[i].1.agent_id.clone(),
                human_author: prompts[i].1.human_author.clone(),
                messages: prompts[i].1.messages.clone(),
                overriden_lines: overridden,
            };
            assert(record.messages@ =~= before[i as int].1.messages@);
            let hash = prompts[i].0.clone();
            prompts.set(i, (hash, record));
            proof {
                assert(prompt_views(before)[i as int] == plain[i as int]);
                assert(prompt_hashes(prompt_views(prompts@)) =~= prompt_hashes(plain)) by {
                    assert forall|k: int| 0 <= k < n implies prompt_hashes(
                        prompt_views(prompts@),
                    )[k] == prompt_hashes(plain)[k] by {
                        if k != i {
                            assert(prompt_views(prompts@)[k] == prompt_views(before)[k]);
                        }
                        assert(prompt_hashes(prompt_views(before))[k] == prompt_hashes(plain)[k]);
                    }
                }
                assert forall|k: int| 0 <= k < i + 1 implies (#[trigger] prompt_views(
                    prompts@,
                )[k]) == with_overridden(plain, checkpoints@, file_views(attestations@))[k] by {
                    if k < i {
                        assert(prompt_views(prompts@)[k] == prompt_views(before)[k]);
                    }
                }
                assert forall|k: int| i + 1 <= k < n implies (#[trigger] prompt_views(
                    prompts@,
                )[k]) == plain[k] by {
                    assert(prompt_views(prompts@)[k] == prompt_views(before)[k]);
                }
            }
            i = i + 1;
        }
        let log = AuthorshipLog {
            attestations,
            metadata: AuthorshipMetadata {
                base_commit_sha: base_commit_sha.to_owned(),
                human_author: author,
                prompts,
            },
        };
        assert(log@.prompts =~= with_overridden(
            plain,
            checkpoints@,
            file_views(log.attestations@),
        ));
        log
    }
}

/// Whether some entry of some file attests lines to `hash`.
pub open spec fn hash_attested(files: Seq<FileAttestationView>, hash: Seq<char>) -> bool {
    exists|i: int, j: int|
        0 <= i < files.len() && 0 <= j < files[i].entries.len() && (#[trigger] files[i].entries[j]).hash
            == hash
}

/// The prompts whose hash is attested, in their order.
pub open spec fn attested_prompts(
    prompts: Seq<(Seq<char>, PromptRecordView)>,
    files: Seq<FileAttestationView>,
) -> Seq<(Seq<char>, PromptRecordView)>
    decreases prompts.len(),
{
    if prompts.len() == 0 {
        Seq::empty()
    } else if hash_attested(files, prompts.last().0) {
        attested_prompts(prompts.drop_last(), files).push(prompts.last())
    } else {
        attested_prompts(prompts.drop_last(), files)
    }
}

fn is_attested(files: &Vec<FileAttestation>, hash: &String) -> (r: bool)
    ensures
        r == hash_attested(file_views(files@), hash@),
{
    let ghost views = file_views(files@);
    let mut i: usize = 0;
    while i < files.len()
        invariant
            i <= files@.len(),
            views == file_views(files@),
            forall|a: int, b: int|
                0 <= a < i && 0 <= b < views[a].entries.len() ==> (#[trigger] views[a].entries[b]).hash
                    != hash@,
        decreases files@.len() - i,
    {
        let entries = &files[i].entries;
        let mut j: usize = 0;
        while j < entries.len()
            invariant
                j <= entries@.len(),
                i < files@.len(),
                views == file_views(files@),
                views[i as int].entries == attestation_views(entries@),
                forall|b: int|
                    0 <= b < j ==> (#[trigger] views[i as int].entries[b]).hash != hash@,
            decreases entries@.len() - j,
        {
            if entries[j].hash == *hash {
                assert(views[i as int].entries[j as int].hash == hash@);
                return true;
            }
            j = j + 1;
        }
        i = i + 1;
    }
    false
}

impl AuthorshipLog {
    /// Drops the prompts of sessions to which no line is attested.
    pub fn retain_attested_prompts(&mut self)
        ensures
            final(self)@ == (AuthorshipLogView {
                prompts: attested_prompts(old(self)@.prompts, old(self)@.attestations),
                ..old(self)@
            }),
    {
        let ghost views = prompt_views(self.metadata.prompts@);
        let ghost files = file_views(self.attestations@);
        let mut kept: Vec<(String, PromptRecord)> = Vec::new();
        let mut i: usize = 0;
        assert(prompt_views(kept@) =~= Seq::<(Seq<char>, PromptRecordView)>::empty());
        while i < self.metadata.prompts.len()
            invariant
                i <= self.metadata.prompts@.len(),
                *self == *old(self),
                views == prompt_views(self.metadata.prompts@),
                files == file_views(self.attestations@),
                prompt_views(kept@) == attested_prompts(views.take(i as int), files),
            decreases self.metadata.prompts@.len() - i,
        {
            proof {
                assert(views.take(i + 1).drop_last() =~= views.take(i as int));
                assert(views.take(i + 1).last() == (
                    self.metadata.prompts@[i as int].0@,
                    self.metadata.prompts@[i as int].1@,
                ));
            }
            let p = &self.metadata.prompts[i];
            if is_attested(&self.attestations, &p.0) {
                let ghost before = kept@;
                let record = PromptRecord {
                    agent_id: p.1.agent_id.clone(),
                    human_author: p.1.human_author.clone(),
                    messages: p.1.messages.clone(),
                    overriden_lines: p.1.overriden_lines,
                };
                assert(record.messages@ =~= p.1.messages@);
                let pair = (p.0.clone(), record);
                kept.push(pair);
                assert(prompt_views(kept@) =~= prompt_views(before).push((pair.0@, pair.1@)));
            }
            i = i + 1;
        }
        assert(views.take(self.metadata.prompts@.len() as int) =~= views);
        self.metadata.prompts = kept;
    }
}

/// Every hash of the attestations is among `hashes`.
pub open spec fn hashes_within(files: Seq<FileAttestationView>, hashes: Seq<Seq<char>>) -> bool {
    forall|i: int, j: int|
        0 <= i < files.len() && 0 <= j < files[i].entries.len() ==> hashes.contains(
            (#[trigger] files[i].entries[j]).hash,
        )
}

/// Every hash of the entries is among `hashes`, and every list of line
/// ranges is in compressed form.
pub open spec fn entries_sound(entries: Seq<AttestationEntryView>, hashes: Seq<Seq<char>>) -> bool {
    forall|j: int|
        0 <= j < entries.len() ==> hashes.contains((#[trigger] entries[j]).hash) && compressed(
            entries[j].line_ranges,
        )
}

/// Every file has sound entries.
pub open spec fn files_sound(files: Seq<FileAttestationView>, hashes: Seq<Seq<char>>) -> bool {
    forall|i: int| 0 <= i < files.len() ==> entries_sound((#[trigger] files[i]).entries, hashes)
}

proof fn lemma_file_entries_sound(lines: Seq<LineAttribution>, hashes: Seq<Seq<char>>)
    ensures
        entries_sound(file_entries(lines, hashes), hashes),
    decreases hashes.len(),
{
    if hashes.len() > 0 {
        let init = hashes.drop_last();
        lemma_file_entries_sound(lines, init);
        lemma_sorted_compress(author_lines(lines, hashes.last()));
        let before = file_entries(lines, init);
        let all = file_entries(lines, hashes);
        assert forall|j: int| 0 <= j < all.len() implies hashes.contains((#[trigger] all[j]).hash)
            && compressed(all[j].line_ranges) by {
            if j < before.len() {
                assert(init.contains(before[j].hash));
                let w = choose|w: int| 0 <= w < init.len() && init[w] == before[j].hash;
                assert(hashes[w] == all[j].hash);
            } else {
                assert(hashes[hashes.len() - 1] == all[j].hash);
            }
        }
    }
}

/// What a working log attests is sound: every hash is one of the given
/// hashes, and every list of line ranges is in compressed form.
pub proof fn lemma_built_files_sound(
    checkpoints: Seq<Checkpoint>,
    files: Seq<Seq<char>>,
    hashes: Seq<Seq<char>>,
)
    ensures
        files_sound(built_files(checkpoints, files, hashes), hashes),
    decreases files.len(),
{
    if files.len() > 0 {
        lemma_built_files_sound(checkpoints, files.drop_last(), hashes);
        match latest_entry(checkpoints, files.last()) {
            Some(e) => {
                lemma_file_entries_sound(e.line_attributions@, hashes);
            },
            None => {},
        }
        let before = built_files(checkpoints, files.drop_last(), hashes);
        let all = built_files(checkpoints, files, hashes);
        assert forall|i: int| 0 <= i < all.len() implies entries_sound(
            (#[trigger] all[i]).entries,
            hashes,
        ) by {
            if i < before.len() {
                assert(entries_sound(before[i].entries, hashes));
            }
        }
    }
}

/// Whether every line of the entries is held by `kept`.
pub open spec fn entries_inside(entries: Seq<AttestationEntryView>, kept: Seq<LineRange>) -> bool {
    forall|j: int, l: int|
        0 <= j < entries.len() && ranges_hold((#[trigger] entries[j]).line_ranges, l)
            ==> #[trigger] ranges_hold(kept, l)
}

/// Rewriting the lines of sound entries leaves them sound; what is cut down
/// to ranges lies within them.
pub proof fn lemma_rewrite_sound(
    rewrite: LineRewrite,
    entries: Seq<AttestationEntryView>,
    hashes: Seq<Seq<char>>,
)
    requires
        entries_sound(entries, hashes),
    ensures
        entries_sound(rewrite.entries(entries), hashes),
        rewrite matches LineRewrite::Within(kept) ==> entries_inside(rewrite.entries(entries), kept),
    decreases entries.len(),
{
    if entries.len() > 0 {
        let init = entries.drop_last();
        assert(entries_sound(init, hashes)) by {
            assert forall|j: int| 0 <= j < init.len() implies hashes.contains(
                (#[trigger] init[j]).hash,
            ) && compressed(init[j].line_ranges) by {
                assert(init[j] == entries[j]);
            }
        }
        lemma_rewrite_sound(rewrite, init, hashes);
        let last = entries.last();
        assert(last == entries[entries.len() - 1]);
        match rewrite {
            LineRewrite::ToCommit(unstaged) => {
                lemma_sorted_compress(commit_lines(all_lines(last.line_ranges), unstaged));
            },
            LineRewrite::Within(kept) => {
                lemma_within_compressed(last.line_ranges, kept);
            },
            LineRewrite::Along(ops) => {
                lemma_sorted_compress(moved_lines(all_lines(last.line_ranges), ops));
            },
            LineRewrite::Without(gone) => {
                lemma_sorted_compress(lines_outside(all_lines(last.line_ranges), gone));
            },
        }
        let before = rewrite.entries(init);
        let all = rewrite.entries(entries);
        assert forall|j: int| 0 <= j < all.len() implies hashes.contains((#[trigger] all[j]).hash)
            && compressed(all[j].line_ranges) by {
            if j < before.len() {
                assert(hashes.contains(before[j].hash));
            }
        }
        if let LineRewrite::Within(kept) = rewrite {
            assert forall|j: int, l: int|
                0 <= j < all.len() && ranges_hold(
                    (#[trigger] all[j]).line_ranges,
                    l,
                ) implies #[trigger] ranges_hold(kept, l) by {
                if j < before.len() {
                    assert(ranges_hold(before[j].line_ranges, l));
                }
            }
        }
    }
}

/// Taking sound attestations to the coordinates of the commit leaves them
/// sound.
pub proof fn lemma_to_commit_sound(
    files: Seq<FileAttestationView>,
    unstaged: Seq<(Seq<char>, Seq<LineRange>)>,
    hashes: Seq<Seq<char>>,
)
    requires
        files_sound(files, hashes),
    ensures
        files_sound(files_to_commit(files, unstaged), hashes),
    decreases files.len(),
{
    if files.len() > 0 {
        let init = files.drop_last();
        assert(files_sound(init, hashes)) by {
            assert forall|i: int| 0 <= i < init.len() implies entries_sound(
                (#[trigger] init[i]).entries,
                hashes,
            ) by {
                assert(init[i] == files[i]);
            }
        }
        lemma_to_commit_sound(init, unstaged, hashes);
        let f = files.last();
        assert(f == files[files.len() - 1]);
        match hunks_get(unstaged, f.file_path) {
            Some(ranges) => {
                lemma_rewrite_sound(LineRewrite::ToCommit(all_lines(ranges)), f.entries, hashes);
            },
            None => {},
        }
        let before = files_to_commit(init, unstaged);
        let all = files_to_commit(files, unstaged);
        assert forall|i: int| 0 <= i < all.len() implies entries_sound(
            (#[trigger] all[i]).entries,
            hashes,
        ) by {
            if i < before.len() {
                assert(entries_sound(before[i].entries, hashes));
            }
        }
    }
}

/// The committed lines of `file`; none where the commit has added no line to
/// the file.
pub open spec fn committed_ranges(committed: Seq<(Seq<char>, Seq<LineRange>)>, file: Seq<char>) -> Seq<
    LineRange,
> {
    match hunks_get(committed, file) {
        Some(ranges) => ranges,
        None => Seq::empty(),
    }
}

/// Every attested line of every file is a committed line of that file.
pub open spec fn files_inside(
    files: Seq<FileAttestationView>,
    committed: Seq<(Seq<char>, Seq<LineRange>)>,
) -> bool {
    forall|i: int|
        0 <= i < files.len() ==> entries_inside(
            (#[trigger] files[i]).entries,
            committed_ranges(committed, files[i].file_path),
        )
}

/// Cutting sound attestations down to the committed lines leaves them sound,
/// and every line that is left is a committed line of its file.
pub proof fn lemma_committed_sound(
    files: Seq<FileAttestationView>,
    committed: Seq<(Seq<char>, Seq<LineRange>)>,
    hashes: Seq<Seq<char>>,
)
    requires
        files_sound(files, hashes),
    ensures
        files_sound(files_committed(files, committed), hashes),
        files_inside(files_committed(files, committed), committed),
    decreases files.len(),
{
    if files.len() > 0 {
        let init = files.drop_last();
        assert(files_sound(init, hashes)) by {
            assert forall|i: int| 0 <= i < init.len() implies entries_sound(
                (#[trigger] init[i]).entries,
                hashes,
            ) by {
                assert(init[i] == files[i]);
            }
        }
        lemma_committed_sound(init, committed, hashes);
        let f = files.last();
        assert(f == files[files.len() - 1]);
        match hunks_get(committed, f.file_path) {
            Some(ranges) => {
                lemma_rewrite_sound(LineRewrite::Within(ranges), f.entries, hashes);
            },
            None => {},
        }
        let before = files_committed(init, committed);
        let all = files_committed(files, committed);
        assert forall|i: int| 0 <= i < all.len() implies entries_sound(
            (#[trigger] all[i]).entries,
            hashes,
        ) && entries_inside(all[i].entries, committed_ranges(committed, all[i].file_path)) by {
            if i < before.len() {
                assert(entries_sound(before[i].entries, hashes));
                assert(entries_inside(
                    before[i].entries,
                    committed_ranges(committed, before[i].file_path),
                ));
            }
        }
    }
}

/// A prompt whose hash is attested is among the attested prompts.
pub proof fn lemma_attested_prompt_kept(
    prompts: Seq<(Seq<char>, PromptRecordView)>,
    files: Seq<FileAttestationView>,
    hash: Seq<char>,
)
    requires
        prompt_hashes(prompts).contains(hash),
        hash_attested(files, hash),
    ensures
        prompt_hashes(attested_prompts(prompts, files)).contains(hash),
    decreases prompts.len(),
{
    let w = choose|w: int| 0 <= w < prompts.len() && prompt_hashes(prompts)[w] == hash;
    let kept = attested_prompts(prompts, files);
    if prompts.last().0 == hash {
        assert(prompt_hashes(kept)[kept.len() - 1] == hash);
    } else {
        let init = prompts.drop_last();
        assert(prompt_hashes(init)[w] == hash);
        lemma_attested_prompt_kept(init, files, hash);
        let before = attested_prompts(init, files);
        let m = choose|m: int| 0 <= m < before.len() && prompt_hashes(before)[m] == hash;
        assert(prompt_hashes(kept)[m] == hash);
    }
}

/// All line ranges that `later` attests of `path`, attestation by
/// attestation and entry by entry.
pub open spec fn later_ranges(later: Seq<FileAttestationView>, path: Seq<char>) -> Seq<LineRange>
    decreases later.len(),
{
    if later.len() == 0 {
        Seq::empty()
    } else if later.last().file_path == path {
        later_ranges(later.drop_last(), path) + entry_ranges(later.last().entries)
    } else {
        later_ranges(later.drop_last(), path)
    }
}

/// The line ranges of all entries, entry by entry.
pub open spec fn entry_ranges(entries: Seq<AttestationEntryView>) -> Seq<LineRange>
    decreases entries.len(),
{
    if entries.len() == 0 {
        Seq::empty()
    } else {
        entry_ranges(entries.drop_last()) + entries.last().line_ranges
    }
}

/// All entries that `later` attests of `path`.
pub open spec fn later_entries(later: Seq<FileAttestationView>, path: Seq<char>) -> Seq<
    AttestationEntryView,
>
    decreases later.len(),
{
    if later.len() == 0 {
        Seq::empty()
    } else if later.last().file_path == path {
        later_entries(later.drop_last(), path) + later.last().entries
    } else {
        later_entries(later.drop_last(), path)
    }
}

/// Whether some attestation speaks of `path`.
pub open spec fn speaks_of(files: Seq<FileAttestationView>, path: Seq<char>) -> bool {
    exists|i: int| 0 <= i < files.len() && (#[trigger] files[i]).file_path == path
}

/// The attestations of `base` under those of `later`: each file of `base`
/// loses the lines that `later` attests of it and gains the entries of
/// `later`; a file that is left without entries is dropped.
pub open spec fn base_under(base: Seq<FileAttestationView>, later: Seq<FileAttestationView>) -> Seq<
    FileAttestationView,
>
    decreases base.len(),
{
    if base.len() == 0 {
        Seq::empty()
    } else {
        let f = base.last();
        let entries = LineRewrite::Without(later_ranges(later, f.file_path)).entries(f.entries)
            + later_entries(later, f.file_path);
        if entries.len() == 0 {
            base_under(base.drop_last(), later)
        } else {
            base_under(base.drop_last(), later).push(
                FileAttestationView { file_path: f.file_path, entries },
            )
        }
    }
}

/// The attestations of `later` for files that `base` does not speak of.
pub open spec fn new_files(base: Seq<FileAttestationView>, later: Seq<FileAttestationView>) -> Seq<
    FileAttestationView,
>
    decreases later.len(),
{
    if later.len() == 0 {
        Seq::empty()
    } else if speaks_of(base, later.last().file_path) {
        new_files(base, later.drop_last())
    } else {
        new_files(base, later.drop_last()).push(later.last())
    }
}

/// The prompts of `base` with those of `later` put in, one by one: a prompt
/// of a hash that is there takes its place, any other is appended.
pub open spec fn prompts_with(
    base: Seq<(Seq<char>, PromptRecordView)>,
    later: Seq<(Seq<char>, PromptRecordView)>,
) -> Seq<(Seq<char>, PromptRecordView)>
    decreases later.len(),
{
    if later.len() == 0 {
        base
    } else {
        upsert(prompts_with(base, later.drop_last()), later.last().0, later.last().1)
    }
}

/// A copy of a list of prompts.
pub fn clone_prompts(prompts: &Vec<(String, PromptRecord)>) -> (r: Vec<(String, PromptRecord)>)
    ensures
        prompt_views(r@) == prompt_views(prompts@),
{
    let mut out: Vec<(String, PromptRecord)> = Vec::new();
    let mut k: usize = 0;
    while k < prompts.len()
        invariant
            k <= prompts@.len(),
            out@.len() == k,
            forall|j: int|
                0 <= j < k ==> (#[trigger] out@[j]).0@ == prompts@[j].0@ && out@[j].1@
                    == prompts@[j].1@,
        decreases prompts@.len() - k,
    {
        let p = &prompts[k];
        let record = PromptRecord {
            agent_id: p.1.agent_id.clone(),
            human_author: p.1.human_author.clone(),
            messages: p.1.messages.clone(),
            overriden_lines: p.1.overriden_lines,
        };
        assert(record.messages@ =~= p.1.messages@);
        out.push((p.0.clone(), record));
        k = k + 1;
    }
    assert(prompt_views(out@) =~= prompt_views(prompts@));
    out
}

/// A copy of a list of attestations.
pub fn clone_files(files: &Vec<FileAttestation>) -> (r: Vec<FileAttestation>)
    ensures
        file_views(r@) == file_views(files@),
{
    let mut out: Vec<FileAttestation> = Vec::new();
    let mut k: usize = 0;
    while k < files.len()
        invariant
            k <= files@.len(),
            out@.len() == k,
            forall|j: int| 0 <= j < k ==> (#[trigger] out@[j])@ == files@[j]@,
        decreases files@.len() - k,
    {
        out.push(
            FileAttestation {
                file_path: files[k].file_path.clone(),
                entries: clone_attestations(&files[k].entries),
            },
        );
        k = k + 1;
    }
    assert(file_views(out@) =~= file_views(files@));
    out
}

impl Clone for AuthorshipLog {
    fn clone(&self) -> (r: Self)
        ensures
            r@ == self@,
    {
        AuthorshipLog {
            attestations: clone_files(&self.attestations),
            metadata: AuthorshipMetadata {
                base_commit_sha: self.metadata.base_commit_sha.clone(),
                human_author: self.metadata.human_author.clone(),
                prompts: clone_prompts(&self.metadata.prompts),
            },
        }
    }
}

/// `base` under `later`, the later attestation of a line counting.
pub open spec fn overlaid(base: AuthorshipLogView, later: AuthorshipLogView) -> AuthorshipLogView {
    AuthorshipLogView {
        attestations: base_under(base.attestations, later.attestations) + new_files(
            base.attestations,
            later.attestations,
        ),
        prompts: prompts_with(base.prompts, later.prompts),
        ..base
    }
}

fn collect_later_ranges(later: &Vec<FileAttestation>, path: &String) -> (r: Vec<LineRange>)
    ensures
        r@ == later_ranges(file_views(later@), path@),
{
    let ghost views = file_views(later@);
    let mut out: Vec<LineRange> = Vec::new();
    let mut i: usize = 0;
    while i < later.len()
        invariant
            i <= later@.len(),
            views == file_views(later@),
            out@ == later_ranges(views.take(i as int), path@),
        decreases later@.len() - i,
    {
        proof {
            assert(views.take(i + 1).drop_last() =~= views.take(i as int));
            assert(views.take(i + 1).last() == later@[i as int]@);
        }
        if later[i].file_path == *path {
            let entries = &later[i].entries;
            let ghost entry_views = attestation_views(entries@);
            let ghost start = out@;
            let mut j: usize = 0;
            while j < entries.len()
                invariant
                    j <= entries@.len(),
                    entry_views == attestation_views(entries@),
                    out@ == start + entry_ranges(entry_views.take(j as int)),
                decreases entries@.len() - j,
            {
                proof {
                    assert(entry_views.take(j + 1).drop_last() =~= entry_views.take(j as int));
                    assert(entry_views.take(j + 1).last() == entries@[j as int]@);
                }
                let ghost before = out@;
                out.extend_from_slice(entries[j].line_ranges.as_slice());
                assert(out@ =~= before + entries@[j as int].line_ranges@);
                j = j + 1;
            }
            assert(entry_views.take(entries@.len() as int) =~= entry_views);
        }
        i = i + 1;
    }
    assert(views.take(later@.len() as int) =~= views);
    out
}

fn push_later_entries(out: &mut Vec<AttestationEntry>, later: &Vec<FileAttestation>, path: &String)
    ensures
        attestation_views(final(out)@) == attestation_views(old(out)@) + later_entries(
            file_views(later@),
            path@,
        ),
{
    let ghost views = file_views(later@);
    let ghost start = attestation_views(out@);
    let mut i: usize = 0;
    assert(attestation_views(out@) =~= start + Seq::<AttestationEntryView>::empty());
    while i < later.len()
        invariant
            i <= later@.len(),
            views == file_views(later@),
            attestation_views(out@) == start + later_entries(views.take(i as int), path@),
        decreases later@.len() - i,
    {
        proof {
            assert(views.take(i + 1).drop_last() =~= views.take(i as int));
            assert(views.take(i + 1).last() == later@[i as int]@);
        }
        if later[i].file_path == *path {
            let entries = &later[i].entries;
            let ghost so_far = attestation_views(out@);
            let mut j: usize = 0;
            while j < entries.len()
                invariant
                    j <= entries@.len(),
                    attestation_views(out@) == so_far + attestation_views(entries@).take(j as int),
                decreases entries@.len() - j,
            {
                let ghost before = out@;
                let e = entries[j].clone();
                out.push(e);
                assert(attestation_views(out@) =~= attestation_views(before).push(e@));
                assert(attestation_views(entries@).take(j + 1) =~= attestation_views(
                    entries@,
                ).take(j as int).push(entries@[j as int]@));
                j = j + 1;
            }
            assert(attestation_views(entries@).take(entries@.len() as int) =~= attestation_views(
                entries@,
            ));
        }
        i = i + 1;
    }
    assert(views.take(later@.len() as int) =~= views);
}

fn is_spoken_of(files: &Vec<FileAttestation>, path: &String) -> (r: bool)
    ensures
        r == speaks_of(file_views(files@), path@),
{
    let mut i: usize = 0;
    while i < files.len()
        invariant
            i <= files@.len(),
            forall|k: int| 0 <= k < i ==> (#[trigger] file_views(files@)[k]).file_path != path@,
        decreases files@.len() - i,
    {
        if files[i].file_path == *path {
            assert(file_views(files@)[i as int].file_path == path@);
            return true;
        }
        i = i + 1;
    }
    false
}

impl AuthorshipLog {
    /// Lays the attestations of `later` over this log, the later attestation
    /// of a line counting: the files of this log lose the lines that `later`
    /// attests and gain its entries, files that only `later` speaks of
    /// follow, and the prompts of `later` are put in.
    pub fn overlay(&mut self, later: &AuthorshipLog)
        ensures
            final(self)@ == overlaid(old(self)@, later@),
    {
        let ghost base = file_views(self.attestations@);
        let ghost over = file_views(later.attestations@);
        let mut out: Vec<FileAttestation> = Vec::new();
        let mut i: usize = 0;
        assert(file_views(out@) =~= Seq::<FileAttestationView>::empty());
        while i < self.attestations.len()
            invariant
                i <= self.attestations@.len(),
                *self == *old(self),
                base == file_views(self.attestations@),
                over == file_views(later.attestations@),
                file_views(out@) == base_under(base.take(i as int), over),
            decreases self.attestations@.len() - i,
        {
            proof {
                assert(base.take(i + 1).drop_last() =~= base.take(i as int));
                assert(base.take(i + 1).last() == self.attestations@[i as int]@);
            }
            let file = &self.attestations[i];
            let gone = collect_later_ranges(&later.attestations, &file.file_path);
            let mut entries = Rewrite::Without(&gone).entries(&file.entries);
            push_later_entries(&mut entries, &later.attestations, &file.file_path);
            if entries.len() > 0 {
                let ghost before = out@;
                let f = FileAttestation { file_path: file.file_path.clone(), entries };
                out.push(f);
                assert(file_views(out@) =~= file_views(before).push(f@));
            }
            i = i + 1;
        }
        assert(base.take(self.attestations@.len() as int) =~= base);
        let ghost head = file_views(out@);
        let mut k: usize = 0;
        assert(file_views(out@) =~= head + Seq::<FileAttestationView>::empty());
        while k < later.attestations.len()
            invariant
                k <= later.attestations@.len(),
                *self == *old(self),
                base == file_views(self.attestations@),
                over == file_views(later.attestations@),
                file_views(out@) == head + new_files(base, over.take(k as int)),
            decreases later.attestations@.len() - k,
        {
            proof {
                assert(over.take(k + 1).drop_last() =~= over.take(k as int));
                assert(over.take(k + 1).last() == later.attestations@[k as int]@);
            }
            let file = &later.attestations[k];
            if !is_spoken_of(&self.attestations, &file.file_path) {
                let ghost before = out@;
                let f = FileAttestation {
                    file_path: file.file_path.clone(),
                    entries: clone_attestations(&file.entries),
                };
                out.push(f);
                assert(file_views(out@) =~= file_views(before).push(f@));
            }
            k = k + 1;
        }
        assert(over.take(later.attestations@.len() as int) =~= over);
        let ghost given = prompt_views(self.metadata.prompts@);
        let ghost more = prompt_views(later.metadata.prompts@);
        let mut prompts = clone_prompts(&self.metadata.prompts);
        assert(prompt_views(prompts@) =~= given);
        let mut b: usize = 0;
        while b < later.metadata.prompts.len()
            invariant
                b <= later.metadata.prompts@.len(),
                *self == *old(self),
                given == prompt_views(self.metadata.prompts@),
                more == prompt_views(later.metadata.prompts@),
                prompt_views(prompts@) == prompts_with(given, more.take(b as int)),
            decreases later.metadata.prompts@.len() - b,
        {
            proof {
                assert(more.take(b + 1).drop_last() =~= more.take(b as int));
                assert(more.take(b + 1).last() == (
                    later.metadata.prompts@[b as int].0@,
                    later.metadata.prompts@[b as int].1@,
                ));
            }
            let p = &later.metadata.prompts[b];
            let record = PromptRecord {
                agent_id: p.1.agent_id.clone(),
                human_author: p.1.human_author.clone(),
                messages: p.1.messages.clone(),
                overriden_lines: p.1.overriden_lines,
            };
            assert(record.messages@ =~= p.1.messages@);
            let hash = p.0.clone();
            let ghost before = prompts@;
            match find_prompt(&prompts, &hash) {
                Some(at) => {
                    proof {
                        lemma_key_index(prompt_views(before), hash@);
                    }
                    prompts.set(at, (hash, record));
                    assert(prompt_views(prompts@) =~= prompt_views(before).update(
                        at as int,
                        (hash@, record@),
                    ));
                },
                None => {
                    prompts.push((hash, record));
                    assert(prompt_views(prompts@) =~= prompt_views(before).push((hash@, record@)));
                },
            }
            b = b + 1;
        }
        assert(more.take(later.metadata.prompts@.len() as int) =~= more);
        self.attestations = out;
        self.metadata.prompts = prompts;
    }
}

} // verus!
