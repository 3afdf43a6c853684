//! Byte-range attributions and how they follow a file through an edit.

use vstd::prelude::*;
use vstd::string::StringSliceAdditionalSpecFns;

use crate::authorship::edit_script::{
    byte_script, capture_line_diff, check_script, lemma_tiles_ordered, lines_of, myers_diff,
    script_matches, script_tiles, split_lines, to_byte_script, EditOp,
};
use crate::error::GitAiError;
use crate::text::{as_ints, compute_line_bounds, lemma_line_bounds, line_bounds, line_count};

verus! {

/// Who wrote the bytes `start..end` of a file, and when.
#[derive(Debug, PartialEq, Eq)]
pub struct Attribution {
    pub start: usize,
    pub end: usize,
    pub author_id: String,
    pub timestamp: u128,
}

/// An attribution as plain mathematical values.
pub struct AttributionView {
    pub start: int,
    pub end: int,
    pub author: Seq<char>,
    pub timestamp: int,
}

impl View for Attribution {
    type V = AttributionView;

    open spec fn view(&self) -> AttributionView {
        AttributionView {
            start: self.start as int,
            end: self.end as int,
            author: self.author_id@,
            timestamp: self.timestamp as int,
        }
    }
}

impl Clone for Attribution {
    fn clone(&self) -> (r: Self)
        ensures
            r == *self,
    {
        Attribution {
            start: self.start,
            end: self.end,
            author_id: self.author_id.clone(),
            timestamp: self.timestamp,
        }
    }
}

impl AttributionView {
    /// Whether the range holds position `p`.
    pub open spec fn covers(self, p: int) -> bool {
        self.start <= p < self.end
    }

    /// Whether the range holds `p` and carries the given author and time.
    pub open spec fn marks(self, p: int, author: Seq<char>, ts: int) -> bool {
        self.covers(p) && self.author == author && self.timestamp == ts
    }
}

impl Attribution {
    pub fn new(start: usize, end: usize, author_id: String, timestamp: u128) -> (r: Self)
        ensures
            r == (Attribution { start, end, author_id, timestamp }),
    {
        Attribution { start, end, author_id, timestamp }
    }
}

/// The author of the lines `start_line..=end_line` of a file, counted from 1.
#[derive(Debug, PartialEq, Eq)]
pub struct LineAttribution {
    pub start_line: u32,
    pub end_line: u32,
    pub author_id: String,
}

/// A line attribution as plain mathematical values.
pub struct LineAttributionView {
    pub start_line: int,
    pub end_line: int,
    pub author: Seq<char>,
}

impl View for LineAttribution {
    type V = LineAttributionView;

    open spec fn view(&self) -> LineAttributionView {
        LineAttributionView {
            start_line: self.start_line as int,
            end_line: self.end_line as int,
            author: self.author_id@,
        }
    }
}

impl Clone for LineAttribution {
    fn clone(&self) -> (r: Self)
        ensures
            r == *self,
    {
        LineAttribution {
            start_line: self.start_line,
            end_line: self.end_line,
            author_id: self.author_id.clone(),
        }
    }
}

impl LineAttributionView {
    /// Whether the range holds line `l`.
    pub open spec fn holds(self, l: int) -> bool {
        self.start_line <= l <= self.end_line
    }
}

impl LineAttribution {
    pub fn new(start_line: u32, end_line: u32, author_id: String) -> (r: Self)
        ensures
            r == (LineAttribution { start_line, end_line, author_id }),
    {
        LineAttribution { start_line, end_line, author_id }
    }
}

/// Whether some attribution of `attrs` holds position `p`.
pub open spec fn covered(attrs: Seq<Attribution>, p: int) -> bool {
    exists|i: int| 0 <= i < attrs.len() && (#[trigger] attrs[i]@).covers(p)
}

/// Whether some attribution of `attrs` holds position `p` for `author` at
/// time `ts`.
pub open spec fn labeled(attrs: Seq<Attribution>, p: int, author: Seq<char>, ts: int) -> bool {
    exists|i: int| 0 <= i < attrs.len() && (#[trigger] attrs[i]@).marks(p, author, ts)
}

/// Every attribution is non-empty and ends within `len` bytes.
pub open spec fn within(attrs: Seq<Attribution>, len: int) -> bool {
    forall|i: int|
        0 <= i < attrs.len() ==> (#[trigger] attrs[i]@).start < attrs[i]@.end && attrs[i]@.end
            <= len
}

/// Two lists of attributions that agree entry by entry.
pub open spec fn same_attributions(a: Seq<Attribution>, b: Seq<Attribution>) -> bool {
    a.len() == b.len() && forall|i: int| 0 <= i < a.len() ==> (#[trigger] a[i]@) == b[i]@
}

/// An attribution that is appended adds what it says, and nothing else.
pub proof fn lemma_labeled_push(attrs: Seq<Attribution>, a: Attribution)
    ensures
        forall|p: int, author: Seq<char>, ts: int| #[trigger]
            labeled(attrs.push(a), p, author, ts) <==> labeled(attrs, p, author, ts) || a@.marks(
                p,
                author,
                ts,
            ),
        forall|p: int| #[trigger]
            covered(attrs.push(a), p) <==> covered(attrs, p) || a@.covers(p),
{
    let ext = attrs.push(a);
    assert forall|p: int, author: Seq<char>, ts: int| #[trigger]
        labeled(ext, p, author, ts) <==> labeled(attrs, p, author, ts) || a@.marks(
            p,
            author,
            ts,
        ) by {
        if labeled(ext, p, author, ts) {
            let i = choose|i: int| 0 <= i < ext.len() && (#[trigger] ext[i]@).marks(p, author, ts);
            if i < attrs.len() {
                assert(attrs[i]@.marks(p, author, ts));
            }
        }
        if labeled(attrs, p, author, ts) {
            let i = choose|i: int|
                0 <= i < attrs.len() && (#[trigger] attrs[i]@).marks(p, author, ts);
            assert(ext[i]@.marks(p, author, ts));
        }
        if a@.marks(p, author, ts) {
            assert(ext[attrs.len() as int]@.marks(p, author, ts));
        }
    }
    assert forall|p: int| #[trigger] covered(ext, p) <==> covered(attrs, p) || a@.covers(p) by {
        if covered(ext, p) {
            let i = choose|i: int| 0 <= i < ext.len() && (#[trigger] ext[i]@).covers(p);
            if i < attrs.len() {
                assert(attrs[i]@.covers(p));
            }
        }
        if covered(attrs, p) {
            let i = choose|i: int| 0 <= i < attrs.len() && (#[trigger] attrs[i]@).covers(p);
            assert(ext[i]@.covers(p));
        }
        if a@.covers(p) {
            assert(ext[attrs.len() as int]@.covers(p));
        }
    }
}

/// Lists that agree entry by entry say the same of every position.
pub proof fn lemma_labeled_same(a: Seq<Attribution>, b: Seq<Attribution>)
    requires
        same_attributions(a, b),
    ensures
        forall|p: int, author: Seq<char>, ts: int| #[trigger]
            labeled(a, p, author, ts) <==> labeled(b, p, author, ts),
        forall|p: int| #[trigger] covered(a, p) <==> covered(b, p),
{
    assert forall|p: int, author: Seq<char>, ts: int| #[trigger]
        labeled(a, p, author, ts) <==> labeled(b, p, author, ts) by {
        if labeled(a, p, author, ts) {
            let i = choose|i: int| 0 <= i < a.len() && (#[trigger] a[i]@).marks(p, author, ts);
            assert(b[i]@.marks(p, author, ts));
        }
        if labeled(b, p, author, ts) {
            let i = choose|i: int| 0 <= i < b.len() && (#[trigger] b[i]@).marks(p, author, ts);
            assert(a[i]@.marks(p, author, ts));
        }
    }
    assert forall|p: int| #[trigger] covered(a, p) <==> covered(b, p) by {
        if covered(a, p) {
            let i = choose|i: int| 0 <= i < a.len() && (#[trigger] a[i]@).covers(p);
            assert(b[i]@.covers(p));
        }
        if covered(b, p) {
            let i = choose|i: int| 0 <= i < b.len() && (#[trigger] b[i]@).covers(p);
            assert(a[i]@.covers(p));
        }
    }
}

/// An attribution that is put in anywhere adds what it says, and nothing
/// else.
pub proof fn lemma_labeled_insert(attrs: Seq<Attribution>, i: int, a: Attribution)
    requires
        0 <= i <= attrs.len(),
    ensures
        forall|p: int, author: Seq<char>, ts: int| #[trigger]
            labeled(attrs.insert(i, a), p, author, ts) <==> labeled(attrs, p, author, ts)
                || a@.marks(p, author, ts),
{
    let ext = attrs.insert(i, a);
    assert forall|p: int, author: Seq<char>, ts: int| #[trigger]
        labeled(ext, p, author, ts) <==> labeled(attrs, p, author, ts) || a@.marks(
            p,
            author,
            ts,
        ) by {
        if labeled(ext, p, author, ts) {
            let w = choose|w: int| 0 <= w < ext.len() && (#[trigger] ext[w]@).marks(p, author, ts);
            if w < i {
                assert(attrs[w]@.marks(p, author, ts));
            } else if w > i {
                assert(attrs[w - 1]@.marks(p, author, ts));
            }
        }
        if labeled(attrs, p, author, ts) {
            let w = choose|w: int|
                0 <= w < attrs.len() && (#[trigger] attrs[w]@).marks(p, author, ts);
            if w < i {
                assert(ext[w]@.marks(p, author, ts));
            } else {
                assert(ext[w + 1]@.marks(p, author, ts));
            }
        }
        if a@.marks(p, author, ts) {
            assert(ext[i]@.marks(p, author, ts));
        }
    }
}

/// What step `op` of an edit script says of position `p` of the new content:
/// a kept byte has the authors of the old byte it matches, any other new
/// byte belongs to `author` at time `ts`.
pub open spec fn op_marks(
    old: Seq<Attribution>,
    op: EditOp,
    author: Seq<char>,
    ts: int,
    p: int,
    a: Seq<char>,
    t: int,
) -> bool {
    op.new_start() <= p < op.new_end() && if op.keeps() {
        labeled(old, p - op.new_start() + op.old_start(), a, t)
    } else {
        a == author && t == ts
    }
}

/// What the whole script says of position `p` of the new content.
pub open spec fn carried(
    old: Seq<Attribution>,
    script: Seq<EditOp>,
    author: Seq<char>,
    ts: int,
    p: int,
    a: Seq<char>,
    t: int,
) -> bool {
    exists|k: int|
        0 <= k < script.len() && op_marks(old, #[trigger] script[k], author, ts, p, a, t)
}

proof fn lemma_carried_push(
    old: Seq<Attribution>,
    script: Seq<EditOp>,
    op: EditOp,
    author: Seq<char>,
    ts: int,
)
    ensures
        forall|p: int, a: Seq<char>, t: int| #[trigger]
            carried(old, script.push(op), author, ts, p, a, t) <==> carried(
                old,
                script,
                author,
                ts,
                p,
                a,
                t,
            ) || op_marks(old, op, author, ts, p, a, t),
{
    let ext = script.push(op);
    assert forall|p: int, a: Seq<char>, t: int| #[trigger]
        carried(old, ext, author, ts, p, a, t) <==> carried(old, script, author, ts, p, a, t)
            || op_marks(old, op, author, ts, p, a, t) by {
        if carried(old, ext, author, ts, p, a, t) {
            let k = choose|k: int|
                0 <= k < ext.len() && op_marks(old, #[trigger] ext[k], author, ts, p, a, t);
            if k < script.len() {
                assert(op_marks(old, script[k], author, ts, p, a, t));
            }
        }
        if carried(old, script, author, ts, p, a, t) {
            let k = choose|k: int|
                0 <= k < script.len() && op_marks(old, #[trigger] script[k], author, ts, p, a, t);
            assert(op_marks(old, ext[k], author, ts, p, a, t));
        }
        if op_marks(old, op, author, ts, p, a, t) {
            assert(op_marks(old, ext[script.len() as int], author, ts, p, a, t));
        }
    }
}

/// The order of attributions: by start, then by time.
pub open spec fn before(a: AttributionView, b: AttributionView) -> bool {
    a.start < b.start || (a.start == b.start && a.timestamp <= b.timestamp)
}

/// Attributions in order.
pub open spec fn ordered(attrs: Seq<Attribution>) -> bool {
    forall|i: int, j: int|
        0 <= i < j < attrs.len() ==> before((#[trigger] attrs[i])@, (#[trigger] attrs[j])@)
}

/// Two attributions of one author and time, the second starting no later
/// than the first ends.
pub open spec fn mergeable(a: AttributionView, b: AttributionView) -> bool {
    a.author == b.author && a.timestamp == b.timestamp && b.start <= a.end
}

/// No attribution could be merged with the one after it.
pub open spec fn coalesced(attrs: Seq<Attribution>) -> bool {
    forall|i: int, j: int|
        0 <= i && j == i + 1 && j < attrs.len() ==> !mergeable(
            (#[trigger] attrs[i])@,
            (#[trigger] attrs[j])@,
        )
}

/// No attribution is empty.
pub open spec fn nonempty(attrs: Seq<Attribution>) -> bool {
    forall|i: int| 0 <= i < attrs.len() ==> (#[trigger] attrs[i]@).start < attrs[i]@.end
}

/// `r` is what `old` becomes along `script`: position by position it says
/// what the script says, and it is in order, without empty entries, and
/// coalesced.
pub open spec fn follows(
    old: Seq<Attribution>,
    script: Seq<EditOp>,
    author: Seq<char>,
    ts: int,
    r: Seq<Attribution>,
) -> bool {
    &&& forall|p: int, a: Seq<char>, t: int| #[trigger]
        labeled(r, p, a, t) <==> carried(old, script, author, ts, p, a, t)
    &&& nonempty(r)
    &&& ordered(r)
    &&& coalesced(r)
}

proof fn lemma_one_step_covers(
    script: Seq<EditOp>,
    old_len: int,
    new_len: int,
    k: int,
    m: int,
    p: int,
)
    requires
        script_tiles(script, old_len, new_len),
        0 <= k < script.len(),
        0 <= m < script.len(),
        script[k].new_start() <= p < script[k].new_end(),
        script[m].new_start() <= p < script[m].new_end(),
    ensures
        k == m,
{
    if k < m {
        lemma_tiles_ordered(script, old_len, new_len, k, m);
    }
    if m < k {
        lemma_tiles_ordered(script, old_len, new_len, m, k);
    }
}

/// What a comparison keeps stays with its authors: a position of the new
/// content under a step that keeps is held by those, and only those, who
/// held the position that it matches in the old content.
pub proof fn lemma_kept_bytes_keep_their_authors(
    old: Seq<Attribution>,
    script: Seq<EditOp>,
    old_len: int,
    new_len: int,
    author: Seq<char>,
    ts: int,
    r: Seq<Attribution>,
    k: int,
    p: int,
)
    requires
        script_tiles(script, old_len, new_len),
        follows(old, script, author, ts, r),
        0 <= k < script.len(),
        script[k].keeps(),
        script[k].new_start() <= p < script[k].new_end(),
    ensures
        forall|a: Seq<char>, t: int| #[trigger]
            labeled(r, p, a, t) <==> labeled(
                old,
                p - script[k].new_start() + script[k].old_start(),
                a,
                t,
            ),
{
    assert forall|a: Seq<char>, t: int| #[trigger]
        labeled(r, p, a, t) <==> labeled(
            old,
            p - script[k].new_start() + script[k].old_start(),
            a,
            t,
        ) by {
        assert(labeled(r, p, a, t) <==> carried(old, script, author, ts, p, a, t));
        if carried(old, script, author, ts, p, a, t) {
            let m = choose|m: int|
                0 <= m < script.len() && op_marks(old, #[trigger] script[m], author, ts, p, a, t);
            lemma_one_step_covers(script, old_len, new_len, k, m, p);
        }
        if labeled(old, p - script[k].new_start() + script[k].old_start(), a, t) {
            assert(op_marks(old, script[k], author, ts, p, a, t));
        }
    }
}

/// What a comparison finds new goes to the author of the change: a position
/// of the new content under a step that does not keep is held by that
/// author at the time of the change, and by nobody else.
pub proof fn lemma_new_bytes_go_to_the_author(
    old: Seq<Attribution>,
    script: Seq<EditOp>,
    old_len: int,
    new_len: int,
    author: Seq<char>,
    ts: int,
    r: Seq<Attribution>,
    k: int,
    p: int,
)
    requires
        script_tiles(script, old_len, new_len),
        follows(old, script, author, ts, r),
        0 <= k < script.len(),
        !script[k].keeps(),
        script[k].new_start() <= p < script[k].new_end(),
    ensures
        forall|a: Seq<char>, t: int| #[trigger]
            labeled(r, p, a, t) <==> a == author && t == ts,
{
    assert forall|a: Seq<char>, t: int| #[trigger]
        labeled(r, p, a, t) <==> a == author && t == ts by {
        assert(labeled(r, p, a, t) <==> carried(old, script, author, ts, p, a, t));
        if carried(old, script, author, ts, p, a, t) {
            let m = choose|m: int|
                0 <= m < script.len() && op_marks(old, #[trigger] script[m], author, ts, p, a, t);
            lemma_one_step_covers(script, old_len, new_len, k, m, p);
        }
        if a == author && t == ts {
            assert(op_marks(old, script[k], author, ts, p, a, t));
        }
    }
}

/// Every step of the script ends within the range of machine integers.
pub open spec fn representable(script: Seq<EditOp>) -> bool {
    forall|k: int|
        0 <= k < script.len() ==> (#[trigger] script[k]).old_end() <= usize::MAX
            && script[k].new_end() <= usize::MAX
}

/// Carries the attributions over, step by step, in the order of the script.
fn carry_over(old: &Vec<Attribution>, script: &Vec<EditOp>, author: &str, ts: u128) -> (r: Vec<
    Attribution,
>)
    requires
        representable(script@),
    ensures
        forall|p: int, a: Seq<char>, t: int| #[trigger]
            labeled(r@, p, a, t) <==> carried(old@, script@, author@, ts as int, p, a, t),
        nonempty(r@),
{
    let mut out: Vec<Attribution> = Vec::new();
    let mut k: usize = 0;
    while k < script.len()
        invariant
            k <= script@.len(),
            representable(script@),
            nonempty(out@),
            forall|p: int, a: Seq<char>, t: int| #[trigger]
                labeled(out@, p, a, t) <==> carried(
                    old@,
                    script@.take(k as int),
                    author@,
                    ts as int,
                    p,
                    a,
                    t,
                ),
        decreases script@.len() - k,
    {
        let op: EditOp = script[k];
        let (os, oc, ns, nc) = op.parts();
        let ghost done = script@.take(k as int);
        proof {
            assert(script@.take(k + 1) =~= done.push(op));
            lemma_carried_push(old@, done, op, author@, ts as int);
            assert(script@[k as int].old_end() <= usize::MAX);
        }
        if op.is_equal() {
            let mut j: usize = 0;
            while j < old.len()
                invariant
                    j <= old@.len(),
                    op.keeps(),
                    os == op.old_start(),
                    ns == op.new_start(),
                    oc == op.old_count(),
                    nc == op.new_count(),
                    os + oc <= usize::MAX,
                    ns + nc <= usize::MAX,
                    nonempty(out@),
                    forall|p: int, a: Seq<char>, t: int| #[trigger]
                        labeled(out@, p, a, t) <==> carried(old@, done, author@, ts as int, p, a, t)
                            || (ns <= p < ns + nc && labeled(
                            old@.take(j as int),
                            p - ns + os,
                            a,
                            t,
                        )),
                decreases old@.len() - j,
            {
                let a = &old[j];
                let lo: usize = if a.start > os {
                    a.start
                } else {
                    os
                };
                let hi: usize = if a.end < os + oc {
                    a.end
                } else {
                    os + oc
                };
                proof {
                    assert(old@.take(j + 1) =~= old@.take(j as int).push(old@[j as int]));
                    lemma_labeled_push(old@.take(j as int), old@[j as int]);
                }
                if lo < hi {
                    let ghost prior = out@;
                    let x = Attribution::new(
                        lo - os + ns,
                        hi - os + ns,
                        a.author_id.clone(),
                        a.timestamp,
                    );
                    out.push(x);
                    proof {
                        lemma_labeled_push(prior, x);
                    }
                }
                j = j + 1;
            }
            assert(old@.take(old@.len() as int) =~= old@);
        } else if nc > 0 {
            let ghost prior = out@;
            let x = Attribution::new(ns, ns + nc, author.to_owned(), ts);
            out.push(x);
            proof {
                lemma_labeled_push(prior, x);
            }
        }
        k = k + 1;
    }
    assert(script@.take(script@.len() as int) =~= script@);
    out
}

/// Puts the attributions in order; entries with the same start and time keep
/// their order.
fn sort_attributions(v: &Vec<Attribution>) -> (r: Vec<Attribution>)
    ensures
        ordered(r@),
        r@.len() == v@.len(),
        nonempty(v@) ==> nonempty(r@),
        forall|p: int, a: Seq<char>, t: int| #[trigger]
            labeled(r@, p, a, t) <==> labeled(v@, p, a, t),
{
    let mut out: Vec<Attribution> = Vec::new();
    let mut k: usize = 0;
    while k < v.len()
        invariant
            k <= v@.len(),
            out@.len() == k,
            ordered(out@),
            nonempty(v@) ==> nonempty(out@),
            forall|p: int, a: Seq<char>, t: int| #[trigger]
                labeled(out@, p, a, t) <==> labeled(v@.take(k as int), p, a, t),
        decreases v@.len() - k,
    {
        let x = v[k].clone();
        let mut i: usize = out.len();
        while i > 0 && (x.start < out[i - 1].start || (x.start == out[i - 1].start && x.timestamp
            < out[i - 1].timestamp))
            invariant
                i <= out@.len(),
                forall|j: int| i <= j < out@.len() ==> !before((#[trigger] out@[j])@, x@),
            decreases i,
        {
            i = i - 1;
        }
        let ghost prior = out@;
        out.insert(i, x);
        proof {
            assert(v@.take(k + 1) =~= v@.take(k as int).push(v@[k as int]));
            lemma_labeled_push(v@.take(k as int), v@[k as int]);
            lemma_labeled_insert(prior, i as int, x);
            assert forall|a: int, b: int| 0 <= a < b < out@.len() implies before(
                (#[trigger] out@[a])@,
                (#[trigger] out@[b])@,
            ) by {
                if b < i {
                    assert(before(prior[a]@, prior[b]@));
                } else if b == i {
                    if a < i - 1 {
                        assert(before(prior[a]@, prior[i - 1]@));
                    }
                } else if a < i {
                    assert(before(prior[a]@, prior[b - 1]@));
                } else if a == i {
                    assert(!before(prior[b - 1]@, x@));
                } else {
                    assert(before(prior[a - 1]@, prior[b - 1]@));
                }
            }
            if nonempty(v@) {
                assert forall|a: int| 0 <= a < out@.len() implies (#[trigger] out@[a]@).start
                    < out@[a]@.end by {
                    if a < i {
                        assert(prior[a]@.start < prior[a]@.end);
                    } else if a > i {
                        assert(prior[a - 1]@.start < prior[a - 1]@.end);
                    } else {
                        assert(v@[k as int]@.start < v@[k as int]@.end);
                    }
                }
            }
        }
        k = k + 1;
    }
    assert(v@.take(v@.len() as int) =~= v@);
    out
}

/// Merges each attribution into the one before it where both have the same
/// author and time and the second starts no later than the first ends.
fn coalesce(v: &Vec<Attribution>) -> (r: Vec<Attribution>)
    requires
        ordered(v@),
        nonempty(v@),
    ensures
        ordered(r@),
        nonempty(r@),
        coalesced(r@),
        forall|p: int, a: Seq<char>, t: int| #[trigger]
            labeled(r@, p, a, t) <==> labeled(v@, p, a, t),
{
    let mut out: Vec<Attribution> = Vec::new();
    let mut k: usize = 0;
    while k < v.len()
        invariant
            k <= v@.len(),
            ordered(v@),
            nonempty(v@),
            ordered(out@),
            nonempty(out@),
            coalesced(out@),
            out@.len() > 0 ==> forall|j: int|
                k <= j < v@.len() ==> before(out@.last()@, (#[trigger] v@[j])@),
            forall|p: int, a: Seq<char>, t: int| #[trigger]
                labeled(out@, p, a, t) <==> labeled(v@.take(k as int), p, a, t),
        decreases v@.len() - k,
    {
        let x = v[k].clone();
        let ghost prior = out@;
        proof {
            assert(v@.take(k + 1) =~= v@.take(k as int).push(v@[k as int]));
            lemma_labeled_push(v@.take(k as int), v@[k as int]);
            assert(v@[k as int]@.start < v@[k as int]@.end);
            if prior.len() > 0 {
                assert(before(prior.last()@, v@[k as int]@));
            }
        }
        let n: usize = out.len();
        let joins: bool = n > 0 && out[n - 1].timestamp == x.timestamp && x.start <= out[n - 1].end
            && out[n - 1].author_id == x.author_id;
        if joins {
            let last = out.pop().unwrap();
            let ghost rest = out@;
            let end: usize = if last.end < x.end {
                x.end
            } else {
                last.end
            };
            let m = Attribution::new(last.start, end, last.author_id, last.timestamp);
            out.push(m);
            proof {
                assert(prior =~= rest.push(last));
                lemma_labeled_push(rest, last);
                lemma_labeled_push(rest, m);
                assert(last@ == prior.last()@);
                assert(x@ == v@[k as int]@);
                assert forall|p: int, a: Seq<char>, t: int| #[trigger]
                    labeled(out@, p, a, t) <==> labeled(v@.take(k + 1), p, a, t) by {
                    assert(m@.marks(p, a, t) <==> last@.marks(p, a, t) || x@.marks(p, a, t));
                    assert(labeled(prior, p, a, t) <==> labeled(v@.take(k as int), p, a, t));
                }
                assert forall|a: int, b: int| 0 <= a < b < out@.len() implies before(
                    (#[trigger] out@[a])@,
                    (#[trigger] out@[b])@,
                ) by {
                    assert(before(prior[a]@, prior[b]@));
                }
                assert forall|a: int| 0 <= a < out@.len() implies (#[trigger] out@[a]@).start
                    < out@[a]@.end by {
                    assert(prior[a]@.start < prior[a]@.end);
                }
                assert forall|a: int, b: int| 0 <= a && b == a + 1 && b < out@.len() implies !mergeable(
                    (#[trigger] out@[a])@,
                    (#[trigger] out@[b])@,
                ) by {
                    assert(!mergeable(prior[a]@, prior[b]@));
                }
                assert forall|j: int| k + 1 <= j < v@.len() implies before(
                    out@.last()@,
                    (#[trigger] v@[j])@,
                ) by {
                    assert(before(prior.last()@, v@[j]@));
                }
            }
        } else {
            out.push(x);
            proof {
                lemma_labeled_push(prior, x);
                assert forall|a: int, b: int| 0 <= a < b < out@.len() implies before(
                    (#[trigger] out@[a])@,
                    (#[trigger] out@[b])@,
                ) by {
                    if b < prior.len() {
                        assert(before(prior[a]@, prior[b]@));
                    } else if a < prior.len() - 1 {
                        assert(before(prior[a]@, prior[prior.len() - 1]@));
                    }
                }
                assert forall|a: int| 0 <= a < out@.len() implies (#[trigger] out@[a]@).start
                    < out@[a]@.end by {
                    if a < prior.len() {
                        assert(prior[a]@.start < prior[a]@.end);
                    }
                }
                assert forall|a: int, b: int| 0 <= a && b == a + 1 && b < out@.len() implies !mergeable(
                    (#[trigger] out@[a])@,
                    (#[trigger] out@[b])@,
                ) by {
                    if b < prior.len() {
                        assert(!mergeable(prior[a]@, prior[b]@));
                    }
                }
                assert forall|j: int| k + 1 <= j < v@.len() implies before(
                    out@.last()@,
                    (#[trigger] v@[j])@,
                ) by {
                    assert(before(v@[k as int]@, v@[j]@));
                }
            }
        }
        k = k + 1;
    }
    assert(v@.take(v@.len() as int) =~= v@);
    out
}

/// The script that leads from `old` to `new`, over bytes: what the `similar`
/// crate finds between the lines of both, each step taken from lines to
/// bytes. Nothing where a step reaches past the lines of either side.
pub open spec fn content_script(old: Seq<u8>, new: Seq<u8>) -> Option<Seq<EditOp>> {
    byte_script(myers_diff(lines_of(old), lines_of(new)), line_bounds(old), line_bounds(new))
}

/// Carries `old` along `script` to the new content: kept bytes keep their
/// authors, new bytes go to `author` at time `ts`, and what was deleted is
/// gone. The result is sorted by start and time, and coalesced.
pub fn transfer_attributions(
    old: &Vec<Attribution>,
    script: &Vec<EditOp>,
    author: &str,
    ts: u128,
) -> (r: Vec<Attribution>)
    requires
        representable(script@),
    ensures
        follows(old@, script@, author@, ts as int, r@),
{
    let raw = carry_over(old, script, author, ts);
    let sorted = sort_attributions(&raw);
    coalesce(&sorted)
}

/// `r` is `given` with its gaps filled: the given attributions come first,
/// unchanged; after them stands one attribution of `author` at time `ts` for
/// each maximal run of the first `len` bytes that none of them holds, in
/// ascending order.
pub open spec fn gap_filled(
    given: Seq<Attribution>,
    len: int,
    author: Seq<char>,
    ts: int,
    r: Seq<Attribution>,
) -> bool {
    &&& r.len() >= given.len()
    &&& same_attributions(r.take(given.len() as int), given)
    &&& forall|p: int, a: Seq<char>, t: int| #[trigger]
        labeled(r, p, a, t) <==> labeled(given, p, a, t) || (0 <= p < len && !covered(given, p)
            && a == author && t == ts)
    &&& forall|i: int|
        given.len() <= i < r.len() ==> (#[trigger] r[i]@).start < r[i]@.end && r[i]@.end <= len
    &&& forall|i: int, j: int|
        given.len() <= i && j == i + 1 && j < r.len() ==> (#[trigger] r[i]@).end
            < (#[trigger] r[j]@).start
}

/// What a change has written stays with its author while the next change
/// keeps it: after a first change by `first_author`, a fill of the gaps, and
/// a second change, a position that the second comparison keeps and the
/// first found new is held by `first_author` at the time of the first
/// change, and by nobody else. So the authors of such a position do not
/// depend on how many changes were recorded after it was written.
pub proof fn lemma_written_bytes_stay_with_their_author(
    old: Seq<Attribution>,
    first_script: Seq<EditOp>,
    first_author: Seq<char>,
    first_ts: int,
    written: Seq<Attribution>,
    filled: Seq<Attribution>,
    second_script: Seq<EditOp>,
    second_author: Seq<char>,
    second_ts: int,
    r: Seq<Attribution>,
    lens: (int, int, int),
    fill: (Seq<char>, int),
    steps: (int, int),
    p: int,
)
    requires
        script_tiles(first_script, lens.0, lens.1),
        follows(old, first_script, first_author, first_ts, written),
        gap_filled(written, lens.1, fill.0, fill.1, filled),
        script_tiles(second_script, lens.1, lens.2),
        follows(filled, second_script, second_author, second_ts, r),
        0 <= steps.1 < second_script.len(),
        second_script[steps.1].keeps(),
        second_script[steps.1].new_start() <= p < second_script[steps.1].new_end(),
        0 <= steps.0 < first_script.len(),
        !first_script[steps.0].keeps(),
        first_script[steps.0].new_start() <= p - second_script[steps.1].new_start()
            + second_script[steps.1].old_start() < first_script[steps.0].new_end(),
    ensures
        forall|a: Seq<char>, t: int| #[trigger]
            labeled(r, p, a, t) <==> a == first_author && t == first_ts,
{
    let q = p - second_script[steps.1].new_start() + second_script[steps.1].old_start();
    lemma_kept_bytes_keep_their_authors(
        filled,
        second_script,
        lens.1,
        lens.2,
        second_author,
        second_ts,
        r,
        steps.1,
        p,
    );
    lemma_new_bytes_go_to_the_author(
        old,
        first_script,
        lens.0,
        lens.1,
        first_author,
        first_ts,
        written,
        steps.0,
        q,
    );
    assert(labeled(written, q, first_author, first_ts));
    let w = choose|w: int|
        0 <= w < written.len() && (#[trigger] written[w]@).marks(q, first_author, first_ts);
    assert(written[w]@.covers(q));
    assert(covered(written, q));
    assert forall|a: Seq<char>, t: int| #[trigger]
        labeled(r, p, a, t) <==> a == first_author && t == first_ts by {
        assert(labeled(r, p, a, t) <==> labeled(filled, q, a, t));
        assert(labeled(filled, q, a, t) <==> labeled(written, q, a, t));
        assert(labeled(written, q, a, t) <==> a == first_author && t == first_ts);
    }
}

/// The attribution algebra. It holds no state.
pub struct AttributionTracker {}

impl AttributionTracker {
    pub fn new() -> (r: Self) {
        AttributionTracker {  }
    }

    /// Gives every byte of `content` that no attribution holds to `author` at
    /// time `ts`. The given attributions come first, unchanged; after them
    /// stands one attribution for each maximal run of bytes that none of them
    /// holds, in ascending order.
    pub fn attribute_unattributed_ranges(
        &self,
        content: &str,
        attributions: &Vec<Attribution>,
        author: &str,
        ts: u128,
    ) -> (r: Vec<Attribution>)
        ensures
            gap_filled(attributions@, content.spec_bytes().len() as int, author@, ts as int, r@),
    {
        let n: usize = content.as_bytes().len();
        let mut cov: Vec<bool> = Vec::new();
        let mut k: usize = 0;
        while k < n
            invariant
                k <= n,
                cov@.len() == k,
                forall|p: int| 0 <= p < k ==> !cov@[p],
            decreases n - k,
        {
            cov.push(false);
            k = k + 1;
        }
        let mut out: Vec<Attribution> = Vec::new();
        let mut j: usize = 0;
        while j < attributions.len()
            invariant
                j <= attributions@.len(),
                cov@.len() == n,
                same_attributions(out@, attributions@.take(j as int)),
                forall|p: int| 0 <= p < n ==> (cov@[p] <==> covered(attributions@.take(j as int), p)),
            decreases attributions@.len() - j,
        {
            let a = &attributions[j];
            let ghost seen = attributions@.take(j as int);
            let ghost cov_before = cov@;
            let stop: usize = if a.end < n {
                a.end
            } else {
                n
            };
            let mut p: usize = a.start;
            while p < stop
                invariant
                    stop <= n,
                    a.start <= p,
                    stop == if a.end < n { a.end } else { n },
                    cov@.len() == n,
                    cov_before.len() == n,
                    forall|q: int|
                        0 <= q < n ==> (#[trigger] cov@[q] <==> cov_before[q] || (a.start <= q < p
                            && q < stop)),
                decreases stop - p,
            {
                let ghost marked = cov@;
                cov.set(p, true);
                p = p + 1;
                assert forall|q: int| 0 <= q < n implies (#[trigger] cov@[q] <==> cov_before[q] || (
                a.start <= q < p && q < stop)) by {
                    if q != p - 1 {
                        assert(cov@[q] == marked[q]);
                    }
                }
            }
            out.push(a.clone());
            proof {
                assert(attributions@.take(j + 1) =~= seen.push(attributions@[j as int]));
                lemma_labeled_push(seen, attributions@[j as int]);
                assert forall|q: int| 0 <= q < n implies (cov@[q] <==> covered(
                    attributions@.take(j + 1),
                    q,
                )) by {
                    assert(cov_before[q] <==> covered(seen, q));
                    assert(covered(seen.push(attributions@[j as int]), q) <==> covered(seen, q)
                        || attributions@[j as int]@.covers(q));
                }
            }
            j = j + 1;
        }
        proof {
            assert(attributions@.take(attributions@.len() as int) =~= attributions@);
        }
        proof {
            assert(out@.take(attributions@.len() as int) =~= out@);
            lemma_labeled_same(out@, attributions@);
        }
        let mut in_gap: bool = false;
        let mut gap_start: usize = 0;
        let mut i: usize = 0;
        while i < n
            invariant
                i <= n,
                n == content.spec_bytes().len(),
                cov@.len() == n,
                forall|p: int| 0 <= p < n ==> (cov@[p] <==> covered(attributions@, p)),
                out@.len() >= attributions@.len(),
                same_attributions(out@.take(attributions@.len() as int), attributions@),
                in_gap ==> gap_start < i && forall|p: int| gap_start <= p < i ==> !cov@[p],
                in_gap && out@.len() > attributions@.len() ==> out@.last()@.end < gap_start,
                !in_gap && out@.len() > attributions@.len() ==> out@.last()@.end < i,
                !in_gap && i > 0 ==> cov@[i - 1],
                forall|p: int, a: Seq<char>, t: int| #[trigger]
                    labeled(out@, p, a, t) <==> labeled(attributions@, p, a, t) || (0 <= p < (
                    if in_gap {
                        gap_start
                    } else {
                        i
                    }) && !cov@[p] && a == author@ && t == ts),
                forall|k: int|
                    attributions@.len() <= k < out@.len() ==> (#[trigger] out@[k]@).start
                        < out@[k]@.end && out@[k]@.end <= n,
                forall|k: int, m: int|
                    attributions@.len() <= k && m == k + 1 && m < out@.len() ==> (#[trigger] out@[k]@).end
                        < (#[trigger] out@[m]@).start,
            decreases n - i,
        {
            if cov[i] {
                if in_gap {
                    let ghost prior = out@;
                    let g = Attribution::new(gap_start, i, author.to_owned(), ts);
                    out.push(g);
                    proof {
                        lemma_labeled_push(prior, g);
                        assert(out@.take(attributions@.len() as int) =~= prior.take(
                            attributions@.len() as int,
                        ));
                    }
                    in_gap = false;
                }
            } else {
                if !in_gap {
                    in_gap = true;
                    gap_start = i;
                }
            }
            i = i + 1;
        }
        if in_gap {
            let ghost prior = out@;
            let g = Attribution::new(gap_start, n, author.to_owned(), ts);
            out.push(g);
            proof {
                lemma_labeled_push(prior, g);
                assert(out@.take(attributions@.len() as int) =~= prior.take(
                    attributions@.len() as int,
                ));
            }
        }
        out
    }

    /// What the attributions of `old_content` become once the file reads
    /// `new_content`, the change being the work of `author` at time `ts`.
    ///
    /// The two contents are compared line by line. Where the comparison comes
    /// back as something that is no edit script from the old bytes to the new,
    /// the call fails and nothing is attributed.
    pub fn update_attributions(
        &self,
        old_content: &str,
        new_content: &str,
        old_attributions: &Vec<Attribution>,
        author: &str,
        ts: u128,
    ) -> (r: Result<Vec<Attribution>, GitAiError>)
        ensures
            r matches Err(e) ==> e is Generic,
            match (r, content_script(old_content.spec_bytes(), new_content.spec_bytes())) {
                (Ok(v), Some(script)) => script_matches(
                    script,
                    old_content.spec_bytes(),
                    new_content.spec_bytes(),
                ) && follows(old_attributions@, script, author@, ts as int, v@),
                (Ok(_), None) => false,
                (Err(_), Some(script)) => !script_matches(
                    script,
                    old_content.spec_bytes(),
                    new_content.spec_bytes(),
                ),
                (Err(_), None) => true,
            },
    {
        let old_bytes = old_content.as_bytes();
        let new_bytes = new_content.as_bytes();
        let old_bounds = compute_line_bounds(old_bytes);
        let new_bounds = compute_line_bounds(new_bytes);
        proof {
            lemma_line_bounds(old_bytes@);
            lemma_line_bounds(new_bytes@);
            assert(as_ints(old_bounds@).len() == old_bounds@.len());
            assert(as_ints(new_bounds@).len() == new_bounds@.len());
            assert forall|i: int, j: int| 0 <= i <= j < old_bounds@.len() implies old_bounds@[i]
                <= old_bounds@[j] by {
                assert(as_ints(old_bounds@)[i] == old_bounds@[i]);
                assert(as_ints(old_bounds@)[j] == old_bounds@[j]);
            }
            assert forall|i: int, j: int| 0 <= i <= j < new_bounds@.len() implies new_bounds@[i]
                <= new_bounds@[j] by {
                assert(as_ints(new_bounds@)[i] == new_bounds@[i]);
                assert(as_ints(new_bounds@)[j] == new_bounds@[j]);
            }
        }
        let old_lines = split_lines(old_bytes, &old_bounds);
        let new_lines = split_lines(new_bytes, &new_bounds);
        let line_ops = capture_line_diff(&old_lines, &new_lines);
        let script = match to_byte_script(&line_ops, &old_bounds, &new_bounds) {
            Some(script) => script,
            None => {
                return Err(GitAiError::Generic("the line diff leaves the file".to_owned()));
            },
        };
        if !check_script(&script, old_bytes, new_bytes) {
            return Err(GitAiError::Generic("the line diff is no edit script".to_owned()));
        }
        proof {
            assert forall|k: int| 0 <= k < script@.len() implies (#[trigger] script@[k]).old_end()
                <= usize::MAX && script@[k].new_end() <= usize::MAX by {
                lemma_tiles_ordered(
                    script@,
                    old_bytes@.len() as int,
                    new_bytes@.len() as int,
                    k,
                    k,
                );
            }
        }
        Ok(transfer_attributions(old_attributions, &script, author, ts))
    }
}

/// Whether the attribution shares at least one byte with line `l`, the
/// bounds of the lines being `bounds`.
pub open spec fn touches(a: AttributionView, bounds: Seq<int>, l: int) -> bool {
    1 <= l < bounds.len() && a.start < a.end && a.start < bounds[l] && bounds[l - 1] < a.end
}

/// Whether some attribution of `author` shares a byte with line `l`.
pub open spec fn line_touched(attrs: Seq<Attribution>, bounds: Seq<int>, l: int, author: Seq<char>) -> bool {
    exists|i: int|
        0 <= i < attrs.len() && (#[trigger] attrs[i]@).author == author && touches(
            attrs[i]@,
            bounds,
            l,
        )
}

/// Whether some line attribution gives line `l` to `author`.
pub open spec fn line_labeled(lines: Seq<LineAttribution>, l: int, author: Seq<char>) -> bool {
    exists|k: int|
        0 <= k < lines.len() && (#[trigger] lines[k]@).author == author && lines[k]@.holds(l)
}

/// Whether `author` has an attribution among `attrs`.
pub open spec fn writes(attrs: Seq<Attribution>, author: Seq<char>) -> bool {
    exists|i: int| 0 <= i < attrs.len() && (#[trigger] attrs[i]@).author == author
}

proof fn lemma_writes_push(attrs: Seq<Attribution>, a: Attribution)
    ensures
        forall|au: Seq<char>| #[trigger]
            writes(attrs.push(a), au) <==> writes(attrs, au) || au == a@.author,
{
    let ext = attrs.push(a);
    assert forall|au: Seq<char>| #[trigger]
        writes(ext, au) <==> writes(attrs, au) || au == a@.author by {
        if writes(ext, au) {
            let w = choose|w: int| 0 <= w < ext.len() && (#[trigger] ext[w]@).author == au;
            if w < attrs.len() {
                assert(attrs[w]@.author == au);
            }
        }
        if writes(attrs, au) {
            let w = choose|w: int| 0 <= w < attrs.len() && (#[trigger] attrs[w]@).author == au;
            assert(ext[w]@.author == au);
        }
        if au == a@.author {
            assert(ext[attrs.len() as int]@.author == au);
        }
    }
}

proof fn lemma_line_touched_push(attrs: Seq<Attribution>, a: Attribution, bounds: Seq<int>)
    ensures
        forall|l: int, author: Seq<char>| #[trigger]
            line_touched(attrs.push(a), bounds, l, author) <==> line_touched(
                attrs,
                bounds,
                l,
                author,
            ) || (a@.author == author && touches(a@, bounds, l)),
{
    let ext = attrs.push(a);
    assert forall|l: int, author: Seq<char>| #[trigger]
        line_touched(ext, bounds, l, author) <==> line_touched(attrs, bounds, l, author) || (
        a@.author == author && touches(a@, bounds, l)) by {
        if line_touched(ext, bounds, l, author) {
            let i = choose|i: int|
                0 <= i < ext.len() && (#[trigger] ext[i]@).author == author && touches(
                    ext[i]@,
                    bounds,
                    l,
                );
            if i < attrs.len() {
                assert(attrs[i]@.author == author && touches(attrs[i]@, bounds, l));
            }
        }
        if line_touched(attrs, bounds, l, author) {
            let i = choose|i: int|
                0 <= i < attrs.len() && (#[trigger] attrs[i]@).author == author && touches(
                    attrs[i]@,
                    bounds,
                    l,
                );
            assert(ext[i]@.author == author && touches(ext[i]@, bounds, l));
        }
        if a@.author == author && touches(a@, bounds, l) {
            assert(ext[attrs.len() as int]@.author == author);
        }
    }
}

/// Whether some line attribution at index `from` or later holds line `l`.
pub open spec fn held_from(lines: Seq<LineAttribution>, from: int, l: int) -> bool {
    exists|k: int| from <= k < lines.len() && (#[trigger] lines[k]@).holds(l)
}

proof fn lemma_held_from_push(lines: Seq<LineAttribution>, from: int, x: LineAttribution)
    requires
        0 <= from <= lines.len(),
    ensures
        forall|l: int| #[trigger]
            held_from(lines.push(x), from, l) <==> held_from(lines, from, l) || x@.holds(l),
{
    let ext = lines.push(x);
    assert forall|l: int| #[trigger]
        held_from(ext, from, l) <==> held_from(lines, from, l) || x@.holds(l) by {
        if held_from(ext, from, l) {
            let k = choose|k: int| from <= k < ext.len() && (#[trigger] ext[k]@).holds(l);
            if k < lines.len() {
                assert(lines[k]@.holds(l));
            }
        }
        if held_from(lines, from, l) {
            let k = choose|k: int| from <= k < lines.len() && (#[trigger] lines[k]@).holds(l);
            assert(ext[k]@.holds(l));
        }
        if x@.holds(l) {
            assert(ext[lines.len() as int]@.holds(l));
        }
    }
}

/// The runs of lines that `author` touches, appended to `out`.
fn push_author_runs(
    out: &mut Vec<LineAttribution>,
    attrs: &Vec<Attribution>,
    bounds: &Vec<usize>,
    author: &String,
)
    requires
        bounds@.len() >= 1,
        bounds@.len() - 1 <= u32::MAX,
    ensures
        final(out)@.len() >= old(out)@.len(),
        final(out)@.take(old(out)@.len() as int) == old(out)@,
        forall|k: int|
            old(out)@.len() <= k < final(out)@.len() ==> (#[trigger] final(out)@[k]@).author
                == author@ && 1 <= final(out)@[k]@.start_line <= final(out)@[k]@.end_line
                < bounds@.len(),
        forall|l: int| #[trigger]
            held_from(final(out)@, old(out)@.len() as int, l) <==> line_touched(
                attrs@,
                as_ints(bounds@),
                l,
                author@,
            ),
        forall|k: int, m: int|
            old(out)@.len() <= k < m < final(out)@.len() ==> (#[trigger] final(out)@[k]@).end_line
                + 1 < (#[trigger] final(out)@[m]@).start_line,
{
    let ghost given = out@;
    let ghost b = as_ints(bounds@);
    let n: usize = bounds.len() - 1;
    let mut touched: Vec<bool> = Vec::new();
    let mut k: usize = 0;
    while k < n
        invariant
            k <= n,
            touched@.len() == k,
            forall|l: int| 0 <= l < k ==> !(#[trigger] touched@[l]),
        decreases n - k,
    {
        touched.push(false);
        k = k + 1;
    }
    let mut i: usize = 0;
    while i < attrs.len()
        invariant
            i <= attrs@.len(),
            n == bounds@.len() - 1,
            b == as_ints(bounds@),
            touched@.len() == n,
            forall|l: int|
                0 <= l < n ==> (#[trigger] touched@[l] <==> line_touched(
                    attrs@.take(i as int),
                    b,
                    l + 1,
                    author@,
                )),
        decreases attrs@.len() - i,
    {
        let a = &attrs[i];
        let ghost seen = attrs@.take(i as int);
        proof {
            assert(attrs@.take(i + 1) =~= seen.push(attrs@[i as int]));
            lemma_line_touched_push(seen, attrs@[i as int], b);
        }
        if a.author_id == *author && a.start < a.end {
            let ghost before_marks = touched@;
            let mut l: usize = 0;
            while l < n
                invariant
                    l <= n,
                    n == bounds@.len() - 1,
                    b == as_ints(bounds@),
                    touched@.len() == n,
                    before_marks.len() == n,
                    a@.start < a@.end,
                    forall|q: int|
                        0 <= q < n ==> (#[trigger] touched@[q] <==> before_marks[q] || (q < l
                            && touches(a@, b, q + 1))),
                decreases n - l,
            {
                if a.start < bounds[l + 1] && bounds[l] < a.end {
                    let ghost marked = touched@;
                    touched.set(l, true);
                    assert forall|q: int| 0 <= q < n implies (#[trigger] touched@[q]
                        <==> before_marks[q] || (q < l + 1 && touches(a@, b, q + 1))) by {
                        if q != l {
                            assert(touched@[q] == marked[q]);
                        }
                    }
                }
                l = l + 1;
            }
            assert forall|q: int| 0 <= q < n implies (#[trigger] touched@[q] <==> line_touched(
                attrs@.take(i + 1),
                b,
                q + 1,
                author@,
            )) by {
                assert(before_marks[q] <==> line_touched(seen, b, q + 1, author@));
            }
        } else {
            assert forall|q: int| 0 <= q < n implies (#[trigger] touched@[q] <==> line_touched(
                attrs@.take(i + 1),
                b,
                q + 1,
                author@,
            )) by {
                assert(touched@[q] <==> line_touched(seen, b, q + 1, author@));
            }
        }
        i = i + 1;
    }
    proof {
        assert(attrs@.take(attrs@.len() as int) =~= attrs@);
        assert forall|l: int| line_touched(attrs@, b, l, author@) implies 1 <= l <= n by {
            let w = choose|w: int|
                0 <= w < attrs@.len() && (#[trigger] attrs@[w]@).author == author@ && touches(
                    attrs@[w]@,
                    b,
                    l,
                );
        }
    }
    let mut in_run: bool = false;
    let mut run_start: usize = 0;
    let mut l: usize = 0;
    while l < n
        invariant
            l <= n,
            n == bounds@.len() - 1,
            n <= u32::MAX,
            touched@.len() == n,
            given.len() <= out@.len(),
            out@.take(given.len() as int) == given,
            in_run ==> run_start < l && forall|q: int|
                run_start <= q < l ==> #[trigger] touched@[q],
            forall|k: int|
                given.len() <= k < out@.len() ==> (#[trigger] out@[k]@).end_line < (if in_run {
                    run_start
                } else {
                    l
                }),
            !in_run && l > 0 ==> !touched@[l - 1],
            forall|k: int|
                given.len() <= k < out@.len() ==> (#[trigger] out@[k]@).author == author@ && 1
                    <= out@[k]@.start_line <= out@[k]@.end_line <= n,
            forall|q: int| #[trigger]
                held_from(out@, given.len() as int, q) <==> (1 <= q <= (if in_run {
                    run_start
                } else {
                    l
                }) && touched@[q - 1]),
            forall|k: int, m: int|
                given.len() <= k < m < out@.len() ==> (#[trigger] out@[k]@).end_line + 1
                    < (#[trigger] out@[m]@).start_line,
        decreases n - l,
    {
        if touched[l] {
            if !in_run {
                in_run = true;
                run_start = l;
            }
        } else if in_run {
            let ghost prior = out@;
            let x = LineAttribution::new((run_start + 1) as u32, l as u32, author.clone());
            out.push(x);
            proof {
                assert(out@.take(given.len() as int) =~= prior.take(given.len() as int));
                lemma_held_from_push(prior, given.len() as int, x);
            }
            in_run = false;
        }
        l = l + 1;
    }
    if in_run {
        let ghost prior = out@;
        let x = LineAttribution::new((run_start + 1) as u32, n as u32, author.clone());
        out.push(x);
        proof {
            assert(out@.take(given.len() as int) =~= prior.take(given.len() as int));
            lemma_held_from_push(prior, given.len() as int, x);
        }
    }
    proof {
        assert forall|q: int| #[trigger]
            held_from(out@, given.len() as int, q) <==> line_touched(attrs@, b, q, author@) by {
            if 1 <= q <= n {
                assert(touched@[q - 1] <==> line_touched(attrs@, b, (q - 1) + 1, author@));
            }
        }
    }
}

/// `r` gives the lines of a file, whose lines have the bounds `bounds`, to
/// the authors of `attrs`: a line belongs to every author who has written at
/// least one byte of it; the runs of one author are maximal and ascending.
pub open spec fn line_projection(
    attrs: Seq<Attribution>,
    bounds: Seq<int>,
    r: Seq<LineAttribution>,
) -> bool {
    &&& forall|l: int, author: Seq<char>| #[trigger]
        line_labeled(r, l, author) <==> line_touched(attrs, bounds, l, author)
    &&& forall|k: int|
        0 <= k < r.len() ==> 1 <= (#[trigger] r[k]@).start_line <= r[k]@.end_line < bounds.len()
    &&& forall|k: int, m: int|
        0 <= k < m < r.len() && (#[trigger] r[k]@).author == (#[trigger] r[m]@).author
            ==> r[k]@.end_line + 1 < r[m]@.start_line
}

/// The lines of a file by author. For each author, in the order in which the
/// authors first occur among `attributions`, the result holds the maximal
/// runs of lines of which that author has written at least one byte, in
/// ascending order.
pub fn attributions_to_line_attributions(attributions: &Vec<Attribution>, content: &str) -> (r:
    Vec<LineAttribution>)
    requires
        line_count(content.spec_bytes()) <= u32::MAX,
    ensures
        line_projection(attributions@, line_bounds(content.spec_bytes()), r@),
{
    let bounds = compute_line_bounds(content.as_bytes());
    let ghost b = line_bounds(content.spec_bytes());
    proof {
        assert(as_ints(bounds@).len() == bounds@.len());
        lemma_line_bounds(content.spec_bytes());
    }
    let mut out: Vec<LineAttribution> = Vec::new();
    let mut i: usize = 0;
    while i < attributions.len()
        invariant
            i <= attributions@.len(),
            b == as_ints(bounds@),
            bounds@.len() >= 1,
            bounds@.len() - 1 <= u32::MAX,
            forall|k: int|
                0 <= k < out@.len() ==> writes(
                    attributions@.take(i as int),
                    (#[trigger] out@[k]@).author,
                ) && 1 <= out@[k]@.start_line <= out@[k]@.end_line < bounds@.len(),
            forall|l: int, author: Seq<char>| #[trigger]
                line_labeled(out@, l, author) <==> writes(attributions@.take(i as int), author)
                    && line_touched(attributions@, b, l, author),
            forall|k: int, m: int|
                0 <= k < m < out@.len() && (#[trigger] out@[k]@).author == (#[trigger] out@[m]@).author
                    ==> out@[k]@.end_line + 1 < out@[m]@.start_line,
        decreases attributions@.len() - i,
    {
        let author = &attributions[i].author_id;
        let ghost seen = attributions@.take(i as int);
        let ghost next = attributions@.take(i + 1);
        let mut known: bool = false;
        let mut j: usize = 0;
        while j < i
            invariant
                j <= i,
                i < attributions@.len(),
                author@ == attributions@[i as int]@.author,
                known <==> writes(attributions@.take(j as int), author@),
            decreases i - j,
        {
            proof {
                assert(attributions@.take(j + 1) =~= attributions@.take(j as int).push(
                    attributions@[j as int],
                ));
                lemma_writes_push(attributions@.take(j as int), attributions@[j as int]);
            }
            if attributions[j].author_id == *author {
                known = true;
            }
            j = j + 1;
        }
        proof {
            assert(next =~= seen.push(attributions@[i as int]));
            lemma_writes_push(seen, attributions@[i as int]);
        }
        if !known {
            let ghost prior = out@;
            push_author_runs(&mut out, attributions, &bounds, author);
            proof {
                assert forall|k: int| 0 <= k < prior.len() implies out@[k] == prior[k] by {
                    assert(out@.take(prior.len() as int)[k] == prior[k]);
                }
                assert forall|l: int, au: Seq<char>| #[trigger]
                    line_labeled(out@, l, au) <==> writes(next, au) && line_touched(
                        attributions@,
                        b,
                        l,
                        au,
                    ) by {
                    if line_labeled(out@, l, au) {
                        let k = choose|k: int|
                            0 <= k < out@.len() && (#[trigger] out@[k]@).author == au
                                && out@[k]@.holds(l);
                        if k < prior.len() {
                            assert(prior[k]@.author == au && prior[k]@.holds(l));
                            assert(line_labeled(prior, l, au));
                        } else {
                            assert(held_from(out@, prior.len() as int, l));
                        }
                    }
                    if writes(next, au) && line_touched(attributions@, b, l, au) {
                        if au == author@ {
                            assert(held_from(out@, prior.len() as int, l));
                            let k = choose|k: int|
                                prior.len() <= k < out@.len() && (#[trigger] out@[k]@).holds(l);
                            assert(out@[k]@.author == au);
                        } else {
                            assert(line_labeled(prior, l, au));
                            let k = choose|k: int|
                                0 <= k < prior.len() && (#[trigger] prior[k]@).author == au
                                    && prior[k]@.holds(l);
                            assert(out@[k]@.author == au && out@[k]@.holds(l));
                        }
                    }
                }
                assert forall|k: int, m: int|
                    0 <= k < m < out@.len() && (#[trigger] out@[k]@).author == (#[trigger] out@[m]@).author implies out@[k]@.end_line
                    + 1 < out@[m]@.start_line by {
                    if m < prior.len() {
                        assert(prior[k]@.author == prior[m]@.author);
                    } else if k < prior.len() {
                        assert(writes(seen, prior[k]@.author));
                    }
                }
                assert forall|k: int| 0 <= k < out@.len() implies writes(
                    next,
                    (#[trigger] out@[k]@).author,
                ) && 1 <= out@[k]@.start_line <= out@[k]@.end_line < bounds@.len() by {
                    if k < prior.len() {
                        assert(writes(seen, prior[k]@.author));
                    }
                }
            }
        } else {
            proof {
                assert forall|k: int| 0 <= k < out@.len() implies writes(
                    next,
                    (#[trigger] out@[k]@).author,
                ) by {
                    assert(writes(seen, out@[k]@.author));
                }
            }
        }
        i = i + 1;
    }
    proof {
        assert(attributions@.take(attributions@.len() as int) =~= attributions@);
        assert forall|l: int, author: Seq<char>| #[trigger]
            line_labeled(out@, l, author) <==> line_touched(attributions@, b, l, author) by {
            if line_touched(attributions@, b, l, author) {
                let w = choose|w: int|
                    0 <= w < attributions@.len() && (#[trigger] attributions@[w]@).author == author
                        && touches(attributions@[w]@, b, l);
                assert(writes(attributions@, author));
            }
        }
    }
    out
}

/// The bytes of the lines `first..=last` of a file whose lines have the
/// bounds `bounds`, a range that reaches past the last line ending with the
/// file. Nothing where the range is empty or starts outside the file.
pub open spec fn line_span(bounds: Seq<int>, first: int, last: int) -> Option<(int, int)> {
    if 1 <= first <= last && first < bounds.len() {
        Some(
            (
                bounds[first - 1],
                if last < bounds.len() {
                    bounds[last]
                } else {
                    bounds.last()
                },
            ),
        )
    } else {
        None
    }
}

/// The byte attributions that stand for `lines`, all at time `ts`: one for
/// each line attribution that has a span in the file, in the given order.
pub open spec fn byte_attributions(lines: Seq<LineAttribution>, bounds: Seq<int>, ts: int) -> Seq<
    AttributionView,
>
    decreases lines.len(),
{
    if lines.len() == 0 {
        Seq::empty()
    } else {
        let init = byte_attributions(lines.drop_last(), bounds, ts);
        let x = lines.last()@;
        match line_span(bounds, x.start_line, x.end_line) {
            Some(span) => init.push(
                AttributionView { start: span.0, end: span.1, author: x.author, timestamp: ts },
            ),
            None => init,
        }
    }
}

/// The attributions of a list as plain values.
pub open spec fn views(attrs: Seq<Attribution>) -> Seq<AttributionView> {
    attrs.map_values(|a: Attribution| a@)
}

/// Turns line attributions into byte attributions at time `ts`: each covers
/// its lines whole, newlines included.
pub fn line_attributions_to_attributions(
    line_attributions: &Vec<LineAttribution>,
    content: &str,
    ts: u128,
) -> (r: Vec<Attribution>)
    ensures
        views(r@) == byte_attributions(
            line_attributions@,
            line_bounds(content.spec_bytes()),
            ts as int,
        ),
{
    let bounds = compute_line_bounds(content.as_bytes());
    let ghost b = line_bounds(content.spec_bytes());
    proof {
        assert(as_ints(bounds@).len() == bounds@.len());
        lemma_line_bounds(content.spec_bytes());
    }
    let n: usize = bounds.len() - 1;
    let mut out: Vec<Attribution> = Vec::new();
    let mut i: usize = 0;
    while i < line_attributions.len()
        invariant
            i <= line_attributions@.len(),
            b == as_ints(bounds@),
            n == bounds@.len() - 1,
            views(out@) == byte_attributions(line_attributions@.take(i as int), b, ts as int),
        decreases line_attributions@.len() - i,
    {
        let x = &line_attributions[i];
        proof {
            assert(line_attributions@.take(i + 1).drop_last() =~= line_attributions@.take(
                i as int,
            ));
        }
        let first: usize = x.start_line as usize;
        let last: usize = x.end_line as usize;
        if 1 <= first && first <= last && first <= n {
            let stop: usize = if last <= n {
                last
            } else {
                n
            };
            let ghost prior = out@;
            let a = Attribution::new(bounds[first - 1], bounds[stop], x.author_id.clone(), ts);
            out.push(a);
            assert(views(out@) =~= views(prior).push(a@));
        }
        i = i + 1;
    }
    assert(line_attributions@.take(line_attributions@.len() as int) =~= line_attributions@);
    out
}

/// Whether the attribution at `i` is the one that counts at position `p`:
/// of all attributions that hold `p` it has the greatest time, and of those
/// with that time it stands last.
pub open spec fn wins(attrs: Seq<Attribution>, p: int, i: int) -> bool {
    &&& 0 <= i < attrs.len()
    &&& attrs[i]@.covers(p)
    &&& forall|j: int|
        0 <= j < attrs.len() && (#[trigger] attrs[j]@).covers(p) ==> attrs[j]@.timestamp
            < attrs[i]@.timestamp || (attrs[j]@.timestamp == attrs[i]@.timestamp && j <= i)
}

/// Attributions that share no position, in ascending order.
pub open spec fn disjoint(attrs: Seq<Attribution>) -> bool {
    forall|k: int, m: int|
        0 <= k < m < attrs.len() ==> (#[trigger] attrs[k]@).end <= (#[trigger] attrs[m]@).start
}

/// `r` says of every position what the attribution that counts there says,
/// and nothing else: its attributions share no position, are in ascending
/// order, none is empty, and none could be merged with the one after it.
pub open spec fn resolved(attrs: Seq<Attribution>, r: Seq<Attribution>) -> bool {
    &&& nonempty(r)
    &&& disjoint(r)
    &&& coalesced(r)
    &&& forall|p: int| #[trigger] covered(r, p) <==> covered(attrs, p)
    &&& forall|p: int, i: int|
        wins(attrs, p, i) ==> #[trigger] labeled(r, p, attrs[i]@.author, attrs[i]@.timestamp)
}

/// The attribution that counts at position `p`, if any holds it.
fn winner_at(attrs: &Vec<Attribution>, p: usize) -> (r: Option<usize>)
    ensures
        match r {
            Some(i) => wins(attrs@, p as int, i as int),
            None => !covered(attrs@, p as int),
        },
{
    let mut best: Option<usize> = None;
    let mut j: usize = 0;
    while j < attrs.len()
        invariant
            j <= attrs@.len(),
            match best {
                Some(i) => i < j && attrs@[i as int]@.covers(p as int) && forall|k: int|
                    0 <= k < j && (#[trigger] attrs@[k]@).covers(p as int) ==> attrs@[k]@.timestamp
                        < attrs@[i as int]@.timestamp || (attrs@[k]@.timestamp
                        == attrs@[i as int]@.timestamp && k <= i),
                None => forall|k: int| 0 <= k < j ==> !(#[trigger] attrs@[k]@).covers(p as int),
            },
        decreases attrs@.len() - j,
    {
        if attrs[j].start <= p && p < attrs[j].end {
            match best {
                Some(i) => {
                    if attrs[j].timestamp >= attrs[i].timestamp {
                        best = Some(j);
                    }
                },
                None => {
                    best = Some(j);
                },
            }
        }
        j = j + 1;
    }
    best
}

impl AttributionTracker {
    /// Settles overlapping attributions: at every position the attribution
    /// with the greatest time counts, among those of one time the one that
    /// stands last.
    pub fn resolve_overlaps(&self, attributions: &Vec<Attribution>) -> (r: Vec<Attribution>)
        ensures
            resolved(attributions@, r@),
    {
        let mut limit: usize = 0;
        let mut k: usize = 0;
        while k < attributions.len()
            invariant
                k <= attributions@.len(),
                forall|j: int| 0 <= j < k ==> (#[trigger] attributions@[j]@).end <= limit,
            decreases attributions@.len() - k,
        {
            if attributions[k].end > limit {
                limit = attributions[k].end;
            }
            k = k + 1;
        }
        let mut out: Vec<Attribution> = Vec::new();
        let mut open: Option<(usize, usize)> = None;
        let mut p: usize = 0;
        while p < limit
            invariant
                p <= limit,
                forall|j: int|
                    0 <= j < attributions@.len() ==> (#[trigger] attributions@[j]@).end <= limit,
                nonempty(out@),
                disjoint(out@),
                coalesced(out@),
                forall|k: int| 0 <= k < out@.len() ==> (#[trigger] out@[k]@).end <= p,
                match open {
                    Some(run) => run.0 < p && run.1 < attributions@.len() && (forall|k: int|
                        0 <= k < out@.len() ==> (#[trigger] out@[k]@).end <= run.0) && (forall|
                        q: int,
                    |
                        run.0 <= q < p ==> #[trigger] covered(attributions@, q)) && (forall|
                        q: int,
                        i: int,
                    |
                        run.0 <= q < p && #[trigger] wins(attributions@, q, i)
                            ==> attributions@[i]@.author == attributions@[run.1 as int]@.author
                            && attributions@[i]@.timestamp
                            == attributions@[run.1 as int]@.timestamp) && (out@.len() > 0
                        && out@.last()@.end == run.0 ==> !(out@.last()@.author
                        == attributions@[run.1 as int]@.author && out@.last()@.timestamp
                        == attributions@[run.1 as int]@.timestamp)),
                    None => p > 0 && out@.len() > 0 && out@.last()@.end == p ==> false,
                },
                forall|q: int| #[trigger]
                    covered(out@, q) <==> covered(attributions@, q) && q < (match open {
                        Some(run) => run.0,
                        None => p,
                    }),
                forall|q: int, i: int|
                    wins(attributions@, q, i) && q < (match open {
                        Some(run) => run.0,
                        None => p,
                    }) ==> #[trigger] labeled(
                        out@,
                        q,
                        attributions@[i]@.author,
                        attributions@[i]@.timestamp,
                    ),
            decreases limit - p,
        {
            let here = winner_at(attributions, p);
            let continues: bool = match (open, here) {
                (Some(run), Some(i)) => attributions[i].timestamp == attributions[run.1].timestamp
                    && attributions[i].author_id == attributions[run.1].author_id,
                _ => false,
            };
            proof {
                if let Some(i) = here {
                    lemma_winner_label(attributions@, p as int, i as int);
                }
            }
            if !continues {
                let ghost prior = out@;
                match open {
                    Some(run) => {
                        let from = &attributions[run.1];
                        let x = Attribution::new(run.0, p, from.author_id.clone(), from.timestamp);
                        out.push(x);
                        proof {
                            lemma_labeled_push(prior, x);
                            assert forall|k: int, m: int|
                                0 <= k < m < out@.len() implies (#[trigger] out@[k]@).end
                                <= (#[trigger] out@[m]@).start by {
                                if m < prior.len() {
                                    assert(prior[k]@.end <= prior[m]@.start);
                                } else {
                                    assert(prior[k]@.end <= run.0);
                                }
                            }
                            assert forall|k: int, m: int|
                                0 <= k && m == k + 1 && m < out@.len() implies !mergeable(
                                (#[trigger] out@[k])@,
                                (#[trigger] out@[m])@,
                            ) by {
                                if m < prior.len() {
                                    assert(!mergeable(prior[k]@, prior[m]@));
                                } else {
                                    assert(prior[k]@.end <= run.0);
                                }
                            }
                            assert forall|q: int, i: int|
                                wins(attributions@, q, i) && q < p implies #[trigger] labeled(
                                out@,
                                q,
                                attributions@[i]@.author,
                                attributions@[i]@.timestamp,
                            ) by {
                                if q >= run.0 {
                                    assert(x@.marks(
                                        q,
                                        attributions@[i]@.author,
                                        attributions@[i]@.timestamp,
                                    ));
                                }
                            }
                        }
                    },
                    None => {},
                }
                open = match here {
                    Some(i) => Some((p, i)),
                    None => None,
                };
                proof {
                    if let Some(i) = here {
                        assert forall|q: int, w: int|
                            p <= q < p + 1 && #[trigger] wins(
                                attributions@,
                                q,
                                w,
                            ) implies attributions@[w]@.author == attributions@[i as int]@.author
                            && attributions@[w]@.timestamp
                            == attributions@[i as int]@.timestamp by {
                            lemma_winner_unique(attributions@, q, w, i as int);
                        }
                    }
                }
            } else {
                proof {
                    let run = open->0;
                    let i = here->0;
                    assert forall|q: int, w: int|
                        run.0 <= q < p + 1 && #[trigger] wins(
                            attributions@,
                            q,
                            w,
                        ) implies attributions@[w]@.author == attributions@[run.1 as int]@.author
                        && attributions@[w]@.timestamp
                        == attributions@[run.1 as int]@.timestamp by {
                        if q == p {
                            lemma_winner_unique(attributions@, q, w, i as int);
                        }
                    }
                }
            }
            p = p + 1;
        }
        match open {
            Some(run) => {
                let ghost prior = out@;
                let from = &attributions[run.1];
                let x = Attribution::new(run.0, limit, from.author_id.clone(), from.timestamp);
                out.push(x);
                proof {
                    lemma_labeled_push(prior, x);
                    assert forall|k: int, m: int| 0 <= k < m < out@.len() implies (#[trigger] out@[k]@).end
                        <= (#[trigger] out@[m]@).start by {
                        if m < prior.len() {
                            assert(prior[k]@.end <= prior[m]@.start);
                        } else {
                            assert(prior[k]@.end <= run.0);
                        }
                    }
                    assert forall|k: int, m: int|
                        0 <= k && m == k + 1 && m < out@.len() implies !mergeable(
                        (#[trigger] out@[k])@,
                        (#[trigger] out@[m])@,
                    ) by {
                        if m < prior.len() {
                            assert(!mergeable(prior[k]@, prior[m]@));
                        } else {
                            assert(prior[k]@.end <= run.0);
                        }
                    }
                    assert forall|q: int, i: int|
                        wins(attributions@, q, i) implies #[trigger] labeled(
                        out@,
                        q,
                        attributions@[i]@.author,
                        attributions@[i]@.timestamp,
                    ) by {
                        assert(attributions@[i]@.end <= limit);
                        if q >= run.0 {
                            assert(x@.marks(
                                q,
                                attributions@[i]@.author,
                                attributions@[i]@.timestamp,
                            ));
                        }
                    }
                    assert forall|q: int| #[trigger]
                        covered(out@, q) <==> covered(attributions@, q) by {
                        if covered(attributions@, q) {
                            let w = choose|w: int|
                                0 <= w < attributions@.len() && (#[trigger] attributions@[w]@).covers(
                                    q,
                                );
                            assert(attributions@[w]@.end <= limit);
                        }
                    }
                }
            },
            None => {
                proof {
                    assert forall|q: int| #[trigger]
                        covered(out@, q) <==> covered(attributions@, q) by {
                        if covered(attributions@, q) {
                            let w = choose|w: int|
                                0 <= w < attributions@.len() && (#[trigger] attributions@[w]@).covers(
                                    q,
                                );
                            assert(attributions@[w]@.end <= limit);
                        }
                    }
                    assert forall|q: int, i: int|
                        wins(attributions@, q, i) implies #[trigger] labeled(
                        out@,
                        q,
                        attributions@[i]@.author,
                        attributions@[i]@.timestamp,
                    ) by {
                        assert(attributions@[i]@.end <= limit);
                    }
                }
            },
        }
        out
    }
}

proof fn lemma_winner_label(attrs: Seq<Attribution>, p: int, i: int)
    requires
        wins(attrs, p, i),
    ensures
        covered(attrs, p),
{
    assert(attrs[i]@.covers(p));
}

proof fn lemma_winner_unique(attrs: Seq<Attribution>, p: int, i: int, j: int)
    requires
        wins(attrs, p, i),
        wins(attrs, p, j),
    ensures
        i == j,
{
    assert(attrs[i]@.covers(p));
    assert(attrs[j]@.covers(p));
}

} // verus!