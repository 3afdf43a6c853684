//! Edit scripts: how one sequence of items is turned into another.

use similar::DiffOp;
use vstd::prelude::*;
use vstd::slice::slice_subrange;

use crate::text::{as_ints, lemma_line_bounds, line_bounds};

verus! {

/// One step of an edit script. Indices and lengths count items of the two
/// sequences that the script relates: lines or bytes.
#[derive(Clone, Copy, Debug, PartialEq, Eq, Structural)]
pub enum EditOp {
    /// `len` items are the same on both sides.
    Equal { old_index: usize, new_index: usize, len: usize },
    /// `old_len` old items have no counterpart.
    Delete { old_index: usize, old_len: usize, new_index: usize },
    /// `new_len` new items have no counterpart.
    Insert { old_index: usize, new_index: usize, new_len: usize },
    /// `old_len` old items give way to `new_len` new ones.
    Replace { old_index: usize, old_len: usize, new_index: usize, new_len: usize },
}

impl EditOp {
    pub open spec fn old_start(self) -> int {
        match self {
            EditOp::Equal { old_index, .. } => old_index as int,
            EditOp::Delete { old_index, .. } => old_index as int,
            EditOp::Insert { old_index, .. } => old_index as int,
            EditOp::Replace { old_index, .. } => old_index as int,
        }
    }

    pub open spec fn old_count(self) -> int {
        match self {
            EditOp::Equal { len, .. } => len as int,
            EditOp::Delete { old_len, .. } => old_len as int,
            EditOp::Insert { .. } => 0,
            EditOp::Replace { old_len, .. } => old_len as int,
        }
    }

    pub open spec fn new_start(self) -> int {
        match self {
            EditOp::Equal { new_index, .. } => new_index as int,
            EditOp::Delete { new_index, .. } => new_index as int,
            EditOp::Insert { new_index, .. } => new_index as int,
            EditOp::Replace { new_index, .. } => new_index as int,
        }
    }

    pub open spec fn new_count(self) -> int {
        match self {
            EditOp::Equal { len, .. } => len as int,
            EditOp::Delete { .. } => 0,
            EditOp::Insert { new_len, .. } => new_len as int,
            EditOp::Replace { new_len, .. } => new_len as int,
        }
    }

    pub open spec fn old_end(self) -> int {
        self.old_start() + self.old_count()
    }

    pub open spec fn new_end(self) -> int {
        self.new_start() + self.new_count()
    }

    /// Whether the step keeps its items.
    pub open spec fn keeps(self) -> bool {
        self is Equal
    }

    /// The step, with its start indices and counts, as four machine integers.
    pub fn parts(&self) -> (r: (usize, usize, usize, usize))
        ensures
            r.0 == self.old_start(),
            r.1 == self.old_count(),
            r.2 == self.new_start(),
            r.3 == self.new_count(),
    {
        match *self {
            EditOp::Equal { old_index, new_index, len } => (old_index, len, new_index, len),
            EditOp::Delete { old_index, old_len, new_index } => (old_index, old_len, new_index, 0),
            EditOp::Insert { old_index, new_index, new_len } => (old_index, 0, new_index, new_len),
            EditOp::Replace { old_index, old_len, new_index, new_len } => (
                old_index,
                old_len,
                new_index,
                new_len,
            ),
        }
    }

    pub fn is_equal(&self) -> (r: bool)
        ensures
            r == self.keeps(),
    {
        match *self {
            EditOp::Equal { .. } => true,
            _ => false,
        }
    }
}

/// The steps of `ops` follow one another without a gap on either side, from
/// the first item of both sequences to their last.
pub open spec fn script_tiles(ops: Seq<EditOp>, old_len: int, new_len: int) -> bool {
    &&& ops.len() == 0 ==> old_len == 0 && new_len == 0
    &&& ops.len() > 0 ==> ops[0].old_start() == 0 && ops[0].new_start() == 0
        && ops.last().old_end() == old_len && ops.last().new_end() == new_len
    &&& forall|k: int, m: int|
        0 <= k && m == k + 1 && m < ops.len() ==> (#[trigger] ops[k]).old_end()
            == (#[trigger] ops[m]).old_start() && ops[k].new_end() == ops[m].new_start()
}

/// `ops` is an edit script from `old` to `new`: it tiles both, and what a
/// step keeps is the same on both sides, item by item.
pub open spec fn script_matches<T>(ops: Seq<EditOp>, old: Seq<T>, new: Seq<T>) -> bool {
    &&& script_tiles(ops, old.len() as int, new.len() as int)
    &&& forall|k: int, j: int|
        0 <= k < ops.len() && (#[trigger] ops[k]).keeps() && 0 <= j < ops[k].old_count()
            ==> #[trigger] old[ops[k].old_start() + j] == new[ops[k].new_start() + j]
}

/// In a script that tiles, steps are in ascending order on both sides.
pub proof fn lemma_tiles_ordered(ops: Seq<EditOp>, old_len: int, new_len: int, k: int, m: int)
    requires
        script_tiles(ops, old_len, new_len),
        0 <= k <= m < ops.len(),
    ensures
        0 <= ops[k].old_start(),
        0 <= ops[k].new_start(),
        ops[k].old_end() <= ops[m].old_end(),
        ops[k].new_end() <= ops[m].new_end(),
        k < m ==> ops[k].old_end() <= ops[m].old_start() && ops[k].new_end() <= ops[m].new_start(),
        ops[m].old_end() <= old_len,
        ops[m].new_end() <= new_len,
    decreases ops.len() - k, ops.len() - m,
{
    if m < ops.len() - 1 {
        lemma_tiles_ordered(ops, old_len, new_len, k, m + 1);
        assert(ops[m].old_end() == ops[m + 1].old_start());
    }
    if k < m {
        lemma_tiles_ordered(ops, old_len, new_len, k + 1, m);
        assert(ops[k].old_end() == ops[k + 1].old_start());
    }
}

/// The lines of `content`, each with the newline that ends it.
pub open spec fn lines_of(content: Seq<u8>) -> Seq<Seq<u8>> {
    Seq::new(
        (line_bounds(content).len() - 1) as nat,
        |i: int| content.subrange(line_bounds(content)[i], line_bounds(content)[i + 1]),
    )
}

/// What each slice of `slices` holds.
pub open spec fn slices_view(slices: Seq<&[u8]>) -> Seq<Seq<u8>> {
    slices.map_values(|s: &[u8]| s@)
}

/// Cuts `content` into its lines.
pub fn split_lines<'a>(content: &'a [u8], bounds: &Vec<usize>) -> (r: Vec<&'a [u8]>)
    requires
        as_ints(bounds@) == line_bounds(content@),
    ensures
        slices_view(r@) == lines_of(content@),
{
    proof {
        lemma_line_bounds(content@);
    }
    let mut out: Vec<&'a [u8]> = Vec::new();
    assert(as_ints(bounds@).len() == bounds@.len());
    let count: usize = bounds.len() - 1;
    let mut i: usize = 0;
    while i < count
        invariant
            as_ints(bounds@) == line_bounds(content@),
            count == bounds@.len() - 1,
            i <= count,
            out@.len() == i,
            line_bounds(content@).last() == content@.len(),
            forall|a: int, b: int|
                0 <= a < b < line_bounds(content@).len() ==> line_bounds(content@)[a]
                    < line_bounds(content@)[b],
            forall|k: int|
                0 <= k < i ==> (#[trigger] out@[k])@ == content@.subrange(
                    line_bounds(content@)[k],
                    line_bounds(content@)[k + 1],
                ),
        decreases count - i,
    {
        let from: usize = bounds[i];
        let to: usize = bounds[i + 1];
        proof {
            assert(as_ints(bounds@)[i as int] == from);
            assert(as_ints(bounds@)[i + 1] == to);
            let last = line_bounds(content@).len() - 1;
            if i + 1 < last {
                assert(line_bounds(content@)[i + 1] < line_bounds(content@)[last]);
            }
        }
        out.push(slice_subrange(content, from, to));
        i = i + 1;
    }
    assert(as_ints(bounds@).len() == bounds@.len());
    assert(slices_view(out@) =~= lines_of(content@));
    out
}

/// The edit script that the Myers algorithm of the `similar` crate finds
/// between two sequences of lines.
pub uninterp spec fn myers_diff(old: Seq<Seq<u8>>, new: Seq<Seq<u8>>) -> Seq<EditOp>;

/// Runs `similar::capture_diff_slices` with the Myers algorithm on the two
/// sequences of lines and hands back its steps, variant by variant. Nothing
/// is claimed of the steps but that they are what that call returns.
#[verifier::external_body]
pub(crate) fn capture_line_diff(old: &Vec<&[u8]>, new: &Vec<&[u8]>) -> (ops: Vec<EditOp>)
    ensures
        ops@ == myers_diff(slices_view(old@), slices_view(new@)),
{
    let mut out = Vec::new();
    for op in similar::capture_diff_slices(similar::Algorithm::Myers, old, new) {
        out.push(match op {
            DiffOp::Equal { old_index, new_index, len } => EditOp::Equal { old_index, new_index, len },
            DiffOp::Delete { old_index, old_len, new_index } => EditOp::Delete { old_index, old_len, new_index },
            DiffOp::Insert { old_index, new_index, new_len } => EditOp::Insert { old_index, new_index, new_len },
            DiffOp::Replace { old_index, old_len, new_index, new_len } => EditOp::Replace { old_index, old_len, new_index, new_len },
        });
    }
    out
}

/// The edit script that `TextDiff::from_lines` of the `similar` crate finds
/// between two texts, each cut into lines the way that crate cuts them.
pub uninterp spec fn lines_diff(old: Seq<char>, new: Seq<char>) -> Seq<EditOp>;

/// Runs `similar::TextDiff::from_lines` on the two texts and hands back the
/// steps of `ops`, variant by variant. Nothing is claimed of the steps but
/// that they are what that call returns.
#[verifier::external_body]
pub(crate) fn capture_text_diff(old: &str, new: &str) -> (ops: Vec<EditOp>)
    ensures
        ops@ == lines_diff(old@, new@),
{
    let mut out = Vec::new();
    for op in similar::TextDiff::from_lines(old, new).ops() {
        out.push(match *op {
            DiffOp::Equal { old_index, new_index, len } => EditOp::Equal { old_index, new_index, len },
            DiffOp::Delete { old_index, old_len, new_index } => EditOp::Delete { old_index, old_len, new_index },
            DiffOp::Insert { old_index, new_index, new_len } => EditOp::Insert { old_index, new_index, new_len },
            DiffOp::Replace { old_index, old_len, new_index, new_len } => EditOp::Replace { old_index, old_len, new_index, new_len },
        });
    }
    out
}

/// Whether a step over lines lies within `old_lines` and `new_lines` lines.
pub open spec fn fits(op: EditOp, old_lines: int, new_lines: int) -> bool {
    op.old_end() <= old_lines && op.new_end() <= new_lines
}

/// A step over lines as a step over bytes, given where the lines of both
/// sides begin and end. A kept run has the byte length of its old lines.
pub open spec fn byte_op(op: EditOp, old_bounds: Seq<int>, new_bounds: Seq<int>) -> EditOp {
    let os = old_bounds[op.old_start()];
    let oe = old_bounds[op.old_end()];
    let ns = new_bounds[op.new_start()];
    let ne = new_bounds[op.new_end()];
    match op {
        EditOp::Equal { .. } => EditOp::Equal {
            old_index: os as usize,
            new_index: ns as usize,
            len: (oe - os) as usize,
        },
        EditOp::Delete { .. } => EditOp::Delete {
            old_index: os as usize,
            old_len: (oe - os) as usize,
            new_index: ns as usize,
        },
        EditOp::Insert { .. } => EditOp::Insert {
            old_index: os as usize,
            new_index: ns as usize,
            new_len: (ne - ns) as usize,
        },
        EditOp::Replace { .. } => EditOp::Replace {
            old_index: os as usize,
            old_len: (oe - os) as usize,
            new_index: ns as usize,
            new_len: (ne - ns) as usize,
        },
    }
}

/// A script over lines as a script over bytes, or nothing where one of its
/// steps reaches past the lines of either side.
pub open spec fn byte_script(ops: Seq<EditOp>, old_bounds: Seq<int>, new_bounds: Seq<int>) -> Option<
    Seq<EditOp>,
> {
    if forall|k: int|
        0 <= k < ops.len() ==> fits(#[trigger] ops[k], old_bounds.len() - 1, new_bounds.len() - 1) {
        Some(ops.map_values(|op: EditOp| byte_op(op, old_bounds, new_bounds)))
    } else {
        None
    }
}

/// Non-decreasing offsets.
pub open spec fn rising(bounds: Seq<usize>) -> bool {
    forall|i: int, j: int| 0 <= i <= j < bounds.len() ==> bounds[i] <= bounds[j]
}

/// Turns a script over lines into one over bytes.
pub fn to_byte_script(ops: &Vec<EditOp>, old_bounds: &Vec<usize>, new_bounds: &Vec<usize>) -> (r:
    Option<Vec<EditOp>>)
    requires
        old_bounds@.len() >= 1,
        new_bounds@.len() >= 1,
        rising(old_bounds@),
        rising(new_bounds@),
    ensures
        r matches Some(v) ==> byte_script(ops@, as_ints(old_bounds@), as_ints(new_bounds@))
            == Some(v@),
        r is None ==> byte_script(ops@, as_ints(old_bounds@), as_ints(new_bounds@)) is None,
{
    let ghost ob = as_ints(old_bounds@);
    let ghost nb = as_ints(new_bounds@);
    let old_lines: usize = old_bounds.len() - 1;
    let new_lines: usize = new_bounds.len() - 1;
    let mut out: Vec<EditOp> = Vec::new();
    let mut k: usize = 0;
    while k < ops.len()
        invariant
            k <= ops@.len(),
            ob == as_ints(old_bounds@),
            nb == as_ints(new_bounds@),
            old_lines == old_bounds@.len() - 1,
            new_lines == new_bounds@.len() - 1,
            rising(old_bounds@),
            rising(new_bounds@),
            out@.len() == k,
            forall|i: int| 0 <= i < k ==> fits(#[trigger] ops@[i], ob.len() - 1, nb.len() - 1),
            forall|i: int| 0 <= i < k ==> out@[i] == byte_op(ops@[i], ob, nb),
        decreases ops@.len() - k,
    {
        let op: EditOp = ops[k];
        let (os, oc, ns, nc) = op.parts();
        if oc > old_lines || os > old_lines - oc || nc > new_lines || ns > new_lines - nc {
            assert(!fits(ops@[k as int], ob.len() - 1, nb.len() - 1));
            return None;
        }
        let bos: usize = old_bounds[os];
        let boe: usize = old_bounds[os + oc];
        let bns: usize = new_bounds[ns];
        let bne: usize = new_bounds[ns + nc];
        let converted: EditOp = match op {
            EditOp::Equal { .. } => EditOp::Equal { old_index: bos, new_index: bns, len: boe - bos },
            EditOp::Delete { .. } => EditOp::Delete {
                old_index: bos,
                old_len: boe - bos,
                new_index: bns,
            },
            EditOp::Insert { .. } => EditOp::Insert {
                old_index: bos,
                new_index: bns,
                new_len: bne - bns,
            },
            EditOp::Replace { .. } => EditOp::Replace {
                old_index: bos,
                old_len: boe - bos,
                new_index: bns,
                new_len: bne - bns,
            },
        };
        assert(converted == byte_op(op, ob, nb));
        out.push(converted);
        k = k + 1;
    }
    assert(out@ =~= ops@.map_values(|op: EditOp| byte_op(op, ob, nb)));
    Some(out)
}

/// Whether `ops` is an edit script from `old` to `new`.
pub fn check_script(ops: &Vec<EditOp>, old: &[u8], new: &[u8]) -> (r: bool)
    ensures
        r == script_matches(ops@, old@, new@),
{
    let mut old_pos: usize = 0;
    let mut new_pos: usize = 0;
    let mut k: usize = 0;
    while k < ops.len()
        invariant
            k <= ops@.len(),
            old_pos <= old@.len(),
            new_pos <= new@.len(),
            k == 0 ==> old_pos == 0 && new_pos == 0,
            k > 0 ==> ops@[0].old_start() == 0 && ops@[0].new_start() == 0 && old_pos == ops@[k
                - 1].old_end() && new_pos == ops@[k - 1].new_end(),
            forall|i: int, m: int|
                0 <= i && m == i + 1 && m < k ==> (#[trigger] ops@[i]).old_end()
                    == (#[trigger] ops@[m]).old_start() && ops@[i].new_end() == ops@[m].new_start(),
            forall|i: int, j: int|
                0 <= i < k && (#[trigger] ops@[i]).keeps() && 0 <= j < ops@[i].old_count()
                    ==> #[trigger] old@[ops@[i].old_start() + j] == new@[ops@[i].new_start() + j],
        decreases ops@.len() - k,
    {
        let op: EditOp = ops[k];
        let (os, oc, ns, nc) = op.parts();
        if os != old_pos || ns != new_pos {
            proof {
                if script_matches(ops@, old@, new@) {
                    if k > 0 {
                        assert(ops@[k - 1].old_end() == ops@[k as int].old_start());
                    }
                }
            }
            return false;
        }
        if oc > old.len() - old_pos || nc > new.len() - new_pos {
            proof {
                if script_matches(ops@, old@, new@) {
                    lemma_tiles_ordered(
                        ops@,
                        old@.len() as int,
                        new@.len() as int,
                        k as int,
                        k as int,
                    );
                }
            }
            return false;
        }
        if op.is_equal() {
            let mut j: usize = 0;
            while j < oc
                invariant
                    j <= oc,
                    oc == nc,
                    os == ops@[k as int].old_start(),
                    ns == ops@[k as int].new_start(),
                    oc == ops@[k as int].old_count(),
                    ops@[k as int].keeps(),
                    k < ops@.len(),
                    os + oc <= old.len(),
                    ns + nc <= new.len(),
                    forall|t: int| 0 <= t < j ==> #[trigger] old@[os + t] == new@[ns + t],
                decreases oc - j,
            {
                if old[os + j] != new[ns + j] {
                    proof {
                        if script_matches(ops@, old@, new@) {
                            assert(old@[ops@[k as int].old_start() + j] == new@[ops@[k as int].new_start()
                                + j]);
                        }
                    }
                    return false;
                }
                j = j + 1;
            }
        }
        old_pos = os + oc;
        new_pos = ns + nc;
        k = k + 1;
    }
    old_pos == old.len() && new_pos == new.len()
}

} // verus!
