//! Compressed sets of line numbers.

use vstd::prelude::*;

use crate::authorship::edit_script::EditOp;

verus! {

/// One run of a compressed set of 1-based line numbers: a single line or an
/// inclusive range.
#[derive(Clone, Copy, Debug, PartialEq, Eq, Structural)]
pub enum LineRange {
    Single(u32),
    Range(u32, u32),
}

impl LineRange {
    /// The first line of the run.
    pub open spec fn first(self) -> int {
        match self {
            LineRange::Single(l) => l as int,
            LineRange::Range(s, _) => s as int,
        }
    }

    /// The last line of the run.
    pub open spec fn last(self) -> int {
        match self {
            LineRange::Single(l) => l as int,
            LineRange::Range(_, e) => e as int,
        }
    }

    /// Whether `line` belongs to the run.
    pub open spec fn holds(self, line: int) -> bool {
        self.first() <= line <= self.last()
    }

    /// How many lines the run holds; a range whose end lies before its start
    /// holds none.
    pub open spec fn count(self) -> nat {
        if self.first() <= self.last() {
            (self.last() - self.first() + 1) as nat
        } else {
            0
        }
    }

    /// The lines of the run in ascending order.
    pub open spec fn lines(self) -> Seq<u32> {
        Seq::new(self.count(), |i: int| (self.first() + i) as u32)
    }

    /// A run in compressed form: a range spans at least two lines.
    pub open spec fn compact(self) -> bool {
        match self {
            LineRange::Single(_) => true,
            LineRange::Range(s, e) => s < e,
        }
    }

    /// The run from `s` to `e`, written as `Single` where both coincide.
    pub open spec fn spanning(s: u32, e: u32) -> LineRange {
        if s == e {
            LineRange::Single(s)
        } else {
            LineRange::Range(s, e)
        }
    }

    pub fn start(&self) -> (r: u32)
        ensures
            r == self.first(),
    {
        match self {
            LineRange::Single(l) => *l,
            LineRange::Range(s, _) => *s,
        }
    }

    pub fn end(&self) -> (r: u32)
        ensures
            r == self.last(),
    {
        match self {
            LineRange::Single(l) => *l,
            LineRange::Range(_, e) => *e,
        }
    }

    pub fn contains(&self, line: u32) -> (r: bool)
        ensures
            r == self.holds(line as int),
    {
        match self {
            LineRange::Single(l) => *l == line,
            LineRange::Range(s, e) => *s <= line && line <= *e,
        }
    }

    /// The number of lines in the run.
    pub fn line_count(&self) -> (r: u64)
        ensures
            r == self.count(),
    {
        match self {
            LineRange::Single(_) => 1,
            LineRange::Range(s, e) => {
                if *s <= *e {
                    (*e - *s) as u64 + 1
                } else {
                    0
                }
            },
        }
    }

    /// Every line of the run, ascending.
    pub fn expand(&self) -> (r: Vec<u32>)
        ensures
            r@ == self.lines(),
    {
        let s: u32 = self.start();
        let e: u32 = self.end();
        let mut out: Vec<u32> = Vec::new();
        if s > e {
            return out;
        }
        let mut line: u32 = s;
        loop
            invariant_except_break
                out@.len() == line - s,
            invariant
                s <= line <= e,
                s == self.first(),
                e == self.last(),
                forall|i: int| 0 <= i < out@.len() ==> out@[i] == s + i,
            ensures
                out@.len() == e - s + 1,
                forall|i: int| 0 <= i < out@.len() ==> out@[i] == s + i,
            decreases e - line,
        {
            out.push(line);
            if line == e {
                break;
            }
            line = line + 1;
        }
        assert(out@ =~= self.lines());
        out
    }

    /// Compresses a list of line numbers into runs.
    pub fn compress_lines(lines: &[u32]) -> (r: Vec<LineRange>)
        ensures
            r@ == compress(lines@),
    {
        let mut out: Vec<LineRange> = Vec::new();
        let mut i: usize = 0;
        while i < lines.len()
            invariant
                i <= lines.len(),
                out@ == compress(lines@.take(i as int)),
            decreases lines.len() - i,
        {
            let line: u32 = lines[i];
            let n: usize = out.len();
            proof {
                assert(lines@.take(i + 1).drop_last() =~= lines@.take(i as int));
            }
            if n == 0 {
                out.push(LineRange::Single(line));
                assert(out@ =~= seq![LineRange::Single(line)]);
            } else {
                let prev: LineRange = out[n - 1];
                let e: u32 = prev.end();
                if line == e {
                } else if e < u32::MAX && line == e + 1 {
                    let ghost before = out@;
                    out.set(n - 1, LineRange::Range(prev.start(), line));
                    assert(out@ =~= before.drop_last().push(
                        LineRange::Range(before.last().first() as u32, line),
                    ));
                } else {
                    out.push(LineRange::Single(line));
                }
            }
            i = i + 1;
        }
        assert(lines@.take(lines.len() as int) =~= lines@);
        out
    }
}

/// The lines of all runs of `ranges`, in the order of the runs.
pub open spec fn all_lines(ranges: Seq<LineRange>) -> Seq<u32>
    decreases ranges.len(),
{
    if ranges.len() == 0 {
        Seq::empty()
    } else {
        all_lines(ranges.drop_last()) + ranges.last().lines()
    }
}

/// Whether some run of `ranges` holds `line`.
pub open spec fn ranges_hold(ranges: Seq<LineRange>, line: int) -> bool {
    exists|i: int| 0 <= i < ranges.len() && #[trigger] ranges[i].holds(line)
}

/// Non-decreasing line numbers.
pub open spec fn ascending(lines: Seq<u32>) -> bool {
    forall|i: int, j: int| 0 <= i <= j < lines.len() ==> lines[i] <= lines[j]
}

/// The compressed form of a set of lines: every run is compact, runs are in
/// ascending order, and between two neighbours at least one line is missing.
pub open spec fn compressed(ranges: Seq<LineRange>) -> bool {
    &&& forall|i: int| 0 <= i < ranges.len() ==> (#[trigger] ranges[i]).compact()
    &&& forall|i: int|
        0 <= i < ranges.len() - 1 ==> (#[trigger] ranges[i]).last() + 1 < ranges[i + 1].first()
}

/// What compression makes of `lines`, read left to right: a line equal to the
/// end of the run before it is dropped, a line one past that end extends the
/// run, and any other line starts a new run.
pub open spec fn compress(lines: Seq<u32>) -> Seq<LineRange>
    decreases lines.len(),
{
    if lines.len() == 0 {
        Seq::empty()
    } else {
        let before = compress(lines.drop_last());
        let line = lines.last();
        if before.len() == 0 {
            seq![LineRange::Single(line)]
        } else if line == before.last().last() {
            before
        } else if line == before.last().last() + 1 {
            before.drop_last().push(LineRange::Range(before.last().first() as u32, line))
        } else {
            before.push(LineRange::Single(line))
        }
    }
}

/// `count` consecutive lines starting at `s`.
pub open spec fn run_of(s: u32, count: nat) -> Seq<u32> {
    Seq::new(count, |i: int| (s + i) as u32)
}

proof fn lemma_compress_run(a: Seq<u32>, s: u32, k: nat)
    requires
        s + k <= u32::MAX,
        compress(a).len() > 0 ==> compress(a).last().last() + 1 < s,
    ensures
        compress(a + run_of(s, k + 1)) == compress(a).push(LineRange::spanning(s, (s + k) as u32)),
    decreases k,
{
    let whole = a + run_of(s, k + 1);
    if k == 0 {
        assert(whole.drop_last() =~= a);
        assert(whole.last() == s);
        if compress(a).len() == 0 {
            assert(compress(a).push(LineRange::Single(s)) =~= seq![LineRange::Single(s)]);
        }
    } else {
        let shorter = a + run_of(s, k);
        assert(whole.drop_last() =~= shorter);
        assert(whole.last() == s + k);
        lemma_compress_run(a, s, (k - 1) as nat);
        let before = compress(shorter);
        assert(before.last() == LineRange::spanning(s, (s + k - 1) as u32));
        assert(before.drop_last() =~= compress(a));
    }
}

/// Expanding a compressed set of runs and compressing the lines again gives
/// the same runs back.
pub proof fn lemma_compress_expand_round_trip(ranges: Seq<LineRange>)
    requires
        compressed(ranges),
    ensures
        compress(all_lines(ranges)) == ranges,
    decreases ranges.len(),
{
    if ranges.len() > 0 {
        let init = ranges.drop_last();
        let r = ranges.last();
        assert(compressed(init)) by {
            assert forall|i: int| 0 <= i < init.len() - 1 implies (#[trigger] init[i]).last() + 1
                < init[i + 1].first() by {
                assert(ranges[i].last() + 1 < ranges[i + 1].first());
            }
        }
        lemma_compress_expand_round_trip(init);
        assert(r.compact());
        if init.len() > 0 {
            assert(ranges[init.len() - 1].last() + 1 < ranges[init.len() - 1 + 1].first());
        }
        let k = (r.last() - r.first()) as nat;
        assert(r.lines() =~= run_of(r.first() as u32, k + 1));
        lemma_compress_run(all_lines(init), r.first() as u32, k);
        assert(LineRange::spanning(r.first() as u32, (r.first() + k) as u32) == r);
        assert(init.push(r) =~= ranges);
    }
}

/// Compressing ascending line numbers gives runs in compressed form that hold
/// exactly the given lines, the last run ending at the last line.
pub proof fn lemma_compress_ascending(lines: Seq<u32>)
    requires
        ascending(lines),
    ensures
        compressed(compress(lines)),
        forall|l: int| ranges_hold(compress(lines), l) <==> exists|i: int|
            0 <= i < lines.len() && lines[i] == l,
        lines.len() > 0 ==> compress(lines).len() > 0 && compress(lines).last().last()
            == lines.last(),
        forall|i: int|
            0 <= i < compress(lines).len() ==> (#[trigger] compress(lines)[i]).first() >= lines[0],
    decreases lines.len(),
{
    if lines.len() > 0 {
        let init = lines.drop_last();
        let x = lines.last();
        lemma_compress_ascending(init);
        let before = compress(init);
        let after = compress(lines);
        if init.len() > 0 {
            assert(init.last() == lines[lines.len() - 2]);
            assert(init[0] == lines[0]);
        }
        assert forall|l: int| ranges_hold(after, l) <==> exists|i: int|
            0 <= i < lines.len() && lines[i] == l by {
            if ranges_hold(after, l) {
                let w = choose|i: int| 0 <= i < after.len() && #[trigger] after[i].holds(l);
                if w < after.len() - 1 || (before.len() > 0 && x == before.last().last()) {
                    assert(before[w].holds(l));
                    assert(ranges_hold(before, l));
                    let j = choose|j: int| 0 <= j < init.len() && init[j] == l;
                    assert(lines[j] == l);
                } else if l == x {
                    assert(lines[lines.len() - 1] == l);
                } else {
                    assert(before[before.len() - 1].holds(l));
                    assert(ranges_hold(before, l));
                    let j = choose|j: int| 0 <= j < init.len() && init[j] == l;
                    assert(lines[j] == l);
                }
            }
            if exists|i: int| 0 <= i < lines.len() && lines[i] == l {
                let j = choose|j: int| 0 <= j < lines.len() && lines[j] == l;
                if j < init.len() {
                    assert(init[j] == l);
                    assert(ranges_hold(before, l));
                    let w = choose|i: int| 0 <= i < before.len() && #[trigger] before[i].holds(l);
                    if w < before.len() - 1 {
                        assert(after[w] == before[w]);
                        assert(after[w].holds(l));
                    } else {
                        assert(after[w].holds(l));
                    }
                } else {
                    assert(after[after.len() - 1].holds(l));
                }
            }
        }
    }
}

/// Whether some run of `ranges` holds `line`.
pub fn ranges_contain(ranges: &Vec<LineRange>, line: u32) -> (r: bool)
    ensures
        r == ranges_hold(ranges@, line as int),
{
    let mut i: usize = 0;
    while i < ranges.len()
        invariant
            i <= ranges@.len(),
            forall|k: int| 0 <= k < i ==> !(#[trigger] ranges@[k]).holds(line as int),
        decreases ranges@.len() - i,
    {
        if ranges[i].contains(line) {
            return true;
        }
        i = i + 1;
    }
    false
}

/// Every line of every run, in the order of the runs.
pub fn expand_all(ranges: &Vec<LineRange>) -> (r: Vec<u32>)
    ensures
        r@ == all_lines(ranges@),
{
    let mut out: Vec<u32> = Vec::new();
    let mut i: usize = 0;
    while i < ranges.len()
        invariant
            i <= ranges@.len(),
            out@ == all_lines(ranges@.take(i as int)),
        decreases ranges@.len() - i,
    {
        proof {
            assert(ranges@.take(i + 1).drop_last() =~= ranges@.take(i as int));
        }
        let lines = ranges[i].expand();
        let ghost before = out@;
        out.extend_from_slice(lines.as_slice());
        assert(out@ =~= before + ranges@[i as int].lines());
        i = i + 1;
    }
    assert(ranges@.take(ranges@.len() as int) =~= ranges@);
    out
}

/// How many of `lines` lie before line `w`.
pub open spec fn count_below(lines: Seq<u32>, w: int) -> int
    decreases lines.len(),
{
    if lines.len() == 0 {
        0
    } else {
        count_below(lines.drop_last(), w) + if lines.last() < w {
            1int
        } else {
            0int
        }
    }
}

/// Where line `w` of the working tree stands in the commit, `unstaged` being
/// the lines of the working tree that the commit lacks: as many lines
/// earlier as unstaged lines lie before it.
pub open spec fn commit_line(unstaged: Seq<u32>, w: u32) -> u32 {
    if count_below(unstaged, w as int) <= w {
        (w - count_below(unstaged, w as int)) as u32
    } else {
        0
    }
}

/// The lines of `lines` in the coordinates of the commit.
pub open spec fn commit_lines(lines: Seq<u32>, unstaged: Seq<u32>) -> Seq<u32> {
    lines.map_values(|w: u32| commit_line(unstaged, w))
}

/// Takes lines of the working tree to the coordinates of the commit.
pub fn to_commit_lines(lines: &Vec<u32>, unstaged: &Vec<u32>) -> (r: Vec<u32>)
    ensures
        r@ == commit_lines(lines@, unstaged@),
{
    let mut out: Vec<u32> = Vec::new();
    let mut i: usize = 0;
    while i < lines.len()
        invariant
            i <= lines@.len(),
            out@.len() == i,
            forall|k: int| 0 <= k < i ==> out@[k] == commit_line(unstaged@, lines@[k]),
        decreases lines@.len() - i,
    {
        let w: u32 = lines[i];
        let mut below: usize = 0;
        let mut j: usize = 0;
        while j < unstaged.len()
            invariant
                j <= unstaged@.len(),
                below == count_below(unstaged@.take(j as int), w as int),
                below <= j,
            decreases unstaged@.len() - j,
        {
            proof {
                assert(unstaged@.take(j + 1).drop_last() =~= unstaged@.take(j as int));
            }
            if unstaged[j] < w {
                below = below + 1;
            }
            j = j + 1;
        }
        assert(unstaged@.take(unstaged@.len() as int) =~= unstaged@);
        let line: u32 = if below <= w as usize {
            w - below as u32
        } else {
            0
        };
        out.push(line);
        i = i + 1;
    }
    assert(out@ =~= commit_lines(lines@, unstaged@));
    out
}

/// `sorted` with `x` put in after the last line that is no greater.
pub open spec fn insert_line(sorted: Seq<u32>, x: u32) -> Seq<u32>
    decreases sorted.len(),
{
    if sorted.len() == 0 {
        seq![x]
    } else if sorted.last() <= x {
        sorted.push(x)
    } else {
        insert_line(sorted.drop_last(), x).push(sorted.last())
    }
}

/// The lines in ascending order.
pub open spec fn sort_lines(lines: Seq<u32>) -> Seq<u32>
    decreases lines.len(),
{
    if lines.len() == 0 {
        Seq::empty()
    } else {
        insert_line(sort_lines(lines.drop_last()), lines.last())
    }
}

proof fn lemma_insert_line_at(sorted: Seq<u32>, x: u32, i: int)
    requires
        0 <= i <= sorted.len(),
        i > 0 ==> sorted[i - 1] <= x,
        forall|j: int| i <= j < sorted.len() ==> #[trigger] sorted[j] > x,
    ensures
        insert_line(sorted, x) == sorted.insert(i, x),
    decreases sorted.len(),
{
    if sorted.len() == 0 {
        assert(sorted.insert(0, x) =~= seq![x]);
    } else if i == sorted.len() {
        assert(sorted.insert(i, x) =~= sorted.push(x));
    } else {
        assert(sorted[sorted.len() - 1] > x);
        let init = sorted.drop_last();
        assert forall|j: int| i <= j < init.len() implies #[trigger] init[j] > x by {
            assert(init[j] == sorted[j]);
        }
        lemma_insert_line_at(init, x, i);
        assert(init.insert(i, x).push(sorted.last()) =~= sorted.insert(i, x));
    }
}

proof fn lemma_insert_line_ascending(sorted: Seq<u32>, x: u32)
    requires
        ascending(sorted),
    ensures
        ascending(insert_line(sorted, x)),
        insert_line(sorted, x).len() == sorted.len() + 1,
        insert_line(sorted, x).contains(x),
        forall|l: u32|
            #![trigger insert_line(sorted, x).contains(l)]
            insert_line(sorted, x).contains(l) <==> sorted.contains(l) || l == x,
    decreases sorted.len(),
{
    let r = insert_line(sorted, x);
    if sorted.len() == 0 {
        assert(r[0] == x);
        assert forall|l: u32| #![trigger r.contains(l)] r.contains(l) <==> sorted.contains(l) || l == x by {
            if l == x {
                assert(r[0] == l);
            }
        }
    } else if sorted.last() <= x {
        assert forall|i: int, j: int| 0 <= i <= j < r.len() implies r[i] <= r[j] by {
            if j == sorted.len() && i < sorted.len() {
                assert(sorted[i] <= sorted[sorted.len() - 1]);
            }
        }
        assert(r[sorted.len() as int] == x);
        assert forall|l: u32| #![trigger r.contains(l)] r.contains(l) <==> sorted.contains(l) || l == x by {
            if r.contains(l) {
                let k = choose|k: int| 0 <= k < r.len() && r[k] == l;
                if k < sorted.len() {
                    assert(sorted[k] == l);
                }
            }
            if sorted.contains(l) {
                let k = choose|k: int| 0 <= k < sorted.len() && sorted[k] == l;
                assert(r[k] == l);
            }
            if l == x {
                assert(r[sorted.len() as int] == l);
            }
        }
    } else {
        let init = sorted.drop_last();
        assert(ascending(init)) by {
            assert forall|i: int, j: int| 0 <= i <= j < init.len() implies init[i] <= init[j] by {
                assert(sorted[i] <= sorted[j]);
            }
        }
        lemma_insert_line_ascending(init, x);
        let mid = insert_line(init, x);
        assert forall|i: int, j: int| 0 <= i <= j < r.len() implies r[i] <= r[j] by {
            if j == mid.len() && i < mid.len() {
                assert(mid.contains(mid[i]));
                if init.contains(mid[i]) {
                    let k = choose|k: int| 0 <= k < init.len() && init[k] == mid[i];
                    assert(sorted[k] <= sorted[sorted.len() - 1]);
                }
            }
        }
        assert(mid.contains(x));
        let mx = choose|m: int| 0 <= m < mid.len() && mid[m] == x;
        assert(r[mx] == x);
        assert forall|l: u32| #![trigger r.contains(l)] r.contains(l) <==> sorted.contains(l) || l == x by {
            if r.contains(l) {
                let k = choose|k: int| 0 <= k < r.len() && r[k] == l;
                if k < mid.len() {
                    assert(mid[k] == l);
                    assert(mid.contains(l));
                    if init.contains(l) {
                        let m = choose|m: int| 0 <= m < init.len() && init[m] == l;
                        assert(sorted[m] == l);
                    }
                } else {
                    assert(sorted[sorted.len() - 1] == l);
                }
            }
            if sorted.contains(l) {
                let k = choose|k: int| 0 <= k < sorted.len() && sorted[k] == l;
                if k < init.len() {
                    assert(init[k] == l);
                    assert(init.contains(l));
                    assert(mid.contains(l));
                    let m = choose|m: int| 0 <= m < mid.len() && mid[m] == l;
                    assert(r[m] == l);
                } else {
                    assert(r[mid.len() as int] == l);
                }
            }
        }
    }
}

/// Sorting gives the same lines in ascending order.
pub proof fn lemma_sort_lines(lines: Seq<u32>)
    ensures
        ascending(sort_lines(lines)),
        sort_lines(lines).len() == lines.len(),
        forall|l: u32|
            #![trigger sort_lines(lines).contains(l)]
            sort_lines(lines).contains(l) <==> lines.contains(l),
    decreases lines.len(),
{
    if lines.len() > 0 {
        let init = lines.drop_last();
        lemma_sort_lines(init);
        lemma_insert_line_ascending(sort_lines(init), lines.last());
        assert forall|l: u32|
            #![trigger sort_lines(lines).contains(l)]
            sort_lines(lines).contains(l) <==> lines.contains(l) by {
            if lines.contains(l) {
                let k = choose|k: int| 0 <= k < lines.len() && lines[k] == l;
                if k < init.len() {
                    assert(init[k] == l);
                    assert(init.contains(l));
                }
            }
            if init.contains(l) {
                let k = choose|k: int| 0 <= k < init.len() && init[k] == l;
                assert(lines[k] == l);
            }
            if l == lines.last() {
                assert(lines[lines.len() - 1] == l);
            }
        }
    }
}

/// Puts lines in ascending order.
pub fn sort_line_numbers(lines: &Vec<u32>) -> (r: Vec<u32>)
    ensures
        r@ == sort_lines(lines@),
{
    let mut out: Vec<u32> = Vec::new();
    let mut k: usize = 0;
    while k < lines.len()
        invariant
            k <= lines@.len(),
            out@ == sort_lines(lines@.take(k as int)),
        decreases lines@.len() - k,
    {
        proof {
            assert(lines@.take(k + 1).drop_last() =~= lines@.take(k as int));
        }
        let x: u32 = lines[k];
        let mut i: usize = out.len();
        while i > 0 && out[i - 1] > x
            invariant
                i <= out@.len(),
                forall|j: int| i <= j < out@.len() ==> #[trigger] out@[j] > x,
            decreases i,
        {
            i = i - 1;
        }
        proof {
            lemma_insert_line_at(out@, x, i as int);
        }
        out.insert(i, x);
        k = k + 1;
    }
    assert(lines@.take(lines@.len() as int) =~= lines@);
    out
}

/// The lines of a compressed set, run by run, are in ascending order, and
/// each of them belongs to a run.
pub proof fn lemma_all_lines_ascending(ranges: Seq<LineRange>)
    requires
        compressed(ranges),
    ensures
        ascending(all_lines(ranges)),
        forall|k: int|
            0 <= k < all_lines(ranges).len() ==> ranges_hold(
                ranges,
                #[trigger] all_lines(ranges)[k] as int,
            ),
        ranges.len() > 0 ==> forall|k: int|
            0 <= k < all_lines(ranges).len() ==> #[trigger] all_lines(ranges)[k]
                <= ranges.last().last(),
    decreases ranges.len(),
{
    if ranges.len() > 0 {
        let init = ranges.drop_last();
        let r = ranges.last();
        assert(compressed(init)) by {
            assert forall|i: int| 0 <= i < init.len() - 1 implies (#[trigger] init[i]).last() + 1
                < init[i + 1].first() by {
                assert(ranges[i].last() + 1 < ranges[i + 1].first());
            }
        }
        lemma_all_lines_ascending(init);
        let head = all_lines(init);
        let tail = r.lines();
        let all = all_lines(ranges);
        assert(r.compact());
        if init.len() > 0 {
            assert(ranges[init.len() - 1].last() + 1 < ranges[init.len() - 1 + 1].first());
        }
        assert forall|k: int| 0 <= k < all.len() implies ranges_hold(
            ranges,
            #[trigger] all[k] as int,
        ) && all[k] <= r.last() by {
            if k < head.len() {
                assert(ranges_hold(init, head[k] as int));
                let w = choose|w: int| 0 <= w < init.len() && #[trigger] init[w].holds(head[k] as int);
                assert(ranges[w].holds(all[k] as int));
                assert(head[k] <= init.last().last());
            } else {
                assert(all[k] == tail[k - head.len()]);
                assert(ranges[ranges.len() - 1].holds(all[k] as int));
            }
        }
        assert forall|i: int, j: int| 0 <= i <= j < all.len() implies all[i] <= all[j] by {
            if j < head.len() {
                assert(head[i] <= head[j]);
            } else if i < head.len() {
                assert(head[i] <= init.last().last());
                assert(all[j] == tail[j - head.len()]);
            } else {
                assert(all[i] == tail[i - head.len()]);
                assert(all[j] == tail[j - head.len()]);
            }
        }
    }
}

/// Of ascending lines, those that some run holds are ascending too, and each
/// of them is one of the given lines.
pub proof fn lemma_lines_within(lines: Seq<u32>, ranges: Seq<LineRange>)
    requires
        ascending(lines),
    ensures
        ascending(lines_within(lines, ranges)),
        forall|k: int|
            0 <= k < lines_within(lines, ranges).len() ==> ranges_hold(
                ranges,
                #[trigger] lines_within(lines, ranges)[k] as int,
            ) && lines.contains(lines_within(lines, ranges)[k]),
    decreases lines.len(),
{
    if lines.len() > 0 {
        let init = lines.drop_last();
        lemma_lines_within(init, ranges);
        let before = lines_within(init, ranges);
        let all = lines_within(lines, ranges);
        assert forall|k: int| 0 <= k < all.len() implies ranges_hold(ranges, #[trigger] all[k] as int)
            && lines.contains(all[k]) by {
            if k < before.len() {
                assert(init.contains(before[k]));
                let w = choose|w: int| 0 <= w < init.len() && init[w] == before[k];
                assert(lines[w] == all[k]);
            } else {
                assert(lines[lines.len() - 1] == all[k]);
            }
        }
        assert forall|i: int, j: int| 0 <= i <= j < all.len() implies all[i] <= all[j] by {
            if j < before.len() {
                assert(before[i] <= before[j]);
            } else if i < before.len() {
                assert(init.contains(before[i]));
                let w = choose|w: int| 0 <= w < init.len() && init[w] == before[i];
                assert(lines[w] <= lines[lines.len() - 1]);
            }
        }
    }
}

/// In a compressed set every run holds its ends, and between a run and any
/// later run at least one line is missing.
pub proof fn lemma_compressed_apart(ranges: Seq<LineRange>, i: int, j: int)
    requires
        compressed(ranges),
        0 <= i < j < ranges.len(),
    ensures
        ranges[i].first() <= ranges[i].last(),
        ranges[j].first() <= ranges[j].last(),
        ranges[i].last() + 1 < ranges[j].first(),
    decreases j - i,
{
    assert(ranges[i].compact());
    assert(ranges[j].compact());
    if j > i + 1 {
        lemma_compressed_apart(ranges, i, j - 1);
        assert(ranges[j - 1].compact());
        assert(ranges[j - 1].last() + 1 < ranges[j - 1 + 1].first());
    } else {
        assert(ranges[i].last() + 1 < ranges[i + 1].first());
    }
}

/// Of a compressed set that is not empty: all but the last run are a
/// compressed set, which holds the lines of the whole that lie before the
/// last run.
pub proof fn lemma_compressed_init(a: Seq<LineRange>)
    requires
        compressed(a),
        a.len() > 0,
    ensures
        compressed(a.drop_last()),
        a.last().first() <= a.last().last(),
        forall|l: int| ranges_hold(a, l) <==> ranges_hold(a.drop_last(), l) || a.last().holds(l),
        forall|l: int| ranges_hold(a.drop_last(), l) ==> l + 1 < a.last().first(),
{
    let init = a.drop_last();
    let n = a.len() - 1;
    assert(a[n].compact());
    assert forall|i: int| 0 <= i < init.len() implies (#[trigger] init[i]).compact() by {
        assert(a[i].compact());
    }
    assert forall|i: int| 0 <= i < init.len() - 1 implies (#[trigger] init[i]).last() + 1
        < init[i + 1].first() by {
        assert(a[i].last() + 1 < a[i + 1].first());
    }
    assert forall|l: int| ranges_hold(a, l) <==> ranges_hold(init, l) || a.last().holds(l) by {
        if ranges_hold(a, l) {
            let i = choose|i: int| 0 <= i < a.len() && #[trigger] a[i].holds(l);
            if i < n {
                assert(init[i].holds(l));
            }
        }
        if ranges_hold(init, l) {
            let i = choose|i: int| 0 <= i < init.len() && #[trigger] init[i].holds(l);
            assert(a[i].holds(l));
        }
        if a.last().holds(l) {
            assert(a[n].holds(l));
        }
    }
    assert forall|l: int| ranges_hold(init, l) implies l + 1 < a.last().first() by {
        let i = choose|i: int| 0 <= i < init.len() && #[trigger] init[i].holds(l);
        assert(a[i].holds(l));
        lemma_compressed_apart(a, i, n);
    }
}

proof fn lemma_same_last_run(a: Seq<LineRange>, b: Seq<LineRange>)
    requires
        compressed(a),
        compressed(b),
        a.len() > 0,
        b.len() > 0,
        forall|l: int| ranges_hold(a, l) <==> ranges_hold(b, l),
    ensures
        a.last() == b.last(),
{
    lemma_compressed_init(a);
    lemma_compressed_init(b);
    let ra = a.last();
    let rb = b.last();
    assert(ra.compact()) by {
        assert(a[a.len() - 1].compact());
    }
    assert(rb.compact()) by {
        assert(b[b.len() - 1].compact());
    }
    assert(ra.holds(ra.last()));
    assert(ranges_hold(b, ra.last()));
    assert(rb.holds(rb.last()));
    assert(ranges_hold(a, rb.last()));
    assert(ra.last() == rb.last());
    if ra.first() < rb.first() {
        let l = rb.first() - 1;
        assert(ra.holds(l));
        assert(ranges_hold(b, l));
        assert(false);
    }
    if rb.first() < ra.first() {
        let l = ra.first() - 1;
        assert(rb.holds(l));
        assert(ranges_hold(a, l));
        assert(false);
    }
}

proof fn lemma_same_init(a: Seq<LineRange>, b: Seq<LineRange>)
    requires
        compressed(a),
        compressed(b),
        a.len() > 0,
        b.len() > 0,
        a.last() == b.last(),
        forall|l: int| ranges_hold(a, l) <==> ranges_hold(b, l),
    ensures
        compressed(a.drop_last()),
        compressed(b.drop_last()),
        forall|l: int| ranges_hold(a.drop_last(), l) <==> ranges_hold(b.drop_last(), l),
{
    lemma_compressed_init(a);
    lemma_compressed_init(b);
    let ia = a.drop_last();
    let ib = b.drop_last();
    assert forall|l: int| ranges_hold(ia, l) <==> ranges_hold(ib, l) by {
        if ranges_hold(ia, l) {
            assert(ranges_hold(a, l));
            assert(ranges_hold(b, l));
            assert(!b.last().holds(l));
        }
        if ranges_hold(ib, l) {
            assert(ranges_hold(b, l));
            assert(ranges_hold(a, l));
            assert(!a.last().holds(l));
        }
    }
}

proof fn lemma_nothing_held(a: Seq<LineRange>)
    requires
        compressed(a),
        forall|l: int| !ranges_hold(a, l),
    ensures
        a.len() == 0,
{
    if a.len() > 0 {
        assert(a[0].compact());
        assert(a[0].holds(a[0].first()));
        assert(ranges_hold(a, a[0].first()));
    }
}

/// Two compressed lists of runs that hold the same lines.
#[verifier::opaque]
pub open spec fn same_compressed_lines(a: Seq<LineRange>, b: Seq<LineRange>) -> bool {
    &&& compressed(a)
    &&& compressed(b)
    &&& forall|l: int| ranges_hold(a, l) <==> ranges_hold(b, l)
}

proof fn lemma_same_lines_step(a: Seq<LineRange>, b: Seq<LineRange>)
    requires
        same_compressed_lines(a, b),
    ensures
        a.len() == 0 <==> b.len() == 0,
        a.len() > 0 ==> a.last() == b.last() && same_compressed_lines(
            a.drop_last(),
            b.drop_last(),
        ),
{
    reveal(same_compressed_lines);
    if a.len() == 0 {
        assert forall|l: int| !ranges_hold(b, l) by {
            assert(!ranges_hold(a, l));
        }
        lemma_nothing_held(b);
    } else if b.len() == 0 {
        assert forall|l: int| !ranges_hold(a, l) by {
            assert(!ranges_hold(b, l));
        }
        lemma_nothing_held(a);
    } else {
        lemma_same_last_run(a, b);
        lemma_same_init(a, b);
    }
}

proof fn lemma_same_lines_same_runs(a: Seq<LineRange>, b: Seq<LineRange>)
    requires
        same_compressed_lines(a, b),
    ensures
        a == b,
    decreases a.len(),
{
    lemma_same_lines_step(a, b);
    if a.len() == 0 {
        assert(a =~= b);
    } else {
        lemma_same_lines_same_runs(a.drop_last(), b.drop_last());
        assert(a =~= a.drop_last().push(a.last()));
        assert(b =~= b.drop_last().push(b.last()));
    }
}

/// A set of lines has one compressed form: two compressed lists of runs
/// that hold the same lines are the same list.
pub proof fn lemma_compressed_unique(a: Seq<LineRange>, b: Seq<LineRange>)
    requires
        compressed(a),
        compressed(b),
        forall|l: int| ranges_hold(a, l) <==> ranges_hold(b, l),
    ensures
        a == b,
{
    assert(same_compressed_lines(a, b)) by {
        reveal(same_compressed_lines);
    }
    lemma_same_lines_same_runs(a, b);
}

/// Sorting and compressing any lines gives a compressed set.
pub proof fn lemma_sorted_compress(lines: Seq<u32>)
    ensures
        compressed(compress(sort_lines(lines))),
{
    lemma_sort_lines(lines);
    lemma_compress_ascending(sort_lines(lines));
}

/// Cutting a compressed set down to the lines that other runs hold gives a
/// compressed set, every line of which one of these runs holds.
pub proof fn lemma_within_compressed(ranges: Seq<LineRange>, kept: Seq<LineRange>)
    requires
        compressed(ranges),
    ensures
        compressed(compress(lines_within(all_lines(ranges), kept))),
        forall|l: int|
            ranges_hold(compress(lines_within(all_lines(ranges), kept)), l) ==> ranges_hold(kept, l)
                && ranges_hold(ranges, l),
{
    lemma_all_lines_ascending(ranges);
    let lines = all_lines(ranges);
    lemma_lines_within(lines, kept);
    let inside = lines_within(lines, kept);
    lemma_compress_ascending(inside);
    assert forall|l: int| ranges_hold(compress(inside), l) implies ranges_hold(kept, l)
        && ranges_hold(ranges, l) by {
        let i = choose|i: int| 0 <= i < inside.len() && inside[i] == l;
        assert(ranges_hold(kept, inside[i] as int));
        assert(lines.contains(inside[i]));
        let w = choose|w: int| 0 <= w < lines.len() && lines[w] == inside[i];
        assert(ranges_hold(ranges, lines[w] as int));
    }
}

/// Where line `l`, counted from 1, stands after an edit script over lines:
/// within the first step that keeps it, as far behind the new start of the
/// step as it stood behind the old one. Nothing where no step keeps the line,
/// or where its new number has no room in 32 bits.
pub open spec fn moved_line(ops: Seq<EditOp>, l: u32) -> Option<u32>
    decreases ops.len(),
{
    if ops.len() == 0 {
        None
    } else if ops[0].keeps() && ops[0].old_start() < l <= ops[0].old_end() {
        if l - ops[0].old_start() + ops[0].new_start() <= u32::MAX {
            Some((l - ops[0].old_start() + ops[0].new_start()) as u32)
        } else {
            None
        }
    } else {
        moved_line(ops.drop_first(), l)
    }
}

/// The lines that an edit script keeps, at their new places, in the given
/// order.
pub open spec fn moved_lines(lines: Seq<u32>, ops: Seq<EditOp>) -> Seq<u32>
    decreases lines.len(),
{
    if lines.len() == 0 {
        Seq::empty()
    } else {
        match moved_line(ops, lines.last()) {
            Some(n) => moved_lines(lines.drop_last(), ops).push(n),
            None => moved_lines(lines.drop_last(), ops),
        }
    }
}

/// Finds where a line stands after an edit script over lines.
pub fn move_line(ops: &Vec<EditOp>, l: u32) -> (r: Option<u32>)
    ensures
        r == moved_line(ops@, l),
{
    let mut k: usize = 0;
    assert(ops@.skip(0) =~= ops@);
    while k < ops.len()
        invariant
            k <= ops@.len(),
            moved_line(ops@, l) == moved_line(ops@.skip(k as int), l),
        decreases ops@.len() - k,
    {
        proof {
            assert(ops@.skip(k as int).drop_first() =~= ops@.skip(k + 1));
            assert(ops@.skip(k as int)[0] == ops@[k as int]);
        }
        let (os, oc, ns, _) = ops[k].parts();
        if ops[k].is_equal() && os < l as usize && (l as usize) - os <= oc {
            let offset: usize = l as usize - os;
            if ns <= 0xffff_ffff && offset <= 0xffff_ffff - ns {
                return Some((offset + ns) as u32);
            } else {
                return None;
            }
        }
        k = k + 1;
    }
    None
}

/// Takes lines along an edit script over lines.
pub fn move_lines(lines: &Vec<u32>, ops: &Vec<EditOp>) -> (r: Vec<u32>)
    ensures
        r@ == moved_lines(lines@, ops@),
{
    let mut out: Vec<u32> = Vec::new();
    let mut i: usize = 0;
    while i < lines.len()
        invariant
            i <= lines@.len(),
            out@ == moved_lines(lines@.take(i as int), ops@),
        decreases lines@.len() - i,
    {
        proof {
            assert(lines@.take(i + 1).drop_last() =~= lines@.take(i as int));
        }
        match move_line(ops, lines[i]) {
            Some(n) => {
                out.push(n);
            },
            None => {},
        }
        i = i + 1;
    }
    assert(lines@.take(lines@.len() as int) =~= lines@);
    out
}

/// The lines of `lines` that no run of `ranges` holds, in their order.
pub open spec fn lines_outside(lines: Seq<u32>, ranges: Seq<LineRange>) -> Seq<u32>
    decreases lines.len(),
{
    if lines.len() == 0 {
        Seq::empty()
    } else if ranges_hold(ranges, lines.last() as int) {
        lines_outside(lines.drop_last(), ranges)
    } else {
        lines_outside(lines.drop_last(), ranges).push(lines.last())
    }
}

/// Drops the lines that some run of `ranges` holds.
pub fn drop_lines_within(lines: &Vec<u32>, ranges: &Vec<LineRange>) -> (r: Vec<u32>)
    ensures
        r@ == lines_outside(lines@, ranges@),
{
    let mut out: Vec<u32> = Vec::new();
    let mut i: usize = 0;
    while i < lines.len()
        invariant
            i <= lines@.len(),
            out@ == lines_outside(lines@.take(i as int), ranges@),
        decreases lines@.len() - i,
    {
        proof {
            assert(lines@.take(i + 1).drop_last() =~= lines@.take(i as int));
        }
        if !ranges_contain(ranges, lines[i]) {
            out.push(lines[i]);
        }
        i = i + 1;
    }
    assert(lines@.take(lines@.len() as int) =~= lines@);
    out
}

/// The lines without those that repeat the line before them.
pub open spec fn dedup(lines: Seq<u32>) -> Seq<u32>
    decreases lines.len(),
{
    if lines.len() == 0 {
        Seq::empty()
    } else {
        let before = dedup(lines.drop_last());
        if before.len() > 0 && before.last() == lines.last() {
            before
        } else {
            before.push(lines.last())
        }
    }
}

/// Drops every line that repeats the line before it.
pub fn dedup_line_numbers(lines: &Vec<u32>) -> (r: Vec<u32>)
    ensures
        r@ == dedup(lines@),
{
    let mut out: Vec<u32> = Vec::new();
    let mut i: usize = 0;
    while i < lines.len()
        invariant
            i <= lines@.len(),
            out@ == dedup(lines@.take(i as int)),
        decreases lines@.len() - i,
    {
        proof {
            assert(lines@.take(i + 1).drop_last() =~= lines@.take(i as int));
        }
        let n: usize = out.len();
        if !(n > 0 && out[n - 1] == lines[i]) {
            out.push(lines[i]);
        }
        i = i + 1;
    }
    assert(lines@.take(lines@.len() as int) =~= lines@);
    out
}

/// The lines of `lines` that some run of `ranges` holds, in their order.
pub open spec fn lines_within(lines: Seq<u32>, ranges: Seq<LineRange>) -> Seq<u32>
    decreases lines.len(),
{
    if lines.len() == 0 {
        Seq::empty()
    } else if ranges_hold(ranges, lines.last() as int) {
        lines_within(lines.drop_last(), ranges).push(lines.last())
    } else {
        lines_within(lines.drop_last(), ranges)
    }
}

/// Keeps the lines that some run of `ranges` holds.
pub fn keep_lines_within(lines: &Vec<u32>, ranges: &Vec<LineRange>) -> (r: Vec<u32>)
    ensures
        r@ == lines_within(lines@, ranges@),
{
    let mut out: Vec<u32> = Vec::new();
    let mut i: usize = 0;
    while i < lines.len()
        invariant
            i <= lines@.len(),
            out@ == lines_within(lines@.take(i as int), ranges@),
        decreases lines@.len() - i,
    {
        proof {
            assert(lines@.take(i + 1).drop_last() =~= lines@.take(i as int));
        }
        if ranges_contain(ranges, lines[i]) {
            out.push(lines[i]);
        }
        i = i + 1;
    }
    assert(lines@.take(lines@.len() as int) =~= lines@);
    out
}

} // verus!
