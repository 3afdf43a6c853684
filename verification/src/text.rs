//! Text helpers: comparing strings, and finding the lines of a file's bytes.

use vstd::prelude::*;
use vstd::string::StringSliceAdditionalSpecFns;
use vstd::utf8::encode_utf8_decode_utf8;

verus! {

/// The byte that ends a line.
pub const NEWLINE: u8 = 10;

/// Whether two strings hold the same characters.
pub fn str_eq(a: &str, b: &str) -> (r: bool)
    ensures
        r == (a@ == b@),
{
    let x = a.as_bytes();
    let y = b.as_bytes();
    proof {
        encode_utf8_decode_utf8(a@);
        encode_utf8_decode_utf8(b@);
    }
    if x.len() != y.len() {
        return false;
    }
    let mut i: usize = 0;
    while i < x.len()
        invariant
            i <= x.len(),
            x.len() == y.len(),
            forall|j: int| 0 <= j < i ==> x@[j] == y@[j],
            x@ == a.spec_bytes(),
            y@ == b.spec_bytes(),
            vstd::utf8::decode_utf8(a.spec_bytes()) == a@,
            vstd::utf8::decode_utf8(b.spec_bytes()) == b@,
        decreases x.len() - i,
    {
        if x[i] != y[i] {
            return false;
        }
        i = i + 1;
    }
    assert(x@ =~= y@);
    true
}

/// The characters of `s`.
pub fn chars_of(s: &str) -> (r: Vec<char>)
    ensures
        r@ == s@,
{
    let mut out: Vec<char> = Vec::new();
    for c in it: s.chars()
        invariant
            it.seq() == s@,
            out@ == s@.take(it.index() as int),
    {
        out.push(c);
        assert(s@.take(it.index() + 1) =~= s@.take(it.index() as int).push(c));
    }
    assert(s@.take(s@.len() as int) =~= s@);
    out
}

/// Builds a string from characters. Rests on `String::from_iter` of std, which
/// appends the characters of the iterator in order.
#[verifier::external_body]
pub(crate) fn string_from_chars(chars: &[char]) -> (r: String)
    ensures
        r@ == chars@,
{
    String::from_iter(chars)
}

/// The text of each string of a list.
pub open spec fn texts(v: Seq<String>) -> Seq<Seq<char>> {
    v.map_values(|s: String| s@)
}

/// A copy of a list of strings.
pub fn clone_strings(v: &Vec<String>) -> (r: Vec<String>)
    ensures
        texts(r@) == texts(v@),
        r@ == v@,
{
    let r = v.clone();
    assert(r@ =~= v@);
    r
}

/// Whether `v` holds a string that reads `s`.
pub fn holds_str(v: &Vec<String>, s: &str) -> (r: bool)
    ensures
        r == texts(v@).contains(s@),
{
    let mut i: usize = 0;
    while i < v.len()
        invariant
            i <= v@.len(),
            forall|k: int| 0 <= k < i ==> (#[trigger] texts(v@)[k]) != s@,
        decreases v@.len() - i,
    {
        if str_eq(v[i].as_str(), s) {
            assert(texts(v@)[i as int] == s@);
            return true;
        }
        i = i + 1;
    }
    false
}

/// Whether `s` begins with `prefix`.
pub fn starts_with(s: &[char], prefix: &[char]) -> (r: bool)
    ensures
        r == prefix@.is_prefix_of(s@),
{
    if prefix.len() > s.len() {
        return false;
    }
    let mut i: usize = 0;
    while i < prefix.len()
        invariant
            i <= prefix@.len(),
            prefix@.len() <= s@.len(),
            forall|k: int| 0 <= k < i ==> s@[k] == prefix@[k],
        decreases prefix@.len() - i,
    {
        if s[i] != prefix[i] {
            assert(s@.subrange(0, prefix@.len() as int)[i as int] != prefix@[i as int]);
            return false;
        }
        i = i + 1;
    }
    assert(s@.subrange(0, prefix@.len() as int) =~= prefix@);
    true
}

/// Whether the string `s` begins with the string `prefix`.
pub fn str_starts_with(s: &str, prefix: &str) -> (r: bool)
    ensures
        r == prefix@.is_prefix_of(s@),
{
    let s_chars = chars_of(s);
    let p_chars = chars_of(prefix);
    starts_with(s_chars.as_slice(), p_chars.as_slice())
}

/// The characters of `s` from `from` up to `to`.
pub fn copy_range(s: &[char], from: usize, to: usize) -> (r: Vec<char>)
    requires
        from <= to <= s@.len(),
    ensures
        r@ == s@.subrange(from as int, to as int),
{
    let mut out: Vec<char> = Vec::new();
    let mut i: usize = from;
    while i < to
        invariant
            from <= i <= to,
            to <= s@.len(),
            out@ == s@.subrange(from as int, i as int),
        decreases to - i,
    {
        out.push(s[i]);
        assert(s@.subrange(from as int, i + 1) =~= s@.subrange(from as int, i as int).push(
            s@[i as int],
        ));
        i = i + 1;
    }
    out
}

/// Whether `c` is white space, as Unicode has it: the blank, the controls
/// from tab to carriage return, and the spaces and line separators beyond
/// ASCII.
pub open spec fn blank(c: char) -> bool {
    c == ' ' || ('\t' <= c <= '\r') || c == '\u{85}' || c == '\u{a0}' || c == '\u{1680}' || (
    '\u{2000}' <= c <= '\u{200a}') || c == '\u{2028}' || c == '\u{2029}' || c == '\u{202f}' || c
        == '\u{205f}' || c == '\u{3000}'
}

pub fn is_blank(c: char) -> (r: bool)
    ensures
        r == blank(c),
{
    c == ' ' || ('\t' <= c && c <= '\r') || c == '\u{85}' || c == '\u{a0}' || c == '\u{1680}' || (
    '\u{2000}' <= c && c <= '\u{200a}') || c == '\u{2028}' || c == '\u{2029}' || c == '\u{202f}'
        || c == '\u{205f}' || c == '\u{3000}'
}

/// `s` without the blank characters at its start.
pub open spec fn trim_start(s: Seq<char>) -> Seq<char>
    decreases s.len(),
{
    if s.len() > 0 && blank(s[0]) {
        trim_start(s.drop_first())
    } else {
        s
    }
}

/// `s` without the blank characters at its end.
pub open spec fn trim_end(s: Seq<char>) -> Seq<char>
    decreases s.len(),
{
    if s.len() > 0 && blank(s.last()) {
        trim_end(s.drop_last())
    } else {
        s
    }
}

/// `s` without the blank characters at its start and at its end.
pub open spec fn trimmed(s: Seq<char>) -> Seq<char> {
    trim_end(trim_start(s))
}

/// The characters of `s` without the blank ones at its start and end.
pub fn trim(s: &[char]) -> (r: Vec<char>)
    ensures
        r@ == trimmed(s@),
{
    let mut from: usize = 0;
    assert(s@.skip(0) =~= s@);
    while from < s.len() && is_blank(s[from])
        invariant
            from <= s@.len(),
            trim_start(s@) == trim_start(s@.skip(from as int)),
        decreases s@.len() - from,
    {
        assert(s@.skip(from as int).drop_first() =~= s@.skip(from + 1));
        from = from + 1;
    }
    assert(trim_start(s@) == s@.skip(from as int));
    let ghost rest = s@.skip(from as int);
    let mut to: usize = s.len();
    assert(rest.take(rest.len() as int) =~= rest);
    while to > from && is_blank(s[to - 1])
        invariant
            from <= to <= s@.len(),
            rest == s@.skip(from as int),
            trim_end(rest) == trim_end(rest.take(to - from)),
        decreases to,
    {
        assert(rest.take(to - from).drop_last() =~= rest.take(to - from - 1));
        assert(rest.take(to - from).last() == s@[to - 1]);
        to = to - 1;
    }
    proof {
        let kept = rest.take(to - from);
        if kept.len() > 0 {
            assert(kept.last() == s@[to - 1]);
        }
        assert(trim_end(rest) == kept);
        assert(kept =~= s@.subrange(from as int, to as int));
    }
    copy_range(s, from, to)
}

/// What separates the parts of a text.
#[derive(Clone, Copy, Debug, PartialEq, Eq, Structural)]
pub enum Separator {
    /// One given character.
    Char(char),
    /// Any blank character.
    Blank,
}

impl Separator {
    /// Whether `c` separates.
    pub open spec fn cuts(self, c: char) -> bool {
        match self {
            Separator::Char(x) => c == x,
            Separator::Blank => blank(c),
        }
    }

    pub fn is_match(&self, c: char) -> (r: bool)
        ensures
            r == self.cuts(c),
    {
        match self {
            Separator::Char(x) => c == *x,
            Separator::Blank => is_blank(c),
        }
    }
}

/// The part of `s` after its last separator.
pub open spec fn open_part(s: Seq<char>, sep: Separator) -> Seq<char>
    decreases s.len(),
{
    if s.len() == 0 || sep.cuts(s.last()) {
        Seq::empty()
    } else {
        open_part(s.drop_last(), sep).push(s.last())
    }
}

/// The parts of `s` that a separator ends, in their order; with `keep_empty`
/// also the empty ones.
pub open spec fn closed_parts(s: Seq<char>, sep: Separator, keep_empty: bool) -> Seq<Seq<char>>
    decreases s.len(),
{
    if s.len() == 0 {
        Seq::empty()
    } else if sep.cuts(s.last()) && (keep_empty || open_part(s.drop_last(), sep).len() > 0) {
        closed_parts(s.drop_last(), sep, keep_empty).push(open_part(s.drop_last(), sep))
    } else {
        closed_parts(s.drop_last(), sep, keep_empty)
    }
}

/// The parts into which the separator cuts `s`. With `keep_empty`, empty
/// parts count; with `keep_last`, so does the part after the last separator
/// even where it is empty.
pub open spec fn parts(s: Seq<char>, sep: Separator, keep_empty: bool, keep_last: bool) -> Seq<
    Seq<char>,
> {
    if keep_last || open_part(s, sep).len() > 0 {
        closed_parts(s, sep, keep_empty).push(open_part(s, sep))
    } else {
        closed_parts(s, sep, keep_empty)
    }
}

/// The fields of `s` between occurrences of `c`; there is always at least
/// one.
pub open spec fn fields(s: Seq<char>, c: char) -> Seq<Seq<char>> {
    parts(s, Separator::Char(c), true, true)
}

/// The words of `s`: its maximal runs of characters that are not blank.
pub open spec fn words(s: Seq<char>) -> Seq<Seq<char>> {
    parts(s, Separator::Blank, false, false)
}

/// `line` without a carriage return at its end.
pub open spec fn without_return(line: Seq<char>) -> Seq<char> {
    if line.len() > 0 && line.last() == '\r' {
        line.drop_last()
    } else {
        line
    }
}

/// The lines of `s`: the parts that a line feed ends, and what follows the
/// last line feed where that is not empty; each without a carriage return at
/// its end.
pub open spec fn text_lines(s: Seq<char>) -> Seq<Seq<char>> {
    parts(s, Separator::Char('\n'), true, false).map_values(|l: Seq<char>| without_return(l))
}

/// What each vector of a list holds.
pub open spec fn part_views(v: Seq<Vec<char>>) -> Seq<Seq<char>> {
    v.map_values(|p: Vec<char>| p@)
}

/// Cuts `s` into parts.
pub fn split(s: &[char], sep: Separator, keep_empty: bool, keep_last: bool) -> (r: Vec<Vec<char>>)
    ensures
        part_views(r@) == parts(s@, sep, keep_empty, keep_last),
{
    let mut out: Vec<Vec<char>> = Vec::new();
    let mut current: Vec<char> = Vec::new();
    let mut i: usize = 0;
    assert(part_views(out@) =~= Seq::<Seq<char>>::empty());
    while i < s.len()
        invariant
            i <= s@.len(),
            part_views(out@) == closed_parts(s@.take(i as int), sep, keep_empty),
            current@ == open_part(s@.take(i as int), sep),
        decreases s@.len() - i,
    {
        proof {
            assert(s@.take(i + 1).drop_last() =~= s@.take(i as int));
        }
        if sep.is_match(s[i]) {
            if keep_empty || current.len() > 0 {
                let ghost before = out@;
                let ghost part = current@;
                out.push(current);
                assert(part_views(out@) =~= part_views(before).push(part));
            }
            current = Vec::new();
        } else {
            current.push(s[i]);
        }
        i = i + 1;
    }
    assert(s@.take(s@.len() as int) =~= s@);
    if keep_last || current.len() > 0 {
        let ghost before = out@;
        let ghost part = current@;
        out.push(current);
        assert(part_views(out@) =~= part_views(before).push(part));
    }
    out
}

/// The lines of `s`.
pub fn lines_of_text(s: &[char]) -> (r: Vec<Vec<char>>)
    ensures
        part_views(r@) == text_lines(s@),
{
    let raw = split(s, Separator::Char('\n'), true, false);
    let mut out: Vec<Vec<char>> = Vec::new();
    let mut i: usize = 0;
    while i < raw.len()
        invariant
            i <= raw@.len(),
            out@.len() == i,
            forall|k: int| 0 <= k < i ==> (#[trigger] out@[k])@ == without_return(raw@[k]@),
        decreases raw@.len() - i,
    {
        let line = &raw[i];
        let n: usize = line.len();
        let stop: usize = if n > 0 && line[n - 1] == '\r' {
            n - 1
        } else {
            n
        };
        let kept = copy_range(line.as_slice(), 0, stop);
        assert(kept@ =~= without_return(line@));
        out.push(kept);
        i = i + 1;
    }
    assert(part_views(out@) =~= text_lines(s@));
    out
}

/// The value of a decimal digit.
pub open spec fn digit_value(c: char) -> Option<int> {
    if '0' <= c <= '9' {
        Some(c as int - '0' as int)
    } else {
        None
    }
}

/// The number that the decimal digits `s` denote; nothing where `s` is empty
/// or holds anything but digits.
pub open spec fn digits_value(s: Seq<char>) -> Option<int>
    decreases s.len(),
{
    if s.len() == 0 {
        None
    } else if s.len() == 1 {
        digit_value(s[0])
    } else {
        match (digits_value(s.drop_last()), digit_value(s.last())) {
            (Some(high), Some(low)) => Some(high * 10 + low),
            _ => None,
        }
    }
}

/// The number of 32 bits that `s` denotes: decimal digits, a plus sign before
/// them or not. Nothing where `s` reads otherwise or the number has no room.
pub open spec fn u32_value(s: Seq<char>) -> Option<u32> {
    let digits = if s.len() > 0 && s[0] == '+' {
        s.drop_first()
    } else {
        s
    };
    match digits_value(digits) {
        Some(v) if v <= u32::MAX => Some(v as u32),
        _ => None,
    }
}

proof fn lemma_digits_grow(s: Seq<char>, n: int)
    requires
        1 <= n <= s.len(),
    ensures
        digits_value(s.take(n)) is None ==> digits_value(s) is None,
        digits_value(s.take(n)) matches Some(v) ==> v >= 0 && (digits_value(s) matches Some(w)
            ==> w >= v),
    decreases s.len() - n,
{
    if n < s.len() {
        lemma_digits_grow(s, n + 1);
        assert(s.take(n + 1).drop_last() =~= s.take(n));
        lemma_digits_nonnegative(s.take(n));
    } else {
        assert(s.take(n) =~= s);
        lemma_digits_nonnegative(s);
    }
}

proof fn lemma_digits_nonnegative(s: Seq<char>)
    ensures
        digits_value(s) matches Some(v) ==> v >= 0,
    decreases s.len(),
{
    if s.len() > 1 {
        lemma_digits_nonnegative(s.drop_last());
    }
}

/// Reads a number of 32 bits.
pub fn parse_u32(s: &[char]) -> (r: Option<u32>)
    ensures
        r == u32_value(s@),
{
    let from: usize = if s.len() > 0 && s[0] == '+' {
        1
    } else {
        0
    };
    let ghost digits = s@.skip(from as int);
    assert(digits =~= if s@.len() > 0 && s@[0] == '+' {
        s@.drop_first()
    } else {
        s@
    });
    if from == s.len() {
        return None;
    }
    let mut value: u64 = 0;
    let mut i: usize = from;
    while i < s.len()
        invariant
            from <= i <= s@.len(),
            from < s@.len(),
            digits == s@.skip(from as int),
            digits == (if s@.len() > 0 && s@[0] == '+' {
                s@.drop_first()
            } else {
                s@
            }),
            i > from ==> digits_value(digits.take(i - from)) == Some(value as int),
            i == from ==> value == 0,
            value <= u32::MAX,
        decreases s@.len() - i,
    {
        let c: char = s[i];
        proof {
            assert(digits.take(i - from + 1).drop_last() =~= digits.take(i - from));
            assert(digits.take(i - from + 1).last() == c);
            lemma_digits_grow(digits, i - from + 1);
        }
        if !('0' <= c && c <= '9') {
            return None;
        }
        let d: u64 = (c as u32 - '0' as u32) as u64;
        value = value * 10 + d;
        if value > 0xffff_ffff {
            return None;
        }
        i = i + 1;
    }
    assert(digits.take(digits.len() as int) =~= digits);
    Some(value as u32)
}

/// The character of a decimal digit.
pub open spec fn digit_char(d: int) -> char {
    ('0' as u8 + d as u8) as char
}

/// `n` in decimal digits.
pub open spec fn decimal(n: nat) -> Seq<char>
    decreases n,
{
    if n < 10 {
        seq![digit_char(n as int)]
    } else {
        decimal(n / 10).push(digit_char((n % 10) as int))
    }
}

/// Appends `n` in decimal digits.
pub fn push_decimal(out: &mut Vec<char>, n: u64)
    ensures
        final(out)@ == old(out)@ + decimal(n as nat),
    decreases n,
{
    if n >= 10 {
        push_decimal(out, n / 10);
    }
    let d: u8 = (n % 10) as u8;
    out.push((48u8 + d) as char);
    proof {
        assert('0' as u8 == 48u8);
        if n < 10 {
            assert(out@ =~= old(out)@ + seq![digit_char(n as int)]);
        } else {
            assert(out@ =~= old(out)@ + decimal((n / 10) as nat).push(digit_char((n % 10) as int)));
        }
    }
}

/// Where `pattern` first occurs in `s` at or after `from`; the length of `s`
/// where it does not.
pub open spec fn first_match(s: Seq<char>, pattern: Seq<char>, from: int) -> int
    decreases s.len() - from,
{
    if from < 0 || from + pattern.len() > s.len() {
        s.len() as int
    } else if pattern.is_prefix_of(s.skip(from)) {
        from
    } else {
        first_match(s, pattern, from + 1)
    }
}

/// Finds the first occurrence of `pattern` in `s` at or after `from`.
pub fn find(s: &[char], pattern: &[char], from: usize) -> (r: usize)
    ensures
        r == first_match(s@, pattern@, from as int),
        from <= s@.len() ==> from <= r <= s@.len(),
        r < s@.len() ==> r + pattern@.len() <= s@.len(),
{
    let mut i: usize = from;
    while i <= s.len() && pattern.len() <= s.len() - i
        invariant
            from <= i,
            first_match(s@, pattern@, from as int) == first_match(s@, pattern@, i as int),
        decreases s@.len() - i,
    {
        let mut k: usize = 0;
        let mut same: bool = true;
        while k < pattern.len() && same
            invariant
                k <= pattern@.len(),
                i + pattern@.len() <= s.len(),
                same ==> forall|j: int| 0 <= j < k ==> s@[i + j] == pattern@[j],
                !same ==> exists|j: int| 0 <= j < pattern@.len() && s@[i + j] != pattern@[j],
            decreases pattern@.len() - k + if same { 1int } else { 0int },
        {
            if s[i + k] != pattern[k] {
                same = false;
            } else {
                k = k + 1;
            }
        }
        if same {
            assert(s@.skip(i as int).subrange(0, pattern@.len() as int) =~= pattern@);
            return i;
        }
        proof {
            let j = choose|j: int| 0 <= j < pattern@.len() && s@[i + j] != pattern@[j];
            assert(s@.skip(i as int).subrange(0, pattern@.len() as int)[j] != pattern@[j]);
        }
        i = i + 1;
    }
    s.len()
}

/// Where the lines of `content` begin and end. The sequence starts with 0 and
/// ends with the length of `content`; line `i` (counted from 0) occupies the
/// bytes from entry `i` up to entry `i + 1`, its newline included. A newline at
/// the very end of the content closes the last line and opens no further one.
pub open spec fn line_bounds(content: Seq<u8>) -> Seq<int>
    decreases content.len(),
{
    if content.len() == 0 {
        seq![0int]
    } else {
        let init = content.drop_last();
        let before = line_bounds(init);
        if init.len() == 0 || init.last() == NEWLINE {
            before.push(content.len() as int)
        } else {
            before.drop_last().push(content.len() as int)
        }
    }
}

/// The number of lines of `content`.
pub open spec fn line_count(content: Seq<u8>) -> int {
    line_bounds(content).len() - 1
}

/// A sequence of machine integers read as mathematical integers.
pub open spec fn as_ints(v: Seq<usize>) -> Seq<int> {
    v.map_values(|x: usize| x as int)
}

/// What holds of the bounds of any content.
pub proof fn lemma_line_bounds(content: Seq<u8>)
    ensures
        line_bounds(content).len() >= 1,
        line_bounds(content)[0] == 0,
        line_bounds(content).last() == content.len(),
        content.len() > 0 ==> line_bounds(content).len() >= 2,
        forall|i: int, j: int|
            0 <= i < j < line_bounds(content).len() ==> line_bounds(content)[i] < line_bounds(
                content,
            )[j],
        forall|i: int|
            0 < i < line_bounds(content).len() - 1 ==> content[#[trigger] line_bounds(content)[i]
                - 1] == NEWLINE,
        forall|i: int, p: int|
            0 <= i < line_bounds(content).len() - 1 && line_bounds(content)[i] <= p
                < #[trigger] line_bounds(content)[i + 1] - 1 ==> #[trigger] content[p] != NEWLINE,
    decreases content.len(),
{
    if content.len() > 0 {
        let init = content.drop_last();
        lemma_line_bounds(init);
        let before = line_bounds(init);
        let b = line_bounds(content);
        assert forall|i: int|
            0 < i < b.len() - 1 implies content[#[trigger] b[i] - 1] == NEWLINE by {
            if i < before.len() - 1 {
                assert(b[i] == before[i]);
                assert(init[before[i] - 1] == NEWLINE);
            } else {
                assert(b[i] == before[i]);
                assert(before[i] == init.len());
            }
        }
        assert forall|i: int, p: int|
            0 <= i < b.len() - 1 && b[i] <= p < #[trigger] b[i + 1] - 1 implies #[trigger] content[p]
            != NEWLINE by {
            if i + 1 < before.len() {
                if i + 1 < before.len() - 1 || before.len() == b.len() {
                    if i + 1 == b.len() - 1 {
                        // the last line grew by one byte
                        if p < before[i + 1] - 1 {
                            assert(init[p] != NEWLINE);
                        }
                    } else {
                        assert(b[i + 1] == before[i + 1]);
                        assert(init[p] != NEWLINE);
                    }
                } else {
                    assert(b[i + 1] == before[i + 1]);
                    assert(init[p] != NEWLINE);
                }
            }
        }
    }
}

/// Computes the line bounds of `content`.
pub fn compute_line_bounds(content: &[u8]) -> (r: Vec<usize>)
    ensures
        as_ints(r@) == line_bounds(content@),
{
    let mut out: Vec<usize> = Vec::new();
    out.push(0);
    assert(as_ints(out@) =~= line_bounds(content@.take(0)));
    let mut i: usize = 0;
    while i < content.len()
        invariant
            i <= content.len(),
            as_ints(out@) == line_bounds(content@.take(i as int)),
        decreases content.len() - i,
    {
        proof {
            lemma_line_bounds(content@.take(i as int));
            assert(content@.take(i + 1).drop_last() =~= content@.take(i as int));
        }
        let ghost before = out@;
        if i == 0 || content[i - 1] == NEWLINE {
            out.push(i + 1);
            assert(as_ints(out@) =~= as_ints(before).push(i + 1));
        } else {
            let n: usize = out.len();
            out.set(n - 1, i + 1);
            assert(as_ints(out@) =~= as_ints(before).drop_last().push(i + 1));
        }
        i = i + 1;
    }
    assert(content@.take(content.len() as int) =~= content@);
    out
}

} // verus!
