//! The text form of an input point: one line holding its coordinates in decimal,
//! separated by commas, inside optional square brackets, as `[12, 7, 300, 41]`.
use vstd::prelude::*;
use crate::psi_config::DIMENSION;

verus! {

/// Why a line is not a point.
#[derive(Debug, Clone, Copy, PartialEq, Eq)]
pub enum PointError {
    /// A field is not a decimal number that fits in a `u128`.
    Number,
    /// The line holds numbers, but not one per coordinate.
    Dimension,
}

/// The ASCII characters that `char::is_whitespace` accepts: tab, line feed, vertical tab,
/// form feed, carriage return and space.
pub open spec fn is_space(c: u8) -> bool {
    c == 32u8 || (9u8 <= c && c <= 13u8)
}

/// The two-byte UTF-8 encodings of white space: U+0085 and U+00A0.
pub open spec fn is_space2(a: u8, b: u8) -> bool {
    a == 0xC2u8 && (b == 0x85u8 || b == 0xA0u8)
}

/// The three-byte UTF-8 encodings of white space: U+1680, U+2000 to U+200A, U+2028,
/// U+2029, U+202F, U+205F and U+3000.
pub open spec fn is_space3(a: u8, b: u8, c: u8) -> bool {
    ||| (a == 0xE1u8 && b == 0x9Au8 && c == 0x80u8)
    ||| (a == 0xE2u8 && b == 0x80u8 && ((0x80u8 <= c && c <= 0x8Au8) || c == 0xA8u8 || c
        == 0xA9u8 || c == 0xAFu8))
    ||| (a == 0xE2u8 && b == 0x81u8 && c == 0x9Fu8)
    ||| (a == 0xE3u8 && b == 0x80u8 && c == 0x80u8)
}

/// The length in bytes of the white-space character (as `char::is_whitespace` counts
/// them) that starts at `i`, or 0 if none does.
pub open spec fn space_len_at(s: Seq<u8>, i: int) -> int {
    if 0 <= i < s.len() && is_space(s[i]) {
        1
    } else if 0 <= i && i + 2 <= s.len() && is_space2(s[i], s[i + 1]) {
        2
    } else if 0 <= i && i + 3 <= s.len() && is_space3(s[i], s[i + 1], s[i + 2]) {
        3
    } else {
        0
    }
}

/// The length in bytes of the white-space character that ends just before `j`, or 0.
pub open spec fn space_len_before(s: Seq<u8>, j: int) -> int {
    if 1 <= j <= s.len() && is_space(s[j - 1]) {
        1
    } else if 2 <= j <= s.len() && is_space2(s[j - 2], s[j - 1]) {
        2
    } else if 3 <= j <= s.len() && is_space3(s[j - 3], s[j - 2], s[j - 1]) {
        3
    } else {
        0
    }
}

/// Whether `c` is a square bracket.
pub open spec fn is_bracket(c: u8) -> bool {
    c == 91u8 || c == 93u8
}

/// The length of the character stripped from the ends of a line that starts at `i` (a
/// bracket or white space), or 0.
pub open spec fn frame_len_at(s: Seq<u8>, i: int) -> int {
    if 0 <= i < s.len() && is_bracket(s[i]) {
        1
    } else {
        space_len_at(s, i)
    }
}

/// The length of the bracket or white-space character that ends just before `j`, or 0.
pub open spec fn frame_len_before(s: Seq<u8>, j: int) -> int {
    if 1 <= j <= s.len() && is_bracket(s[j - 1]) {
        1
    } else {
        space_len_before(s, j)
    }
}

/// The first index at or after `i` where no bracket or white space starts (or the end).
pub open spec fn frame_start(s: Seq<u8>, i: int) -> int
    decreases s.len() - i,
{
    if i < 0 || i >= s.len() || frame_len_at(s, i) <= 0 {
        i
    } else {
        frame_start(s, i + frame_len_at(s, i))
    }
}

/// The last end at or before `j`, not before `lo`, with no bracket or white space just
/// before it.
pub open spec fn frame_end(s: Seq<u8>, lo: int, j: int) -> int
    decreases j - lo,
{
    if j <= lo || frame_len_before(s, j) <= 0 || j - frame_len_before(s, j) < lo {
        j
    } else {
        frame_end(s, lo, j - frame_len_before(s, j))
    }
}

/// A line with its leading and trailing brackets and white space removed, as
/// `str::trim_matches` removes them.
pub open spec fn unframed(s: Seq<u8>) -> Seq<u8> {
    let lo = frame_start(s, 0);
    s.subrange(lo, frame_end(s, lo, s.len() as int))
}

/// The first index at or after `i` where no white space starts (or the end).
pub open spec fn space_start(s: Seq<u8>, i: int) -> int
    decreases s.len() - i,
{
    if i < 0 || i >= s.len() || space_len_at(s, i) <= 0 {
        i
    } else {
        space_start(s, i + space_len_at(s, i))
    }
}

/// The last end at or before `j`, not before `lo`, with no white space just before it.
pub open spec fn space_end(s: Seq<u8>, lo: int, j: int) -> int
    decreases j - lo,
{
    if j <= lo || space_len_before(s, j) <= 0 || j - space_len_before(s, j) < lo {
        j
    } else {
        space_end(s, lo, j - space_len_before(s, j))
    }
}

/// A field with its leading and trailing white space removed, as `str::trim` removes it.
pub open spec fn trimmed(s: Seq<u8>) -> Seq<u8> {
    let lo = space_start(s, 0);
    s.subrange(lo, space_end(s, lo, s.len() as int))
}

/// Where the field that is open after the first `i` characters starts.
pub open spec fn field_start(t: Seq<u8>, i: int) -> int
    decreases i,
{
    if i <= 0 {
        0
    } else if t[i - 1] == 44u8 {
        i
    } else {
        field_start(t, i - 1)
    }
}

/// The fields that a comma closed within the first `i` characters.
pub open spec fn closed_fields(t: Seq<u8>, i: int) -> Seq<Seq<u8>>
    decreases i,
{
    if i <= 0 {
        Seq::empty()
    } else if t[i - 1] == 44u8 {
        closed_fields(t, i - 1).push(t.subrange(field_start(t, i - 1), i - 1))
    } else {
        closed_fields(t, i - 1)
    }
}

/// The pieces of `t` between commas, as `str::split(',')` gives them.
pub open spec fn fields(t: Seq<u8>) -> Seq<Seq<u8>> {
    closed_fields(t, t.len() as int).push(t.subrange(field_start(t, t.len() as int), t.len() as int))
}

/// Whether `c` is a decimal digit.
pub open spec fn is_digit(c: u8) -> bool {
    48u8 <= c && c <= 57u8
}

/// The value of a string of decimal digits, most significant first.
pub open spec fn dec_value(d: Seq<u8>) -> nat
    decreases d.len(),
{
    if d.len() == 0 {
        0
    } else {
        dec_value(d.drop_last()) * 10 + (d.last() - 48u8) as nat
    }
}

/// The digits of a number: without its one optional leading `+`.
pub open spec fn unsigned_digits(d: Seq<u8>) -> Seq<u8> {
    if d.len() > 0 && d[0] == 43u8 {
        d.drop_first()
    } else {
        d
    }
}

/// `u128::from_str` on a field after trimming: an optional `+`, then at least one digit
/// and nothing else, with a value that fits.
pub open spec fn field_value(f: Seq<u8>) -> Option<u128> {
    let d = unsigned_digits(trimmed(f));
    if d.len() > 0 && (forall|k: int| 0 <= k < d.len() ==> #[trigger] is_digit(d[k])) && dec_value(d)
        <= u128::MAX {
        Some(dec_value(d) as u128)
    } else {
        None
    }
}

/// What a line gives: the number error if any field is not a number, else the dimension
/// error if there are not `DIMENSION` fields, else the numbers.
pub open spec fn parsed_line(s: Seq<u8>) -> Result<Seq<u128>, PointError> {
    let fs = fields(unframed(s));
    if exists|k: int| 0 <= k < fs.len() && #[trigger] field_value(fs[k]) is None {
        Err(PointError::Number)
    } else if fs.len() != DIMENSION {
        Err(PointError::Dimension)
    } else {
        Ok(Seq::new(fs.len(), |k: int| field_value(fs[k])->0))
    }
}

/// The decimal digits of `v`, most significant first, without leading zeros, as `{}` and
/// `{:?}` write an integer.
pub open spec fn dec_digits(v: nat) -> Seq<u8>
    decreases v,
{
    if v < 10 {
        seq![(48 + v) as u8]
    } else {
        dec_digits(v / 10).push((48 + v % 10) as u8)
    }
}

/// A point as `{:?}` writes it, the form of the lines of a point file: `[a, b, c, d]`.
pub open spec fn debug_text(p: Seq<u128>) -> Seq<u8> {
    seq![91u8] + dec_digits(p[0] as nat) + seq![44u8, 32u8] + dec_digits(p[1] as nat) + seq![44u8, 32u8]
        + dec_digits(p[2] as nat) + seq![44u8, 32u8] + dec_digits(p[3] as nat) + seq![93u8]
}

/// The digits of `v` are at least one decimal digit, and read back as `v`.
proof fn lemma_dec_digits(v: nat)
    ensures
        dec_digits(v).len() >= 1,
        forall|k: int| 0 <= k < dec_digits(v).len() ==> #[trigger] is_digit(dec_digits(v)[k]),
        dec_value(dec_digits(v)) == v,
    decreases v,
{
    let d = dec_digits(v);
    if v >= 10 {
        lemma_dec_digits(v / 10);
        assert(d.drop_last() =~= dec_digits(v / 10));
        assert forall|k: int| 0 <= k < d.len() implies #[trigger] is_digit(d[k]) by {
            if k < d.len() - 1 {
                assert(d[k] == dec_digits(v / 10)[k]);
            }
        }
        let c = (48 + v % 10) as u8;
        assert(d.last() == c);
        assert(c - 48u8 == v % 10);
        assert(dec_value(d) == dec_value(dec_digits(v / 10)) * 10 + v % 10);
        assert((v / 10) * 10 + v % 10 == v);
    } else {
        assert(d.drop_last() =~= Seq::<u8>::empty());
        assert(d.last() == (48 + v) as u8);
        assert(dec_value(d) == dec_value(d.drop_last()) * 10 + (d.last() - 48u8) as nat);
    }
}

/// A field of digits, with or without one leading space, is the number they write.
proof fn lemma_digit_field(d: Seq<u8>, f: Seq<u8>)
    requires
        d.len() >= 1,
        forall|k: int| 0 <= k < d.len() ==> #[trigger] is_digit(d[k]),
        dec_value(d) <= u128::MAX,
        f == d || f == seq![32u8] + d,
    ensures
        field_value(f) == Some(dec_value(d) as u128),
{
    let lo: int = if f == d { 0 } else { 1 };
    assert(f.subrange(lo, f.len() as int) =~= d);
    assert(is_digit(d[0]));
    assert(f[lo] == d[0]);
    assert(space_start(f, lo) == lo);
    if lo == 1 {
        assert(f[0] == 32u8);
        assert(space_start(f, 0) == space_start(f, 1));
    }
    assert(is_digit(d[d.len() - 1]));
    assert(f[f.len() - 1] == d[d.len() - 1]);
    assert(space_len_before(f, f.len() as int) == 0);
    assert(space_end(f, lo, f.len() as int) == f.len());
    assert(trimmed(f) =~= d);
    assert(unsigned_digits(d) == d);
}

/// Characters without a comma leave the fields closed so far, and where the open one
/// starts, as they are.
proof fn lemma_no_comma_fields(t: Seq<u8>, i: int, j: int)
    requires
        0 <= i <= j <= t.len(),
        forall|k: int| i <= k < j ==> #[trigger] t[k] != 44u8,
    ensures
        closed_fields(t, j) == closed_fields(t, i),
        field_start(t, j) == field_start(t, i),
    decreases j - i,
{
    if i < j {
        lemma_no_comma_fields(t, i, j - 1);
    }
}

/// Brackets around a text that starts and ends with a digit are its frame.
proof fn lemma_unframed_brackets(inner: Seq<u8>)
    requires
        inner.len() >= 1,
        is_digit(inner[0]),
        is_digit(inner[inner.len() - 1]),
    ensures
        unframed(seq![91u8] + inner + seq![93u8]) == inner,
{
    let s = seq![91u8] + inner + seq![93u8];
    let n = s.len() as int;
    assert(s[1] == inner[0]);
    assert(frame_len_at(s, 1) == 0);
    assert(frame_start(s, 1) == 1);
    assert(frame_len_at(s, 0) == 1);
    assert(frame_start(s, 0) == 1);
    assert(s[n - 1] == 93u8);
    assert(frame_len_before(s, n) == 1);
    assert(s[n - 2] == inner[inner.len() - 1]);
    assert(frame_len_before(s, n - 1) == 0);
    assert(frame_end(s, 1, n - 1) == n - 1);
    assert(frame_end(s, 1, n) == n - 1);
    assert(unframed(s) =~= inner);
}

/// Four digit strings joined by `", "` split into the four strings, the last three with
/// their leading space.
proof fn lemma_four_fields(d0: Seq<u8>, d1: Seq<u8>, d2: Seq<u8>, d3: Seq<u8>)
    requires
        forall|k: int| 0 <= k < d0.len() ==> #[trigger] is_digit(d0[k]),
        forall|k: int| 0 <= k < d1.len() ==> #[trigger] is_digit(d1[k]),
        forall|k: int| 0 <= k < d2.len() ==> #[trigger] is_digit(d2[k]),
        forall|k: int| 0 <= k < d3.len() ==> #[trigger] is_digit(d3[k]),
    ensures
        fields(d0 + seq![44u8, 32u8] + d1 + seq![44u8, 32u8] + d2 + seq![44u8, 32u8] + d3) == seq![
            d0,
            seq![32u8] + d1,
            seq![32u8] + d2,
            seq![32u8] + d3,
        ],
{
    let sep = seq![44u8, 32u8];
    let inner = d0 + sep + d1 + sep + d2 + sep + d3;
    let a = d0.len() as int;
    let b = a + 2 + d1.len();
    let c = b + 2 + d2.len();
    let m = inner.len() as int;
    assert(m == c + 2 + d3.len());
    assert forall|k: int| 0 <= k < m && k != a && k != b && k != c implies #[trigger] inner[k] != 44u8 by {
        if k < a {
            assert(inner[k] == d0[k] && is_digit(d0[k]));
        } else if k == a + 1 || k == b + 1 || k == c + 1 {
        } else if k < b {
            assert(inner[k] == d1[k - a - 2] && is_digit(d1[k - a - 2]));
        } else if k < c {
            assert(inner[k] == d2[k - b - 2] && is_digit(d2[k - b - 2]));
        } else {
            assert(inner[k] == d3[k - c - 2] && is_digit(d3[k - c - 2]));
        }
    }
    assert(inner[a] == 44u8 && inner[b] == 44u8 && inner[c] == 44u8);
    lemma_no_comma_fields(inner, 0, a);
    lemma_no_comma_fields(inner, a + 1, b);
    lemma_no_comma_fields(inner, b + 1, c);
    lemma_no_comma_fields(inner, c + 1, m);
    assert(inner.subrange(0, a) =~= d0);
    assert(inner.subrange(a + 1, b) =~= seq![32u8] + d1);
    assert(inner.subrange(b + 1, c) =~= seq![32u8] + d2);
    assert(inner.subrange(c + 1, m) =~= seq![32u8] + d3);
    assert(closed_fields(inner, a + 1) =~= seq![d0]);
    assert(closed_fields(inner, b + 1) =~= seq![d0, seq![32u8] + d1]);
    assert(closed_fields(inner, c + 1) =~= seq![d0, seq![32u8] + d1, seq![32u8] + d2]);
    assert(fields(inner) =~= seq![d0, seq![32u8] + d1, seq![32u8] + d2, seq![32u8] + d3]);
}

/// The point file round trip: the line that `{:?}` writes for a point is read back as that
/// point.
pub proof fn lemma_debug_text_parses(p: Seq<u128>)
    requires
        p.len() == DIMENSION,
    ensures
        parsed_line(debug_text(p)) == Ok::<Seq<u128>, PointError>(p),
{
    let d0 = dec_digits(p[0] as nat);
    let d1 = dec_digits(p[1] as nat);
    let d2 = dec_digits(p[2] as nat);
    let d3 = dec_digits(p[3] as nat);
    lemma_dec_digits(p[0] as nat);
    lemma_dec_digits(p[1] as nat);
    lemma_dec_digits(p[2] as nat);
    lemma_dec_digits(p[3] as nat);
    let sep = seq![44u8, 32u8];
    let inner = d0 + sep + d1 + sep + d2 + sep + d3;
    assert(debug_text(p) =~= seq![91u8] + inner + seq![93u8]);
    assert(inner[0] == d0[0]);
    assert(inner[inner.len() - 1] == d3[d3.len() - 1]);
    lemma_unframed_brackets(inner);
    lemma_four_fields(d0, d1, d2, d3);
    let fs = fields(inner);
    lemma_digit_field(d0, fs[0]);
    lemma_digit_field(d1, fs[1]);
    lemma_digit_field(d2, fs[2]);
    lemma_digit_field(d3, fs[3]);
    assert forall|k: int| 0 <= k < fs.len() implies #[trigger] field_value(fs[k]) == Some(p[k]) by {}
    assert(Seq::new(fs.len(), |k: int| field_value(fs[k])->0) =~= p);
}

fn is_space_byte(c: u8) -> (r: bool)
    ensures
        r == is_space(c),
{
    c == 32u8 || (9u8 <= c && c <= 13u8)
}

fn is_space2_bytes(a: u8, b: u8) -> (r: bool)
    ensures
        r == is_space2(a, b),
{
    a == 0xC2u8 && (b == 0x85u8 || b == 0xA0u8)
}

fn is_space3_bytes(a: u8, b: u8, c: u8) -> (r: bool)
    ensures
        r == is_space3(a, b, c),
{
    (a == 0xE1u8 && b == 0x9Au8 && c == 0x80u8) || (a == 0xE2u8 && b == 0x80u8 && ((0x80u8 <= c
        && c <= 0x8Au8) || c == 0xA8u8 || c == 0xA9u8 || c == 0xAFu8)) || (a == 0xE2u8 && b
        == 0x81u8 && c == 0x9Fu8) || (a == 0xE3u8 && b == 0x80u8 && c == 0x80u8)
}

/// The length of the white space that starts at `i` within `s[lo..hi]`.
fn space_len_in(s: &[u8], lo: usize, hi: usize, i: usize) -> (r: usize)
    requires
        lo <= i <= hi <= s@.len(),
    ensures
        r == space_len_at(s@.subrange(lo as int, hi as int), i - lo),
        r <= hi - i,
{
    let ghost f = s@.subrange(lo as int, hi as int);
    if i < hi && is_space_byte(s[i]) {
        assert(f[i - lo] == s@[i as int]);
        1
    } else if hi - i >= 2 && is_space2_bytes(s[i], s[i + 1]) {
        assert(f[i - lo] == s@[i as int] && f[i - lo + 1] == s@[i + 1]);
        2
    } else if hi - i >= 3 && is_space3_bytes(s[i], s[i + 1], s[i + 2]) {
        assert(f[i - lo] == s@[i as int] && f[i - lo + 1] == s@[i + 1] && f[i - lo + 2]
            == s@[i + 2]);
        3
    } else {
        proof {
            if i < hi {
                assert(f[i - lo] == s@[i as int]);
            }
            if hi - i >= 2 {
                assert(f[i - lo + 1] == s@[i + 1]);
            }
            if hi - i >= 3 {
                assert(f[i - lo + 2] == s@[i + 2]);
            }
        }
        0
    }
}

/// The length of the white space that ends just before `j` within `s[lo..hi]`.
fn space_len_before_in(s: &[u8], lo: usize, hi: usize, j: usize) -> (r: usize)
    requires
        lo <= j <= hi <= s@.len(),
    ensures
        r == space_len_before(s@.subrange(lo as int, hi as int), j - lo),
        r <= j - lo,
{
    let ghost f = s@.subrange(lo as int, hi as int);
    if j - lo >= 1 && is_space_byte(s[j - 1]) {
        assert(f[j - lo - 1] == s@[j - 1]);
        1
    } else if j - lo >= 2 && is_space2_bytes(s[j - 2], s[j - 1]) {
        assert(f[j - lo - 1] == s@[j - 1] && f[j - lo - 2] == s@[j - 2]);
        2
    } else if j - lo >= 3 && is_space3_bytes(s[j - 3], s[j - 2], s[j - 1]) {
        assert(f[j - lo - 1] == s@[j - 1] && f[j - lo - 2] == s@[j - 2] && f[j - lo - 3]
            == s@[j - 3]);
        3
    } else {
        proof {
            if j - lo >= 1 {
                assert(f[j - lo - 1] == s@[j - 1]);
            }
            if j - lo >= 2 {
                assert(f[j - lo - 2] == s@[j - 2]);
            }
            if j - lo >= 3 {
                assert(f[j - lo - 3] == s@[j - 3]);
            }
        }
        0
    }
}

/// The length of the bracket or white space that starts at `i` in `s`.
fn frame_len_in(s: &[u8], i: usize) -> (r: usize)
    requires
        i <= s@.len(),
    ensures
        r == frame_len_at(s@, i as int),
        r <= s@.len() - i,
{
    if i < s.len() && (s[i] == 91u8 || s[i] == 93u8) {
        1
    } else {
        let r = space_len_in(s, 0, s.len(), i);
        assert(s@.subrange(0, s@.len() as int) =~= s@);
        r
    }
}

/// The length of the bracket or white space that ends just before `j` in `s`.
fn frame_len_before_in(s: &[u8], j: usize) -> (r: usize)
    requires
        j <= s@.len(),
    ensures
        r == frame_len_before(s@, j as int),
        r <= j,
{
    if j >= 1 && (s[j - 1] == 91u8 || s[j - 1] == 93u8) {
        1
    } else {
        let r = space_len_before_in(s, 0, s.len(), j);
        assert(s@.subrange(0, s@.len() as int) =~= s@);
        r
    }
}

/// The bounds of `s[lo..hi]` without its leading and trailing white space.
fn trim_bounds(s: &[u8], lo: usize, hi: usize) -> (r: (usize, usize))
    requires
        lo <= hi <= s@.len(),
    ensures
        r.0 == space_start(s@.subrange(lo as int, hi as int), 0) + lo,
        r.1 == space_end(s@.subrange(lo as int, hi as int), r.0 - lo, hi - lo) + lo,
        lo <= r.0 <= r.1 <= hi,
{
    let ghost f = s@.subrange(lo as int, hi as int);
    let mut a: usize = lo;
    loop
        invariant
            lo <= a <= hi <= s@.len(),
            f == s@.subrange(lo as int, hi as int),
            space_start(f, a - lo) == space_start(f, 0),
        ensures
            lo <= a <= hi,
            space_start(f, 0) == a - lo,
        decreases hi - a,
    {
        let k = space_len_in(s, lo, hi, a);
        if k == 0 {
            break;
        }
        a += k;
    }
    let mut b: usize = hi;
    loop
        invariant
            lo <= a <= b <= hi <= s@.len(),
            f == s@.subrange(lo as int, hi as int),
            space_end(f, a - lo, b - lo) == space_end(f, a - lo, hi - lo),
        ensures
            a <= b <= hi,
            space_end(f, a - lo, hi - lo) == b - lo,
        decreases b,
    {
        if b <= a {
            break;
        }
        let k = space_len_before_in(s, lo, hi, b);
        if k == 0 || b - k < a {
            break;
        }
        b -= k;
    }
    (a, b)
}

/// `u128::from_str` on `s[lo..hi]` after trimming it.
fn parse_field(s: &[u8], lo: usize, hi: usize) -> (r: Option<u128>)
    requires
        lo <= hi <= s@.len(),
    ensures
        r == field_value(s@.subrange(lo as int, hi as int)),
{
    let ghost f = s@.subrange(lo as int, hi as int);
    let (a, b) = trim_bounds(s, lo, hi);
    let ghost t = f.subrange(a - lo, b - lo);
    assert(t =~= s@.subrange(a as int, b as int));
    let mut start = a;
    if a < b && s[a] == 43u8 {
        start = a + 1;
    }
    let ghost d = s@.subrange(start as int, b as int);
    assert(t == trimmed(f));
    assert(d =~= unsigned_digits(t));
    if start >= b {
        return None;
    }
    let mut value: u128 = 0;
    let mut k: usize = start;
    while k < b
        invariant
            start <= k <= b <= s@.len(),
            d == s@.subrange(start as int, b as int),
            d == unsigned_digits(trimmed(s@.subrange(lo as int, hi as int))),
            forall|j: int| 0 <= j < k - start ==> #[trigger] is_digit(d[j]),
            value == dec_value(d.subrange(0, k - start)),
        decreases b - k,
    {
        let c = s[k];
        if !(48u8 <= c && c <= 57u8) {
            assert(!is_digit(d[k - start]));
            return None;
        }
        let ghost pre = d.subrange(0, k - start);
        let ghost next = d.subrange(0, k - start + 1);
        assert(next.drop_last() =~= pre);
        assert(next.last() == c);
        let digit = (c - 48u8) as u128;
        assert(dec_value(next) == value * 10 + digit);
        assert(d.subrange(0, d.len() as int) =~= d);
        match value.checked_mul(10) {
            None => {
                proof {
                    if forall|j: int| 0 <= j < d.len() ==> #[trigger] is_digit(d[j]) {
                        lemma_dec_value_prefix(d, k - start + 1, d.len() as int);
                    }
                }
                return None;
            },
            Some(v10) => match v10.checked_add(digit) {
                None => {
                    proof {
                        if forall|j: int| 0 <= j < d.len() ==> #[trigger] is_digit(d[j]) {
                            lemma_dec_value_prefix(d, k - start + 1, d.len() as int);
                        }
                    }
                    return None;
                },
                Some(v) => {
                    value = v;
                },
            },
        }
        k += 1;
    }
    assert(d.subrange(0, d.len() as int) =~= d);
    Some(value)
}

/// A longer prefix of digits has at least the value of a shorter one.
proof fn lemma_dec_value_prefix(d: Seq<u8>, i: int, j: int)
    requires
        0 <= i <= j <= d.len(),
        forall|k: int| 0 <= k < j ==> #[trigger] is_digit(d[k]),
    ensures
        dec_value(d.subrange(0, i)) <= dec_value(d.subrange(0, j)),
    decreases j - i,
{
    if i < j {
        lemma_dec_value_prefix(d, i, j - 1);
        assert(d.subrange(0, j).drop_last() =~= d.subrange(0, j - 1));
    }
}

/// The point that a line of the input file holds.
pub fn parse_point(line: &[u8]) -> (r: Result<[u128; 4], PointError>)
    ensures
        match r {
            Ok(p) => parsed_line(line@) == Ok::<Seq<u128>, PointError>(p@),
            Err(e) => parsed_line(line@) == Err::<Seq<u128>, PointError>(e),
        },
{
    let n = line.len();
    let mut lo: usize = 0;
    loop
        invariant
            lo <= n == line@.len(),
            frame_start(line@, lo as int) == frame_start(line@, 0),
        ensures
            lo <= n,
            frame_start(line@, 0) == lo,
        decreases n - lo,
    {
        let k = frame_len_in(line, lo);
        if k == 0 {
            break;
        }
        lo += k;
    }
    let mut hi: usize = n;
    loop
        invariant
            lo <= hi <= n == line@.len(),
            frame_end(line@, lo as int, hi as int) == frame_end(line@, lo as int, n as int),
        ensures
            lo <= hi <= n,
            frame_end(line@, lo as int, n as int) == hi,
        decreases hi,
    {
        if hi <= lo {
            break;
        }
        let k = frame_len_before_in(line, hi);
        if k == 0 || hi - k < lo {
            break;
        }
        hi -= k;
    }
    let ghost t = line@.subrange(lo as int, hi as int);
    assert(t == unframed(line@));
    let mut values: Vec<u128> = Vec::new();
    let mut fstart: usize = lo;
    let mut i: usize = lo;
    while i < hi
        invariant
            lo <= fstart <= i <= hi <= n == line@.len(),
            t == line@.subrange(lo as int, hi as int),
            t == unframed(line@),
            fstart - lo == field_start(t, i - lo),
            values@.len() == closed_fields(t, i - lo).len(),
            forall|k: int|
                0 <= k < values@.len() ==> field_value(#[trigger] closed_fields(t, i - lo)[k]) == Some(
                    values@[k],
                ),
        decreases hi - i,
    {
        if line[i] == 44u8 {
            let v = parse_field(line, fstart, i);
            assert(line@.subrange(fstart as int, i as int) =~= t.subrange(fstart - lo, i - lo));
            match v {
                None => {
                    proof {
                        let fs = fields(t);
                        lemma_closed_fields_prefix(t, i - lo + 1, t.len() as int);
                        let k = values@.len() as int;
                        assert(fs[k] == closed_fields(t, i - lo + 1)[k]);
                        assert(field_value(fs[k]) is None);
                    }
                    return Err(PointError::Number);
                },
                Some(x) => {
                    values.push(x);
                },
            }
            fstart = i + 1;
        }
        i += 1;
    }
    let last = parse_field(line, fstart, hi);
    assert(line@.subrange(fstart as int, hi as int) =~= t.subrange(fstart - lo, t.len() as int));
    let ghost fs = fields(t);
    assert(fs.len() == values@.len() + 1);
    match last {
        None => {
            assert(field_value(fs[values@.len() as int]) is None);
            Err(PointError::Number)
        },
        Some(x) => {
            values.push(x);
            assert forall|k: int| 0 <= k < fs.len() implies #[trigger] field_value(fs[k]) == Some(values@[k]) by {
                if k < fs.len() - 1 {
                    assert(fs[k] == closed_fields(t, t.len() as int)[k]);
                }
            }
            if values.len() != 4 {
                Err(PointError::Dimension)
            } else {
                let p = [values[0], values[1], values[2], values[3]];
                assert(p@ =~= Seq::new(fs.len(), |k: int| field_value(fs[k])->0));
                Ok(p)
            }
        },
    }
}

/// Closing more characters keeps the fields closed before.
proof fn lemma_closed_fields_prefix(t: Seq<u8>, i: int, j: int)
    requires
        0 <= i <= j <= t.len(),
    ensures
        closed_fields(t, i).len() <= closed_fields(t, j).len(),
        forall|k: int| 0 <= k < closed_fields(t, i).len() ==> #[trigger] closed_fields(t, j)[k] == closed_fields(t, i)[k],
    decreases j - i,
{
    if i < j {
        lemma_closed_fields_prefix(t, i, j - 1);
    }
}

} // verus!
