//! Linear equations over GF(2)^128 whose rows are short bands of bits at an offset:
//! row sums, and how they behave under row operations and single updates of the unknowns.
use vstd::prelude::*;
use crate::gf128::{lemma_xor_facts, lemma_xor4};

verus! {

/// Whether column `c` is set in the row whose bits `bits` start at column `s`.
pub open spec fn row_bit(bits: Seq<bool>, s: int, c: int) -> bool {
    s <= c < s + bits.len() && bits[c - s]
}

/// XOR of the `x[c]` over the columns `c` of `[lo, hi)` that are set in the row.
pub open spec fn row_sum(x: Seq<u128>, bits: Seq<bool>, s: int, lo: int, hi: int) -> u128
    decreases hi - lo,
{
    if hi <= lo {
        0
    } else {
        row_sum(x, bits, s, lo, hi - 1) ^ (if row_bit(bits, s, hi - 1) { x[hi - 1] } else { 0 })
    }
}

/// XOR of the `x[s + j]` over the `j < n` with `bits[j]` set.
pub open spec fn window_sum(x: Seq<u128>, bits: Seq<bool>, s: int, n: int) -> u128
    decreases n,
{
    if n <= 0 {
        0
    } else {
        window_sum(x, bits, s, n - 1) ^ (if bits[n - 1] { x[s + n - 1] } else { 0 })
    }
}

/// A window sum is linear in the unknowns: over `x3 == x1 ^ x2` (on the window) it is the
/// XOR of the sums over `x1` and `x2`.
pub proof fn lemma_window_sum_xor(x1: Seq<u128>, x2: Seq<u128>, x3: Seq<u128>, bits: Seq<bool>, s: int, n: int)
    requires
        0 <= s,
        forall|j: int| s <= j < s + n ==> #[trigger] x3[j] == x1[j] ^ x2[j],
    ensures
        window_sum(x3, bits, s, n) == window_sum(x1, bits, s, n) ^ window_sum(x2, bits, s, n),
    decreases n,
{
    if n <= 0 {
        lemma_xor_facts(0u128, 0u128, 0u128);
    } else {
        lemma_window_sum_xor(x1, x2, x3, bits, s, n - 1);
        let a = window_sum(x1, bits, s, n - 1);
        let b = window_sum(x2, bits, s, n - 1);
        let t1: u128 = if bits[n - 1] { x1[s + n - 1] } else { 0 };
        let t2: u128 = if bits[n - 1] { x2[s + n - 1] } else { 0 };
        lemma_xor_facts(0u128, 0u128, 0u128);
        assert(x3[s + n - 1] == x1[s + n - 1] ^ x2[s + n - 1]);
        lemma_xor4(a, b, t1, t2);
    }
}

/// Over unknowns that are zero on the window, a window sum is zero.
pub proof fn lemma_window_sum_zero(x: Seq<u128>, bits: Seq<bool>, s: int, n: int)
    requires
        forall|j: int| s <= j < s + n ==> #[trigger] x[j] == 0,
    ensures
        window_sum(x, bits, s, n) == 0,
    decreases n,
{
    if n > 0 {
        lemma_window_sum_zero(x, bits, s, n - 1);
        lemma_xor_facts(0u128, 0u128, 0u128);
    }
}

/// XOR cancellation: `a ^ (b ^ a) == b`, `(a ^ b) ^ b == a` and `0 ^ a == a`.
pub proof fn lemma_xor_cancel(a: u128, b: u128)
    ensures
        a ^ (b ^ a) == b,
        (a ^ b) ^ b == a,
        0u128 ^ a == a,
{
    lemma_xor_facts(a, b, b);
    lemma_xor_facts(b, a, a);
    lemma_xor_facts(a, 0u128, 0u128);
    lemma_xor_facts(b, 0u128, 0u128);
    lemma_xor_facts(b, a, 0u128);
    lemma_xor_facts(0u128, a, 0u128);
    lemma_xor_facts(a, b ^ a, 0u128);
}

/// A sum over columns none of which is set is zero.
pub proof fn lemma_row_sum_unset(x: Seq<u128>, bits: Seq<bool>, s: int, lo: int, hi: int)
    requires
        forall|c: int| lo <= c < hi ==> !#[trigger] row_bit(bits, s, c),
    ensures
        row_sum(x, bits, s, lo, hi) == 0,
    decreases hi - lo,
{
    if hi > lo {
        lemma_row_sum_unset(x, bits, s, lo, hi - 1);
        assert(!row_bit(bits, s, hi - 1));
        lemma_xor_facts(0u128, 0u128, 0u128);
    }
}

/// A sum splits at any column between its ends.
pub proof fn lemma_row_sum_split(x: Seq<u128>, bits: Seq<bool>, s: int, lo: int, mid: int, hi: int)
    requires
        lo <= mid <= hi,
    ensures
        row_sum(x, bits, s, lo, hi) == row_sum(x, bits, s, lo, mid) ^ row_sum(x, bits, s, mid, hi),
    decreases hi - mid,
{
    if hi == mid {
        lemma_xor_facts(row_sum(x, bits, s, lo, mid), 0u128, 0u128);
    } else {
        lemma_row_sum_split(x, bits, s, lo, mid, hi - 1);
        let t = if row_bit(bits, s, hi - 1) { x[hi - 1] } else { 0u128 };
        lemma_xor_facts(row_sum(x, bits, s, lo, mid), row_sum(x, bits, s, mid, hi - 1), t);
    }
}

/// Over the row's own columns, the sum is the window sum.
proof fn lemma_row_sum_window_part(x: Seq<u128>, bits: Seq<bool>, s: int, n: int)
    requires
        0 <= n <= bits.len(),
    ensures
        row_sum(x, bits, s, s, s + n) == window_sum(x, bits, s, n),
    decreases n,
{
    if n > 0 {
        lemma_row_sum_window_part(x, bits, s, n - 1);
        assert(row_bit(bits, s, s + n - 1) == bits[n - 1]);
    }
}

/// Over any range of columns that covers the row, the sum is the window sum.
pub proof fn lemma_row_sum_window(x: Seq<u128>, bits: Seq<bool>, s: int, lo: int, hi: int)
    requires
        lo <= s,
        s + bits.len() <= hi,
    ensures
        row_sum(x, bits, s, lo, hi) == window_sum(x, bits, s, bits.len() as int),
{
    let n = bits.len() as int;
    lemma_row_sum_split(x, bits, s, lo, s, hi);
    lemma_row_sum_split(x, bits, s, s, s + n, hi);
    lemma_row_sum_unset(x, bits, s, lo, s);
    lemma_row_sum_unset(x, bits, s, s + n, hi);
    lemma_row_sum_window_part(x, bits, s, n);
    let w = window_sum(x, bits, s, n);
    lemma_xor_facts(0u128, w, 0u128);
    lemma_xor_facts(w, 0u128, 0u128);
}

/// A row whose set columns are those set in exactly one of two rows sums to the XOR
/// of their sums.
pub proof fn lemma_row_sum_xor(
    x: Seq<u128>,
    b1: Seq<bool>,
    s1: int,
    b2: Seq<bool>,
    s2: int,
    b3: Seq<bool>,
    s3: int,
    lo: int,
    hi: int,
)
    requires
        forall|c: int|
            lo <= c < hi ==> #[trigger] row_bit(b3, s3, c) == (row_bit(b1, s1, c) != row_bit(
                b2,
                s2,
                c,
            )),
    ensures
        row_sum(x, b3, s3, lo, hi) == row_sum(x, b1, s1, lo, hi) ^ row_sum(x, b2, s2, lo, hi),
    decreases hi - lo,
{
    if hi > lo {
        lemma_row_sum_xor(x, b1, s1, b2, s2, b3, s3, lo, hi - 1);
        let c = hi - 1;
        assert(row_bit(b3, s3, c) == (row_bit(b1, s1, c) != row_bit(b2, s2, c)));
        let t1 = if row_bit(b1, s1, c) { x[c] } else { 0u128 };
        let t2 = if row_bit(b2, s2, c) { x[c] } else { 0u128 };
        let t3 = if row_bit(b3, s3, c) { x[c] } else { 0u128 };
        lemma_xor_facts(x[c], 0u128, 0u128);
        lemma_xor_facts(0u128, x[c], 0u128);
        lemma_xor_facts(x[c], x[c], 0u128);
        assert(t3 == t1 ^ t2);
        lemma_xor4(row_sum(x, b1, s1, lo, c), t1, row_sum(x, b2, s2, lo, c), t2);
    } else {
        lemma_xor_facts(0u128, 0u128, 0u128);
    }
}

/// Changing an unknown that the row does not use leaves its sum unchanged.
pub proof fn lemma_row_sum_update_unset(
    x: Seq<u128>,
    bits: Seq<bool>,
    s: int,
    lo: int,
    hi: int,
    c: int,
    v: u128,
)
    requires
        0 <= c < x.len(),
        0 <= lo,
        hi <= x.len(),
        !row_bit(bits, s, c),
    ensures
        row_sum(x.update(c, v), bits, s, lo, hi) == row_sum(x, bits, s, lo, hi),
    decreases hi - lo,
{
    if hi > lo {
        lemma_row_sum_update_unset(x, bits, s, lo, hi - 1, c, v);
    }
}

/// Changing an unknown that the row uses changes its sum by the old and the new value.
pub proof fn lemma_row_sum_update_set(
    x: Seq<u128>,
    bits: Seq<bool>,
    s: int,
    lo: int,
    hi: int,
    c: int,
    v: u128,
)
    requires
        0 <= c < x.len(),
        0 <= lo <= c < hi,
        hi <= x.len(),
        row_bit(bits, s, c),
    ensures
        row_sum(x.update(c, v), bits, s, lo, hi) == row_sum(x, bits, s, lo, hi) ^ (x[c] ^ v),
    decreases hi - lo,
{
    let y = x.update(c, v);
    if hi - 1 == c {
        lemma_row_sum_update_unset_below(x, bits, s, lo, c, c, v);
        let a = row_sum(x, bits, s, lo, c);
        lemma_xor_facts(a, x[c], x[c] ^ v);
        lemma_xor_facts(x[c], x[c], v);
        lemma_xor_facts(0u128, v, 0u128);
        lemma_xor_facts(v, 0u128, 0u128);
        assert(x[c] ^ (x[c] ^ v) == v);
    } else {
        lemma_row_sum_update_set(x, bits, s, lo, hi - 1, c, v);
        let a = row_sum(x, bits, s, lo, hi - 1);
        let t = if row_bit(bits, s, hi - 1) { x[hi - 1] } else { 0u128 };
        assert(y[hi - 1] == x[hi - 1]);
        lemma_xor_facts(a, x[c] ^ v, t);
        lemma_xor_facts(a, t, x[c] ^ v);
        lemma_xor_facts(x[c] ^ v, t, 0u128);
    }
}

/// Changing an unknown at or beyond the end of a range leaves the sum over it unchanged.
proof fn lemma_row_sum_update_unset_below(
    x: Seq<u128>,
    bits: Seq<bool>,
    s: int,
    lo: int,
    hi: int,
    c: int,
    v: u128,
)
    requires
        0 <= c < x.len(),
        0 <= lo,
        hi <= c,
    ensures
        row_sum(x.update(c, v), bits, s, lo, hi) == row_sum(x, bits, s, lo, hi),
    decreases hi - lo,
{
    if hi > lo {
        lemma_row_sum_update_unset_below(x, bits, s, lo, hi - 1, c, v);
    }
}

} // verus!
