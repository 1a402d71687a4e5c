//! A random-band oblivious key-value store over GF(2)^128.
//!
//! A key is hashed to a start column and to a band of bits; its value is the XOR of the
//! encoding's entries at the set bits of the band, counted from the start column.
//! Encoding solves the banded linear system of all key-value pairs by Gaussian elimination.
use vstd::prelude::*;
use crate::band_system::{
    lemma_row_sum_update_set, lemma_row_sum_update_unset, lemma_row_sum_window,
    lemma_row_sum_xor, lemma_window_sum_xor, lemma_window_sum_zero, lemma_xor_cancel, row_bit, row_sum,
    window_sum,
};
use crate::bytes::{le_to_u128, u128_from_le_at, u128_to_le, u128_to_le_bytes};
use crate::gf128::{lemma_xor4, lemma_xor_facts};
use crate::hashing::{blake3_digest, blake3_hash};
use crate::okvs_utils::{
    is_stable_sort, lemma_sorted_unique, lemma_stable_sort_elements, lemma_stable_sort_keeps, pow10,
    radix_sort,
};

verus! {

/// The widest band used.
pub const BAND_WIDTH: usize = 200;

/// Why encoding failed.
#[derive(Debug, Clone, Copy, PartialEq, Eq)]
pub enum OkvsError {
    /// After elimination, the row at this position (in start-column order) has no bit set:
    /// the bands of the keys are linearly dependent.
    ZeroRow(usize),
}

/// The store's parameters: `columns` entries, bands of `band_width` bits, and the seeds of the
/// two hashes (start column and band).
pub struct RbOkvsF2k {
    pub columns: usize,
    band_width: usize,
    r1: [u8; 16],
    r2: [u8; 16],
}

/// The 32 bytes hashed for `key` under `seed`.
pub open spec fn hash_input(key: u128, seed: Seq<u8>) -> Seq<u8> {
    u128_to_le(key) + seed
}

/// The start column of `key`: the first 16 digest bytes, little-endian, reduced modulo `m`.
pub open spec fn index_of(key: u128, seed: Seq<u8>, m: int) -> int {
    (le_to_u128(blake3_digest(hash_input(key, seed)).subrange(0, 16)) as int) % m
}

/// The band of `key`: its 32 digest bytes, a 256-bit little-endian integer.
pub open spec fn band_of(key: u128, seed: Seq<u8>) -> Seq<u8> {
    blake3_digest(hash_input(key, seed))
}

/// Bit `j` of the little-endian integer `band`.
pub open spec fn band_bit(band: Seq<u8>, j: int) -> bool {
    (band[j / 8] >> ((j % 8) as u8)) & 1u8 == 1u8
}

/// The first `w` bits of `band`.
pub open spec fn band_bits(band: Seq<u8>, w: int) -> Seq<bool> {
    Seq::new(w as nat, |j: int| band_bit(band, j))
}

/// Rows of bits, as sequences.
pub open spec fn rows_view(rows: Seq<Vec<bool>>) -> Seq<Seq<bool>> {
    Seq::new(rows.len(), |r: int| rows[r]@)
}

/// Row `r` holds under `x`: its bits from column `starts[r]` sum to `y[r]`.
pub open spec fn row_holds(
    rows: Seq<Seq<bool>>,
    starts: Seq<usize>,
    y: Seq<u128>,
    x: Seq<u128>,
    r: int,
) -> bool {
    row_sum(x, rows[r], starts[r] as int, 0, x.len() as int) == y[r]
}

/// Every row holds under `x`.
pub open spec fn system_holds(rows: Seq<Seq<bool>>, starts: Seq<usize>, y: Seq<u128>, x: Seq<u128>) -> bool {
    forall|r: int| 0 <= r < rows.len() ==> #[trigger] row_holds(rows, starts, y, x, r)
}

/// Start columns in non-decreasing order.
pub open spec fn starts_sorted(starts: Seq<usize>) -> bool {
    forall|a: int, b: int| 0 <= a < b < starts.len() ==> #[trigger] starts[a] <= #[trigger] starts[b]
}

impl RbOkvsF2k {
    /// The number of columns.
    pub closed spec fn spec_columns(&self) -> int {
        self.columns as int
    }

    /// The band width.
    pub closed spec fn spec_band_width(&self) -> int {
        self.band_width as int
    }

    /// The seed of the start-column hash.
    pub closed spec fn index_seed(&self) -> Seq<u8> {
        self.r1@
    }

    /// The seed of the band hash.
    pub closed spec fn band_seed(&self) -> Seq<u8> {
        self.r2@
    }

    /// The parameters allow encoding and decoding: the band is narrower than the store, and
    /// the store is small enough for the decimal radix sort of start columns.
    pub closed spec fn well_formed(&self) -> bool {
        &&& 0 <= self.spec_band_width() < self.columns
        &&& self.spec_band_width() <= BAND_WIDTH
        &&& self.columns <= usize::MAX / 16
    }

    /// The number of start columns, `columns - band_width`.
    pub closed spec fn start_range(&self) -> int {
        self.columns - self.spec_band_width()
    }

    /// The value that the encoding `enc` gives `key`.
    pub closed spec fn value_at(&self, enc: Seq<u128>, key: u128) -> u128 {
        window_sum(
            enc,
            band_bits(band_of(key, self.band_seed()), self.spec_band_width()),
            index_of(key, self.index_seed(), self.start_range()),
            self.spec_band_width(),
        )
    }

    /// Decoding is linear: where the encoding `e3` is the XOR of `e1` and `e2` column by
    /// column, every key decodes under `e3` to the XOR of what it decodes to under `e1` and
    /// under `e2`; and under an encoding of zeros every key decodes to zero.
    pub proof fn lemma_decode_linear(&self, e1: Seq<u128>, e2: Seq<u128>, e3: Seq<u128>, key: u128)
        requires
            self.well_formed(),
            e1.len() >= self.spec_columns(),
            e2.len() >= self.spec_columns(),
            e3.len() >= self.spec_columns(),
            forall|j: int| 0 <= j < self.spec_columns() ==> #[trigger] e3[j] == e1[j] ^ e2[j],
        ensures
            self.value_at(e3, key) == self.value_at(e1, key) ^ self.value_at(e2, key),
            (forall|j: int| 0 <= j < self.spec_columns() ==> #[trigger] e1[j] == 0) ==> self.value_at(e1, key)
                == 0,
    {
        let w = self.spec_band_width();
        let s = index_of(key, self.index_seed(), self.start_range());
        let bits = band_bits(band_of(key, self.band_seed()), w);
        assert(0 <= s < self.start_range());
        lemma_window_sum_xor(e1, e2, e3, bits, s, w);
        if forall|j: int| 0 <= j < self.spec_columns() ==> #[trigger] e1[j] == 0 {
            lemma_window_sum_zero(e1, bits, s, w);
        }
    }

    /// Parameters for `kv_count` pairs: `columns = floor(2.5 * kv_count)` and a band of
    /// `BAND_WIDTH` bits, or 80% of the columns where that is narrower.
    pub fn new(kv_count: usize, r1: &[u8; 16], r2: &[u8; 16]) -> (r: Self)
        requires
            kv_count * 5 <= usize::MAX,
            kv_count * 5 < 0x20_0000_0000_0000,
        ensures
            r.spec_columns() == kv_count * 5 / 2,
            r.spec_band_width() == (if BAND_WIDTH < r.spec_columns() { BAND_WIDTH as int } else {
                r.spec_columns() * 80 / 100
            }),
            r.index_seed() == r1@,
            r.band_seed() == r2@,
            r.well_formed() <==> (kv_count >= 1 && kv_count * 5 / 2 <= usize::MAX / 16),
    {
        let columns = kv_count * 5 / 2;
        Self {
            columns,
            band_width: if BAND_WIDTH < columns {
                BAND_WIDTH
            } else {
                columns * 80 / 100
            },
            r1: *r1,
            r2: *r2,
        }
    }

    /// Whether the parameters allow encoding and decoding.
    pub fn is_well_formed(&self) -> (b: bool)
        ensures
            b == self.well_formed(),
    {
        self.band_width < self.columns && self.band_width <= BAND_WIDTH && self.columns
            <= usize::MAX / 16
    }

    /// The value of each key under the encoding.
    pub fn decode(&self, encoding: &Vec<u128>, key: &[u128]) -> (res: Vec<u128>)
        requires
            self.well_formed(),
            encoding@.len() >= self.spec_columns(),
        ensures
            res@.len() == key@.len(),
            forall|i: int| 0 <= i < key@.len() ==> #[trigger] res@[i] == self.value_at(encoding@, key@[i]),
    {
        let n = key.len();
        let w = self.band_width;
        let mut res: Vec<u128> = Vec::new();
        let mut i: usize = 0;
        while i < n
            invariant
                self.well_formed(),
                encoding@.len() >= self.columns,
                n == key@.len(),
                w == self.spec_band_width(),
                i <= n,
                res@.len() == i,
                forall|k: int| 0 <= k < i ==> #[trigger] res@[k] == self.value_at(encoding@, key@[k]),
            decreases n - i,
        {
            let start = hash_to_index(key[i], &self.r1, self.columns - w);
            let band = hash_to_band(key[i], &self.r2);
            let bits = band_row(&band, w);
            let v = sum_window(encoding, &bits, start);
            res.push(v);
            i += 1;
        }
        res
    }
}

/// The 32 bytes `le(x) ++ seed`.
fn hash_block(x: u128, seed: &[u8; 16]) -> (r: [u8; 32])
    ensures
        r@ == hash_input(x, seed@),
{
    let xb = u128_to_le_bytes(x);
    let mut r = [0u8; 32];
    let mut j: usize = 0;
    while j < 16
        invariant
            j <= 16,
            xb@ == u128_to_le(x),
            forall|k: int| 0 <= k < j ==> #[trigger] r@[k] == xb@[k],
            forall|k: int| 0 <= k < j ==> #[trigger] r@[16 + k] == seed@[k],
        decreases 16 - j,
    {
        r[j] = xb[j];
        r[16 + j] = seed[j];
        j += 1;
    }
    assert(r@ =~= hash_input(x, seed@)) by {
        assert forall|k: int| 16 <= k < 32 implies r@[k] == hash_input(x, seed@)[k] by {
            assert(r@[16 + (k - 16)] == seed@[k - 16]);
        }
    }
    r
}

/// The start column of `x`, in `[0, columns)`.
fn hash_to_index(x: u128, r1: &[u8; 16], columns: usize) -> (r: usize)
    requires
        columns > 0,
    ensures
        r == index_of(x, r1@, columns as int),
        r < columns,
{
    let input = hash_block(x, r1);
    let hash = blake3_hash(&input);
    let v = u128_from_le_at(&hash, 0);
    (v % (columns as u128)) as usize
}

/// The band of `x`.
fn hash_to_band(x: u128, r2: &[u8; 16]) -> (r: [u8; 32])
    ensures
        r@ == band_of(x, r2@),
{
    let input = hash_block(x, r2);
    blake3_hash(&input)
}

/// The first `w` bits of a band.
fn band_row(band: &[u8; 32], w: usize) -> (r: Vec<bool>)
    requires
        w <= 256,
    ensures
        r@ == band_bits(band@, w as int),
{
    let mut r: Vec<bool> = Vec::new();
    let mut j: usize = 0;
    while j < w
        invariant
            j <= w <= 256,
            r@.len() == j,
            forall|k: int| 0 <= k < j ==> #[trigger] r@[k] == band_bit(band@, k),
        decreases w - j,
    {
        let b = (band[j / 8] >> ((j % 8) as u8)) & 1u8 == 1u8;
        r.push(b);
        j += 1;
    }
    assert(r@ =~= band_bits(band@, w as int));
    r
}

/// XOR of `x[start + j]` over the `j` with `bits[j]` set.
fn sum_window(x: &Vec<u128>, bits: &Vec<bool>, start: usize) -> (r: u128)
    requires
        start + bits@.len() <= x@.len(),
    ensures
        r == window_sum(x@, bits@, start as int, bits@.len() as int),
{
    let mut r: u128 = 0;
    let mut j: usize = 0;
    let n: usize = x.len();
    while j < bits.len()
        invariant
            n == x@.len(),
            start + bits@.len() <= n,
            j <= bits@.len(),
            r == window_sum(x@, bits@, start as int, j as int),
        decreases bits@.len() - j,
    {
        if bits[j] {
            r = r ^ x[start + j];
        } else {
            proof {
                lemma_xor_facts(r, 0u128, 0u128);
            }
        }
        j += 1;
    }
    r
}

/// Row `r` is in echelon form: `fnz[r]` is its first set bit, at column `pivot[r]`.
pub open spec fn echelon_row(
    rows: Seq<Seq<bool>>,
    starts: Seq<usize>,
    fnz: Seq<usize>,
    pivot: Seq<usize>,
    w: int,
    r: int,
) -> bool {
    &&& fnz[r] < w
    &&& pivot[r] == starts[r] + fnz[r]
    &&& rows[r][fnz[r] as int]
    &&& forall|t: int| 0 <= t < fnz[r] ==> !#[trigger] rows[r][t]
}

/// A copy of a row.
fn copy_row(v: &Vec<bool>) -> (r: Vec<bool>)
    ensures
        r@ == v@,
{
    let mut r: Vec<bool> = Vec::new();
    let mut j: usize = 0;
    while j < v.len()
        invariant
            j <= v@.len(),
            r@ == v@.subrange(0, j as int),
        decreases v@.len() - j,
    {
        r.push(v[j]);
        j += 1;
    }
    assert(r@ =~= v@);
    r
}

/// Adding row `i` (first set bit `f`, start `si`) into row `j` (start `sj`) at the offset of
/// row `i`'s pivot toggles exactly the columns set in row `i`.
proof fn lemma_row_op_bits(oj: Seq<bool>, nj: Seq<bool>, ri: Seq<bool>, sj: int, si: int, f: int, w: int)
    requires
        oj.len() == w,
        nj.len() == w,
        ri.len() == w,
        0 <= f < w,
        si <= sj <= si + f,
        forall|t: int| 0 <= t < f ==> !#[trigger] ri[t],
        forall|t: int|
            0 <= t < w ==> #[trigger] nj[t] == (oj[t] != (si + f - sj <= t < si + w - sj && ri[t
                + sj - si])),
    ensures
        forall|c: int| #[trigger] row_bit(nj, sj, c) == (row_bit(oj, sj, c) != row_bit(ri, si, c)),
        forall|c: int| #[trigger] row_bit(oj, sj, c) == (row_bit(nj, sj, c) != row_bit(ri, si, c)),
{
    assert forall|c: int| #[trigger] row_bit(nj, sj, c) == (row_bit(oj, sj, c) != row_bit(ri, si, c)) by {
        if sj <= c < sj + w {
            let t = c - sj;
            assert(nj[t] == (oj[t] != (si + f - sj <= t < si + w - sj && ri[t + sj - si])));
        }
        if si <= c < si + w && c - si < f {
            assert(!ri[c - si]);
        }
    }
}

/// Adding row `i` into row `j` (and `y[i]` into `y[j]`) keeps every solution of the new
/// system a solution of the old one.
proof fn lemma_row_op_solutions(
    old_rows: Seq<Seq<bool>>,
    new_rows: Seq<Seq<bool>>,
    starts: Seq<usize>,
    old_y: Seq<u128>,
    new_y: Seq<u128>,
    i: int,
    j: int,
    x: Seq<u128>,
)
    requires
        0 <= i < old_rows.len(),
        0 <= j < old_rows.len(),
        i != j,
        old_rows.len() == starts.len(),
        old_y.len() == old_rows.len(),
        new_rows == old_rows.update(j, new_rows[j]),
        new_y == old_y.update(j, old_y[j] ^ old_y[i]),
        forall|c: int| #[trigger] row_bit(old_rows[j], starts[j] as int, c) == (row_bit(new_rows[j], starts[j] as int, c) != row_bit(old_rows[i], starts[i] as int, c)),
        system_holds(new_rows, starts, new_y, x),
    ensures
        system_holds(old_rows, starts, old_y, x),
{
    assert forall|r: int| 0 <= r < old_rows.len() implies #[trigger] row_holds(old_rows, starts, old_y, x, r) by {
        assert(row_holds(new_rows, starts, new_y, x, r));
        if r == j {
            assert(row_holds(new_rows, starts, new_y, x, i));
            let m = x.len() as int;
            lemma_row_sum_xor(
                x,
                new_rows[j],
                starts[j] as int,
                old_rows[i],
                starts[i] as int,
                old_rows[j],
                starts[j] as int,
                0,
                m,
            );
            lemma_xor_cancel(old_y[j], old_y[i]);
        }
    }
}

/// The rows of the bands: the first `w` bits of each.
pub open spec fn band_rows(bands: Seq<[u8; 32]>, w: int) -> Seq<Seq<bool>> {
    Seq::new(bands.len(), |r: int| band_bits(bands[r]@, w))
}

/// Over the rows `k < n` that `c` picks, the XOR of their bits at column `col`.
pub open spec fn column_parity(rows: Seq<Seq<bool>>, starts: Seq<usize>, c: Seq<bool>, col: int, n: int) -> bool
    decreases n,
{
    if n <= 0 {
        false
    } else {
        column_parity(rows, starts, c, col, n - 1) != (c[n - 1] && row_bit(rows[n - 1], starts[n - 1] as int, col))
    }
}

/// `c` picks row `i`, no row after it, and rows whose bits cancel in every column: row `i`
/// is the XOR of the other picked rows, all before it.
pub open spec fn cancelling_rows(rows: Seq<Seq<bool>>, starts: Seq<usize>, c: Seq<bool>, i: int) -> bool {
    &&& c.len() == rows.len()
    &&& 0 <= i < c.len()
    &&& c[i]
    &&& forall|k: int| i < k < c.len() ==> !#[trigger] c[k]
    &&& forall|col: int| !#[trigger] column_parity(rows, starts, c, col, rows.len() as int)
}

/// The choice of row `r` alone among `n`.
pub open spec fn unit_choice(n: nat, r: int) -> Seq<bool> {
    Seq::new(n, |k: int| k == r)
}

/// The rows chosen by exactly one of `a` and `b`.
pub open spec fn xor_choice(a: Seq<bool>, b: Seq<bool>) -> Seq<bool> {
    Seq::new(a.len(), |k: int| a[k] != b[k])
}

/// Choosing one row gives its bits.
proof fn lemma_parity_unit(rows: Seq<Seq<bool>>, starts: Seq<usize>, r: int, col: int, n: int)
    requires
        0 <= r < n <= rows.len(),
    ensures
        column_parity(rows, starts, unit_choice(rows.len(), r), col, n) == row_bit(rows[r], starts[r] as int, col),
    decreases n,
{
    if n - 1 > r {
        lemma_parity_unit(rows, starts, r, col, n - 1);
    } else {
        lemma_parity_none(rows, starts, unit_choice(rows.len(), r), col, n - 1);
    }
}

/// Choosing no row among the first `n` gives no bit.
proof fn lemma_parity_none(rows: Seq<Seq<bool>>, starts: Seq<usize>, c: Seq<bool>, col: int, n: int)
    requires
        forall|k: int| 0 <= k < n ==> !#[trigger] c[k],
    ensures
        !column_parity(rows, starts, c, col, n),
    decreases n,
{
    if n > 0 {
        lemma_parity_none(rows, starts, c, col, n - 1);
    }
}

/// The parity of a symmetric difference of choices is the XOR of their parities.
proof fn lemma_parity_xor(rows: Seq<Seq<bool>>, starts: Seq<usize>, a: Seq<bool>, b: Seq<bool>, col: int, n: int)
    requires
        a.len() == b.len(),
        n <= a.len(),
    ensures
        column_parity(rows, starts, xor_choice(a, b), col, n) == (column_parity(rows, starts, a, col, n)
            != column_parity(rows, starts, b, col, n)),
    decreases n,
{
    if n > 0 {
        lemma_parity_xor(rows, starts, a, b, col, n - 1);
    }
}

/// The choice of no row among `n`.
pub open spec fn no_choice(n: nat) -> Seq<bool> {
    Seq::new(n, |k: int| false)
}

/// For each of `n` rows `r`, the XOR over the chosen `k < m` of `inv[k][r]`.
pub open spec fn combined_choice(c: Seq<bool>, inv: Seq<Seq<bool>>, n: nat, m: int) -> Seq<bool>
    decreases m,
{
    if m <= 0 {
        no_choice(n)
    } else {
        xor_choice(combined_choice(c, inv, n, m - 1), if c[m - 1] { inv[m - 1] } else { no_choice(n) })
    }
}

/// A parity over no contributing row is clear.
proof fn lemma_parity_zero(rows: Seq<Seq<bool>>, starts: Seq<usize>, c: Seq<bool>, col: int, n: int)
    requires
        forall|k: int| 0 <= k < n ==> !(#[trigger] c[k] && row_bit(rows[k], starts[k] as int, col)),
    ensures
        !column_parity(rows, starts, c, col, n),
    decreases n,
{
    if n > 0 {
        lemma_parity_zero(rows, starts, c, col, n - 1);
    }
}

/// A parity over exactly one contributing row is set.
proof fn lemma_parity_single(rows: Seq<Seq<bool>>, starts: Seq<usize>, c: Seq<bool>, col: int, n: int, r0: int)
    requires
        0 <= r0 < n,
        c[r0],
        row_bit(rows[r0], starts[r0] as int, col),
        forall|k: int| 0 <= k < n && k != r0 ==> !(#[trigger] c[k] && row_bit(rows[k], starts[k] as int, col)),
    ensures
        column_parity(rows, starts, c, col, n),
    decreases n,
{
    if n - 1 == r0 {
        lemma_parity_zero(rows, starts, c, col, n - 1);
    } else {
        lemma_parity_single(rows, starts, c, col, n - 1, r0);
    }
}

/// Adding row `i` into row `j` changes a parity by row `i`'s bit where row `j` is chosen.
proof fn lemma_parity_row_op(
    old_rows: Seq<Seq<bool>>,
    new_rows: Seq<Seq<bool>>,
    starts: Seq<usize>,
    c: Seq<bool>,
    i: int,
    j: int,
    col: int,
    n: int,
)
    requires
        0 <= i < old_rows.len(),
        0 <= j < old_rows.len(),
        i != j,
        n <= old_rows.len(),
        new_rows.len() == old_rows.len(),
        forall|r: int| 0 <= r < old_rows.len() && r != j ==> #[trigger] new_rows[r] == old_rows[r],
        row_bit(old_rows[j], starts[j] as int, col) == (row_bit(new_rows[j], starts[j] as int, col) != row_bit(
            new_rows[i],
            starts[i] as int,
            col,
        )),
    ensures
        column_parity(old_rows, starts, c, col, n) == (column_parity(new_rows, starts, c, col, n) != (j < n
            && c[j] && row_bit(new_rows[i], starts[i] as int, col))),
    decreases n,
{
    if n > 0 {
        lemma_parity_row_op(old_rows, new_rows, starts, c, i, j, col, n - 1);
        if n - 1 != j {
            assert(new_rows[n - 1] == old_rows[n - 1]);
        }
    }
}

/// With each original row the XOR of the current rows that `inv` picks, the parity of a
/// choice of original rows is the parity of the combined choice of current rows.
proof fn lemma_parity_combined(
    orig: Seq<Seq<bool>>,
    cur: Seq<Seq<bool>>,
    starts: Seq<usize>,
    c: Seq<bool>,
    inv: Seq<Seq<bool>>,
    col: int,
    m: int,
    n: nat,
)
    requires
        0 <= m <= n,
        inv.len() == n,
        forall|k: int| 0 <= k < n ==> #[trigger] inv[k].len() == n,
        forall|k: int|
            0 <= k < n ==> #[trigger] row_bit(orig[k], starts[k] as int, col) == column_parity(
                cur,
                starts,
                inv[k],
                col,
                n as int,
            ),
    ensures
        combined_choice(c, inv, n, m).len() == n,
        column_parity(orig, starts, c, col, m) == column_parity(cur, starts, combined_choice(c, inv, n, m), col, n as int),
    decreases m,
{
    if m > 0 {
        lemma_parity_combined(orig, cur, starts, c, inv, col, m - 1, n);
        let prev = combined_choice(c, inv, n, m - 1);
        let extra = if c[m - 1] { inv[m - 1] } else { no_choice(n) };
        lemma_parity_xor(cur, starts, prev, extra, col, n as int);
        if !c[m - 1] {
            lemma_parity_none(cur, starts, no_choice(n), col, n as int);
        }
    } else {
        lemma_parity_none(cur, starts, no_choice(n), col, n as int);
    }
}

/// Under a unit lower-triangular `inv`, the combined choice of a choice whose last row is
/// `i` picks row `i` once the first `m > i` rows are combined.
proof fn lemma_combined_at(c: Seq<bool>, inv: Seq<Seq<bool>>, n: nat, m: int, i: int)
    requires
        0 <= i < n,
        0 <= m <= n,
        c.len() == n,
        c[i],
        forall|k: int| i < k < n ==> !#[trigger] c[k],
        inv.len() == n,
        forall|k: int| 0 <= k < n ==> #[trigger] inv[k].len() == n,
        forall|k: int| 0 <= k < n ==> #[trigger] inv[k][k],
        forall|k: int, r: int| 0 <= k < n && k < r < n ==> !#[trigger] inv[k][r],
    ensures
        combined_choice(c, inv, n, m).len() == n,
        combined_choice(c, inv, n, m)[i] == (m > i),
    decreases m,
{
    if m > 0 {
        lemma_combined_at(c, inv, n, m - 1, i);
        if m - 1 < i {
            assert(!inv[m - 1][i]);
        }
    }
}

/// The first chosen row, at or before a chosen row `i`.
proof fn first_chosen(d: Seq<bool>, i: int) -> (r: int)
    requires
        0 <= i < d.len(),
        d[i],
    ensures
        0 <= r <= i,
        d[r],
        forall|k: int| 0 <= k < r ==> !#[trigger] d[k],
    decreases i,
{
    if exists|k: int| 0 <= k < i && #[trigger] d[k] {
        let k = choose|k: int| 0 <= k < i && #[trigger] d[k];
        first_chosen(d, k)
    } else {
        i
    }
}

/// Once rows `0..i` are in echelon form (each with a pivot bit that no later row has), no
/// choice of original rows ending before row `i` cancels.
proof fn lemma_no_cancel_before(
    orig: Seq<Seq<bool>>,
    cur: Seq<Seq<bool>>,
    starts: Seq<usize>,
    fnz: Seq<usize>,
    pivot: Seq<usize>,
    w: int,
    inv: Seq<Seq<bool>>,
    n: nat,
    i: int,
)
    requires
        orig.len() == n,
        cur.len() == n,
        starts.len() == n,
        0 <= i <= n,
        fnz.len() >= i,
        pivot.len() >= i,
        forall|r: int| 0 <= r < n ==> #[trigger] cur[r].len() == w,
        inv.len() == n,
        forall|k: int| 0 <= k < n ==> #[trigger] inv[k].len() == n,
        forall|k: int| 0 <= k < n ==> #[trigger] inv[k][k],
        forall|k: int, r: int| 0 <= k < n && k < r < n ==> !#[trigger] inv[k][r],
        forall|k: int, col: int|
            0 <= k < n ==> #[trigger] row_bit(orig[k], starts[k] as int, col) == column_parity(
                cur,
                starts,
                inv[k],
                col,
                n as int,
            ),
        forall|r: int| 0 <= r < i ==> #[trigger] echelon_row(cur, starts, fnz, pivot, w, r),
        forall|r: int, r2: int|
            0 <= r < i && r < r2 < n ==> !#[trigger] row_bit(cur[r2], starts[r2] as int, #[trigger] pivot[r] as int),
    ensures
        forall|c: Seq<bool>, i0: int| 0 <= i0 < i ==> !#[trigger] cancelling_rows(orig, starts, c, i0),
{
    assert forall|c: Seq<bool>, i0: int| 0 <= i0 < i implies !#[trigger] cancelling_rows(orig, starts, c, i0) by {
        if cancelling_rows(orig, starts, c, i0) {
            lemma_combined_at(c, inv, n, n as int, i0);
            let d = combined_choice(c, inv, n, n as int);
            let r0 = first_chosen(d, i0);
            let p = pivot[r0] as int;
            assert(echelon_row(cur, starts, fnz, pivot, w, r0));
            assert(row_bit(cur[r0], starts[r0] as int, p));
            assert forall|k: int| 0 <= k < n && k != r0 implies !(#[trigger] d[k] && row_bit(
                cur[k],
                starts[k] as int,
                p,
            )) by {
                if k > r0 {
                    assert(!row_bit(cur[k], starts[k] as int, pivot[r0] as int));
                }
            }
            lemma_parity_single(cur, starts, d, p, n as int, r0);
            lemma_parity_combined(orig, cur, starts, c, inv, p, n as int, n);
            assert(!column_parity(orig, starts, c, p, orig.len() as int));
        }
    }
}

/// `x` is zero off the columns `p` lists.
pub open spec fn zero_off(x: Seq<u128>, p: Seq<int>) -> bool {
    forall|col: int| 0 <= col < x.len() && x[col] != 0u128 ==> exists|r: int| 0 <= r < p.len() && #[trigger] p[r] == col
}

/// One distinct column per row, inside the row's window.
pub open spec fn pivot_columns(p: Seq<int>, starts: Seq<usize>, w: int) -> bool {
    &&& p.len() == starts.len()
    &&& forall|r: int| 0 <= r < p.len() ==> starts[r] <= #[trigger] p[r] < starts[r] + w
    &&& forall|r1: int, r2: int| 0 <= r1 < r2 < p.len() ==> #[trigger] p[r1] != #[trigger] p[r2]
}

/// The pivots that elimination in row order gives: for each row `r`, `cs[r]` picks row `r`
/// and some rows before it, and the row it combines (row `r` with the earlier rows added
/// into it) is clear at the pivots `p[k]` of the earlier rows and has its first set bit at
/// `p[r]`. Each `p[r]` is then the first set bit of row `r` once the earlier rows have been
/// eliminated from it.
pub open spec fn elimination_pivots(rows: Seq<Seq<bool>>, starts: Seq<usize>, p: Seq<int>, cs: Seq<Seq<bool>>) -> bool {
    let n = rows.len() as int;
    &&& p.len() == n
    &&& cs.len() == n
    &&& forall|r: int| 0 <= r < n ==> (#[trigger] cs[r]).len() == n && cs[r][r]
    &&& forall|r: int, k: int| 0 <= r < n && r < k < n ==> !#[trigger] cs[r][k]
    &&& forall|r: int| 0 <= r < n ==> #[trigger] column_parity(rows, starts, cs[r], p[r], n)
    &&& forall|r: int, col: int|
        0 <= r < n && col < p[r] ==> !#[trigger] column_parity(rows, starts, cs[r], col, n)
    &&& forall|r: int, k: int|
        0 <= k < r < n ==> !#[trigger] column_parity(rows, starts, cs[r], #[trigger] p[k], n)
}

/// A choice of the rows before `m` whose combination is clear at their elimination pivots
/// picks no row: the eliminated rows before `m` are independent at their pivots.
proof fn lemma_clear_at_pivots_picks_none(
    rows: Seq<Seq<bool>>,
    starts: Seq<usize>,
    p: Seq<int>,
    cs: Seq<Seq<bool>>,
    d: Seq<bool>,
    m: int,
)
    requires
        elimination_pivots(rows, starts, p, cs),
        0 <= m <= rows.len(),
        d.len() == rows.len(),
        forall|k: int| m <= k < d.len() ==> !#[trigger] d[k],
        forall|j: int| 0 <= j < m ==> !#[trigger] column_parity(rows, starts, d, p[j], rows.len() as int),
    ensures
        forall|k: int| 0 <= k < d.len() ==> !#[trigger] d[k],
    decreases m,
{
    let n = rows.len() as int;
    if m > 0 {
        if d[m - 1] {
            let c = cs[m - 1];
            let d2 = xor_choice(d, c);
            assert(c.len() == n && c[m - 1]);
            assert forall|k: int| m - 1 <= k < n implies !#[trigger] d2[k] by {
                if k > m - 1 {
                    assert(!c[k]);
                }
            }
            assert forall|j: int| 0 <= j < m - 1 implies !#[trigger] column_parity(rows, starts, d2, p[j], n) by {
                lemma_parity_xor(rows, starts, d, c, p[j], n);
                assert(!column_parity(rows, starts, cs[m - 1], p[j], n));
            }
            lemma_clear_at_pivots_picks_none(rows, starts, p, cs, d2, m - 1);
            lemma_parity_none(rows, starts, d2, p[m - 1], n);
            lemma_parity_xor(rows, starts, d, c, p[m - 1], n);
            assert(column_parity(rows, starts, cs[m - 1], p[m - 1], n));
            assert(false);
        } else {
            lemma_clear_at_pivots_picks_none(rows, starts, p, cs, d, m - 1);
        }
    }
}

/// The elimination pivots are unique: two lists of pivots that both meet
/// `elimination_pivots` for the same rows are the same list.
pub proof fn lemma_elimination_pivots_unique(
    rows: Seq<Seq<bool>>,
    starts: Seq<usize>,
    p: Seq<int>,
    cs: Seq<Seq<bool>>,
    p2: Seq<int>,
    cs2: Seq<Seq<bool>>,
)
    requires
        elimination_pivots(rows, starts, p, cs),
        elimination_pivots(rows, starts, p2, cs2),
    ensures
        p == p2,
{
    let n = rows.len() as int;
    assert forall|r: int| 0 <= r < n implies p[r] == p2[r] by {
        lemma_pivot_agrees(rows, starts, p, cs, p2, cs2, r);
    }
    assert(p =~= p2);
}

proof fn lemma_pivot_agrees(
    rows: Seq<Seq<bool>>,
    starts: Seq<usize>,
    p: Seq<int>,
    cs: Seq<Seq<bool>>,
    p2: Seq<int>,
    cs2: Seq<Seq<bool>>,
    r: int,
)
    requires
        elimination_pivots(rows, starts, p, cs),
        elimination_pivots(rows, starts, p2, cs2),
        0 <= r < rows.len(),
    ensures
        forall|k: int| 0 <= k <= r ==> #[trigger] p[k] == p2[k],
    decreases r,
{
    let n = rows.len() as int;
    if r > 0 {
        lemma_pivot_agrees(rows, starts, p, cs, p2, cs2, r - 1);
    }
    let a = cs[r];
    let b = cs2[r];
    let d = xor_choice(a, b);
    assert(a.len() == n && b.len() == n && a[r] && b[r]);
    assert forall|k: int| r <= k < n implies !#[trigger] d[k] by {
        if k > r {
            assert(!a[k] && !b[k]);
        }
    }
    assert forall|j: int| 0 <= j < r implies !#[trigger] column_parity(rows, starts, d, p[j], n) by {
        lemma_parity_xor(rows, starts, a, b, p[j], n);
        assert(p2[j] == p[j]);
        assert(!column_parity(rows, starts, cs[r], p[j], n));
        assert(!column_parity(rows, starts, cs2[r], p2[j], n));
    }
    lemma_clear_at_pivots_picks_none(rows, starts, p, cs, d, r);
    lemma_parity_none(rows, starts, d, p[r], n);
    lemma_parity_none(rows, starts, d, p2[r], n);
    lemma_parity_xor(rows, starts, a, b, p[r], n);
    lemma_parity_xor(rows, starts, a, b, p2[r], n);
    assert(column_parity(rows, starts, cs[r], p[r], n));
    assert(column_parity(rows, starts, cs2[r], p2[r], n));
    if p[r] < p2[r] {
        assert(!column_parity(rows, starts, cs2[r], p[r], n));
    }
    if p2[r] < p[r] {
        assert(!column_parity(rows, starts, cs[r], p2[r], n));
    }
}

/// XOR over the columns `col < hi` whose parity under the choice `c` is set of `z[col]`.
pub open spec fn parity_sum(rows: Seq<Seq<bool>>, starts: Seq<usize>, c: Seq<bool>, z: Seq<u128>, n: int, hi: int) -> u128
    decreases hi,
{
    if hi <= 0 {
        0
    } else {
        parity_sum(rows, starts, c, z, n, hi - 1) ^ (if column_parity(rows, starts, c, hi - 1, n) {
            z[hi - 1]
        } else {
            0u128
        })
    }
}

/// XOR over the rows `k < n` that `c` picks of their sums of `z` over the columns below `hi`.
pub open spec fn combo_sum(rows: Seq<Seq<bool>>, starts: Seq<usize>, c: Seq<bool>, z: Seq<u128>, n: int, hi: int) -> u128
    decreases n,
{
    if n <= 0 {
        0
    } else {
        combo_sum(rows, starts, c, z, n - 1, hi) ^ (if c[n - 1] {
            row_sum(z, rows[n - 1], starts[n - 1] as int, 0, hi)
        } else {
            0u128
        })
    }
}

/// Adding row `n - 1` to a choice adds its row sum to the parity sum.
proof fn lemma_parity_sum_step(rows: Seq<Seq<bool>>, starts: Seq<usize>, c: Seq<bool>, z: Seq<u128>, n: int, hi: int)
    requires
        n >= 1,
    ensures
        parity_sum(rows, starts, c, z, n, hi) == parity_sum(rows, starts, c, z, n - 1, hi) ^ (if c[n - 1] {
            row_sum(z, rows[n - 1], starts[n - 1] as int, 0, hi)
        } else {
            0u128
        }),
    decreases hi,
{
    lemma_xor_facts(0u128, 0u128, 0u128);
    if hi > 0 {
        lemma_parity_sum_step(rows, starts, c, z, n, hi - 1);
        let col = hi - 1;
        let rb = row_bit(rows[n - 1], starts[n - 1] as int, col);
        let p0 = parity_sum(rows, starts, c, z, n - 1, hi - 1);
        let r0 = row_sum(z, rows[n - 1], starts[n - 1] as int, 0, hi - 1);
        let t0: u128 = if column_parity(rows, starts, c, col, n - 1) { z[col] } else { 0u128 };
        let r: u128 = if rb { z[col] } else { 0u128 };
        lemma_xor_facts(z[col], 0u128, 0u128);
        lemma_xor_facts(0u128, z[col], 0u128);
        if c[n - 1] {
            lemma_xor4(p0, r0, t0, r);
        } else {
            lemma_xor_facts(p0, 0u128, 0u128);
            lemma_xor_facts(p0 ^ t0, 0u128, 0u128);
        }
    }
}

/// The parity sum of a choice is the XOR of the chosen rows' sums.
proof fn lemma_parity_sum_combo(rows: Seq<Seq<bool>>, starts: Seq<usize>, c: Seq<bool>, z: Seq<u128>, n: int, hi: int)
    ensures
        parity_sum(rows, starts, c, z, n, hi) == combo_sum(rows, starts, c, z, n, hi),
    decreases n,
{
    if n <= 0 {
        lemma_parity_sum_none(rows, starts, c, z, n, hi);
    } else {
        lemma_parity_sum_combo(rows, starts, c, z, n - 1, hi);
        lemma_parity_sum_step(rows, starts, c, z, n, hi);
    }
}

proof fn lemma_parity_sum_none(rows: Seq<Seq<bool>>, starts: Seq<usize>, c: Seq<bool>, z: Seq<u128>, n: int, hi: int)
    requires
        n <= 0,
    ensures
        parity_sum(rows, starts, c, z, n, hi) == 0,
    decreases hi,
{
    if hi > 0 {
        lemma_parity_sum_none(rows, starts, c, z, n, hi - 1);
        lemma_xor_facts(0u128, 0u128, 0u128);
    }
}

/// Rows whose sums are all zero have zero combinations.
proof fn lemma_combo_sum_zero(rows: Seq<Seq<bool>>, starts: Seq<usize>, c: Seq<bool>, z: Seq<u128>, n: int, hi: int)
    requires
        forall|k: int| 0 <= k < n ==> #[trigger] row_sum(z, rows[k], starts[k] as int, 0, hi) == 0,
    ensures
        combo_sum(rows, starts, c, z, n, hi) == 0,
    decreases n,
{
    if n > 0 {
        lemma_combo_sum_zero(rows, starts, c, z, n - 1, hi);
        lemma_xor_facts(0u128, 0u128, 0u128);
    }
}

/// A parity sum with one contributing column is that column's term.
proof fn lemma_parity_sum_single(
    rows: Seq<Seq<bool>>,
    starts: Seq<usize>,
    c: Seq<bool>,
    z: Seq<u128>,
    n: int,
    hi: int,
    c0: int,
)
    requires
        forall|col: int|
            0 <= col < hi && col != c0 ==> (if column_parity(rows, starts, c, col, n) { #[trigger] z[col] } else { 0u128 })
                == 0u128,
    ensures
        parity_sum(rows, starts, c, z, n, hi) == if 0 <= c0 < hi && column_parity(rows, starts, c, c0, n) {
            z[c0]
        } else {
            0u128
        },
    decreases hi,
{
    if hi > 0 {
        lemma_parity_sum_single(rows, starts, c, z, n, hi - 1, c0);
        let col = hi - 1;
        assert((if column_parity(rows, starts, c, col, n) { z[col] } else { 0u128 }) == 0u128 || col == c0);
        lemma_xor_facts(z[c0], 0u128, 0u128);
        lemma_xor_facts(0u128, z[c0], 0u128);
        lemma_xor_facts(0u128, 0u128, 0u128);
    }
}

/// From the last pivot down: a vector that is zero off the pivots and has zero row sums is
/// zero at the pivots from `r0` on.
proof fn lemma_zero_at_pivots_from(
    rows: Seq<Seq<bool>>,
    starts: Seq<usize>,
    p: Seq<int>,
    cs: Seq<Seq<bool>>,
    w: int,
    m: int,
    z: Seq<u128>,
    r0: int,
)
    requires
        elimination_pivots(rows, starts, p, cs),
        pivot_columns(p, starts, w),
        forall|r: int| 0 <= r < starts.len() ==> #[trigger] starts[r] + w <= m,
        z.len() == m,
        zero_off(z, p),
        forall|k: int| 0 <= k < rows.len() ==> #[trigger] row_sum(z, rows[k], starts[k] as int, 0, m) == 0,
        0 <= r0 <= rows.len(),
    ensures
        forall|r: int| r0 <= r < rows.len() ==> #[trigger] z[p[r]] == 0,
    decreases rows.len() - r0,
{
    let n = rows.len() as int;
    if r0 < n {
        lemma_zero_at_pivots_from(rows, starts, p, cs, w, m, z, r0 + 1);
        let c = cs[r0];
        lemma_combo_sum_zero(rows, starts, c, z, n, m);
        lemma_parity_sum_combo(rows, starts, c, z, n, m);
        let c0 = p[r0];
        assert forall|col: int|
            0 <= col < m && col != c0 implies (if column_parity(rows, starts, c, col, n) { #[trigger] z[col] } else { 0u128 })
                == 0u128 by {
            if z[col] != 0u128 {
                let k = choose|k: int| 0 <= k < p.len() && #[trigger] p[k] == col;
                if k < r0 {
                    assert(!column_parity(rows, starts, cs[r0], p[k], n));
                } else {
                    assert(k > r0);
                    assert(z[p[k]] == 0);
                }
            }
        }
        lemma_parity_sum_single(rows, starts, c, z, n, m, c0);
        assert(starts[r0] <= p[r0] < starts[r0] + w);
        assert(column_parity(rows, starts, cs[r0], p[r0], n));
    }
}

/// The solution is determined by the pivots: two vectors with `m` columns, both zero off the
/// elimination pivots `p`, that give every row the same window sum, are equal.
pub proof fn lemma_pivot_solution_unique(
    rows: Seq<Seq<bool>>,
    starts: Seq<usize>,
    p: Seq<int>,
    cs: Seq<Seq<bool>>,
    w: int,
    m: int,
    x1: Seq<u128>,
    x2: Seq<u128>,
)
    requires
        elimination_pivots(rows, starts, p, cs),
        pivot_columns(p, starts, w),
        forall|r: int| 0 <= r < rows.len() ==> (#[trigger] rows[r]).len() == w,
        forall|r: int| 0 <= r < starts.len() ==> #[trigger] starts[r] + w <= m,
        x1.len() == m,
        x2.len() == m,
        zero_off(x1, p),
        zero_off(x2, p),
        forall|r: int|
            0 <= r < rows.len() ==> #[trigger] window_sum(x1, rows[r], starts[r] as int, w) == window_sum(
                x2,
                rows[r],
                starts[r] as int,
                w,
            ),
    ensures
        x1 == x2,
{
    let z = Seq::new(m as nat, |j: int| x1[j] ^ x2[j]);
    assert forall|col: int| 0 <= col < z.len() && z[col] != 0u128 implies exists|r: int|
        0 <= r < p.len() && #[trigger] p[r] == col by {
        lemma_xor_facts(0u128, 0u128, 0u128);
        if x1[col] == 0u128 && x2[col] == 0u128 {
            assert(z[col] == 0u128);
        }
    }
    assert forall|k: int| 0 <= k < rows.len() implies #[trigger] row_sum(z, rows[k], starts[k] as int, 0, m) == 0 by {
        let s = starts[k] as int;
        lemma_row_sum_window(z, rows[k], s, 0, m);
        lemma_window_sum_xor(x1, x2, z, rows[k], s, w);
        lemma_xor_facts(window_sum(x1, rows[k], s, w), 0u128, 0u128);
    }
    lemma_zero_at_pivots_from(rows, starts, p, cs, w, m, z, 0);
    assert forall|j: int| 0 <= j < m implies x1[j] == x2[j] by {
        if z[j] != 0u128 {
            let k = choose|k: int| 0 <= k < p.len() && #[trigger] p[k] == j;
            assert(z[p[k]] == 0);
        }
        lemma_xor_cancel(x1[j], x2[j]);
        lemma_xor_facts(x1[j], x2[j], x2[j]);
        lemma_xor_facts(x1[j], 0u128, 0u128);
    }
    assert(x1 =~= x2);
}

impl RbOkvsF2k {
    /// Solves the banded system whose row `r` has the first `band_width` bits of `bands[r]`
    /// from column `start_pos[r]` and right-hand side `y[r]`, by elimination in row order and
    /// back substitution. Rows must come in order of start column.
    fn simple_gauss(
        &self,
        y: Vec<u128>,
        bands: Vec<[u8; 32]>,
        start_pos: Vec<usize>,
        band_width: usize,
    ) -> (res: Result<Vec<u128>, OkvsError>)
        requires
            bands@.len() == start_pos@.len(),
            bands@.len() == y@.len(),
            band_width <= 256,
            starts_sorted(start_pos@),
            forall|r: int| 0 <= r < start_pos@.len() ==> #[trigger] start_pos@[r] + band_width <= self.columns,
        ensures
            match res {
                Ok(x) => {
                    &&& x@.len() == self.columns
                    &&& forall|r: int|
                        0 <= r < bands@.len() ==> #[trigger] window_sum(
                            x@,
                            band_bits(bands@[r]@, band_width as int),
                            start_pos@[r] as int,
                            band_width as int,
                        ) == y@[r]
                    &&& forall|c: Seq<bool>, i: int|
                        !#[trigger] cancelling_rows(band_rows(bands@, band_width as int), start_pos@, c, i)
                    &&& exists|p: Seq<int>, cs: Seq<Seq<bool>>|
                        #[trigger] elimination_pivots(band_rows(bands@, band_width as int), start_pos@, p, cs)
                            && pivot_columns(p, start_pos@, band_width as int) && zero_off(x@, p)
                },
                Err(OkvsError::ZeroRow(i)) => {
                    &&& i < bands@.len()
                    &&& exists|c: Seq<bool>| #[trigger] cancelling_rows(band_rows(bands@, band_width as int), start_pos@, c, i as int)
                    &&& forall|c: Seq<bool>, i0: int|
                        0 <= i0 < i ==> !#[trigger] cancelling_rows(band_rows(bands@, band_width as int), start_pos@, c, i0)
                },
            },
    {
        let rows = bands.len();
        let w = band_width;
        let m = self.columns;
        let ghost orig_y = y@;
        let ghost orig_rows = band_rows(bands@, w as int);
        let mut y = y;
        let mut bands_bool: Vec<Vec<bool>> = Vec::new();
        let mut i: usize = 0;
        while i < rows
            invariant
                i <= rows,
                rows == bands@.len(),
                w <= 256,
                bands_bool@.len() == i,
                forall|r: int| 0 <= r < i ==> #[trigger] bands_bool@[r]@ == band_bits(bands@[r]@, w as int),
            decreases rows - i,
        {
            bands_bool.push(band_row(&bands[i], w));
            i += 1;
        }
        assert(rows_view(bands_bool@) =~= orig_rows);
        let ghost mut coeff: Seq<Seq<bool>> = Seq::new(rows as nat, |r: int| unit_choice(rows as nat, r));
        let ghost mut inv: Seq<Seq<bool>> = Seq::new(rows as nat, |k: int| unit_choice(rows as nat, k));
        proof {
            assert forall|k: int, col: int| 0 <= k < rows implies #[trigger] row_bit(
                orig_rows[k],
                start_pos@[k] as int,
                col,
            ) == column_parity(rows_view(bands_bool@), start_pos@, inv[k], col, rows as int) by {
                lemma_parity_unit(rows_view(bands_bool@), start_pos@, k, col, rows as int);
            }
            assert forall|r: int, col: int| 0 <= r < rows implies #[trigger] row_bit(
                bands_bool@[r]@,
                start_pos@[r] as int,
                col,
            ) == column_parity(orig_rows, start_pos@, coeff[r], col, rows as int) by {
                lemma_parity_unit(orig_rows, start_pos@, r, col, rows as int);
                assert(orig_rows[r] == bands_bool@[r]@);
            }
        }
        let mut pivot: Vec<usize> = Vec::new();
        let mut first_nonzero: Vec<usize> = Vec::new();
        let mut i: usize = 0;
        while i < rows
            invariant
                rows == bands@.len(),
                rows == bands_bool@.len(),
                rows == y@.len(),
                rows == start_pos@.len(),
                m == self.columns,
                orig_rows.len() == rows,
                orig_y.len() == rows,
                forall|r: int| 0 <= r < rows ==> #[trigger] bands_bool@[r]@.len() == w,
                starts_sorted(start_pos@),
                forall|r: int| 0 <= r < rows ==> #[trigger] start_pos@[r] + w <= m,
                i <= rows,
                pivot@.len() == i,
                first_nonzero@.len() == i,
                forall|r: int|
                    0 <= r < i ==> #[trigger] echelon_row(
                        rows_view(bands_bool@),
                        start_pos@,
                        first_nonzero@,
                        pivot@,
                        w as int,
                        r,
                    ),
                forall|r: int, r2: int|
                    0 <= r < i && r < r2 < rows ==> !#[trigger] row_bit(
                        bands_bool@[r2]@,
                        start_pos@[r2] as int,
                        #[trigger] pivot@[r] as int,
                    ),
                forall|x: Seq<u128>|
                    x.len() == m && #[trigger] system_holds(rows_view(bands_bool@), start_pos@, y@, x)
                        ==> system_holds(orig_rows, start_pos@, orig_y, x),
                coeff.len() == rows,
                orig_rows == band_rows(bands@, band_width as int),
                forall|r: int| 0 <= r < rows ==> #[trigger] coeff[r].len() == rows,
                forall|r: int| 0 <= r < rows ==> #[trigger] coeff[r][r],
                forall|r: int, k: int| 0 <= r < rows && r < k < rows ==> !#[trigger] coeff[r][k],
                forall|r: int, col: int|
                    0 <= r < rows ==> #[trigger] row_bit(bands_bool@[r]@, start_pos@[r] as int, col)
                        == column_parity(orig_rows, start_pos@, coeff[r], col, rows as int),
                inv.len() == rows,
                forall|k: int| 0 <= k < rows ==> #[trigger] inv[k].len() == rows,
                forall|k: int| 0 <= k < rows ==> #[trigger] inv[k][k],
                forall|k: int, r: int| 0 <= k < rows && k < r < rows ==> !#[trigger] inv[k][r],
                forall|k: int, col: int|
                    0 <= k < rows ==> #[trigger] row_bit(orig_rows[k], start_pos@[k] as int, col)
                        == column_parity(rows_view(bands_bool@), start_pos@, inv[k], col, rows as int),
            decreases rows - i,
        {
            let y_i = y[i];
            let mut f: usize = 0;
            while f < w && !bands_bool[i][f]
                invariant
                    f <= w,
                    i < rows,
                    rows == bands_bool@.len(),
                    bands_bool@[i as int]@.len() == w,
                    forall|t: int| 0 <= t < f ==> !#[trigger] bands_bool@[i as int]@[t],
                decreases w - f,
            {
                f += 1;
            }
            let ghost fnz0 = first_nonzero@;
            let ghost piv0 = pivot@;
            first_nonzero.push(f);
            if f == w {
                proof {
                    let s0 = start_pos@[i as int] as int;
                    assert forall|col: int| !#[trigger] column_parity(orig_rows, start_pos@, coeff[i as int], col, rows as int) by {
                        assert(!row_bit(bands_bool@[i as int]@, s0, col)) by {
                            if s0 <= col < s0 + w {
                                assert(!bands_bool@[i as int]@[col - s0]);
                            }
                        }
                    }
                    assert(cancelling_rows(orig_rows, start_pos@, coeff[i as int], i as int));
                    assert(cancelling_rows(band_rows(bands@, band_width as int), start_pos@, coeff[i as int], i as int));
                    lemma_no_cancel_before(
                        orig_rows,
                        rows_view(bands_bool@),
                        start_pos@,
                        fnz0,
                        pivot@,
                        w as int,
                        inv,
                        rows as nat,
                        i as int,
                    );
                }
                return Err(OkvsError::ZeroRow(i));
            }
            let p = f + start_pos[i];
            pivot.push(p);
            let row_i = copy_row(&bands_bool[i]);
            proof {
                assert forall|r: int| 0 <= r <= i implies #[trigger] echelon_row(
                    rows_view(bands_bool@),
                    start_pos@,
                    first_nonzero@,
                    pivot@,
                    w as int,
                    r,
                ) by {
                    if r < i {
                        assert(echelon_row(
                            rows_view(bands_bool@),
                            start_pos@,
                            fnz0,
                            piv0,
                            w as int,
                            r,
                        ));
                        assert(fnz0[r] == first_nonzero@[r]);
                        assert(piv0[r] == pivot@[r]);
                    }
                }
            }
            let mut j: usize = i + 1;
            while j < rows && start_pos[j] <= p
                invariant
                    rows == bands_bool@.len(),
                    rows == y@.len(),
                    rows == start_pos@.len(),
                    m == self.columns,
                    orig_rows.len() == rows,
                    orig_y.len() == rows,
                    forall|r: int| 0 <= r < rows ==> #[trigger] bands_bool@[r]@.len() == w,
                    starts_sorted(start_pos@),
                    forall|r: int| 0 <= r < rows ==> #[trigger] start_pos@[r] + w <= m,
                    i < rows,
                    i + 1 <= j <= rows,
                    f < w,
                    p == start_pos@[i as int] + f,
                    y@[i as int] == y_i,
                    row_i@ == bands_bool@[i as int]@,
                    pivot@.len() == i + 1,
                    first_nonzero@.len() == i + 1,
                    pivot@[i as int] == p,
                    first_nonzero@[i as int] == f,
                    forall|r: int|
                        0 <= r <= i ==> #[trigger] echelon_row(
                            rows_view(bands_bool@),
                            start_pos@,
                            first_nonzero@,
                            pivot@,
                            w as int,
                            r,
                        ),
                    forall|r: int, r2: int|
                        0 <= r < i && r < r2 < rows ==> !#[trigger] row_bit(
                            bands_bool@[r2]@,
                            start_pos@[r2] as int,
                            #[trigger] pivot@[r] as int,
                        ),
                    forall|r2: int|
                        i < r2 < j ==> !#[trigger] row_bit(
                            bands_bool@[r2]@,
                            start_pos@[r2] as int,
                            p as int,
                        ),
                    forall|x: Seq<u128>|
                        x.len() == m && #[trigger] system_holds(rows_view(bands_bool@), start_pos@, y@, x)
                            ==> system_holds(orig_rows, start_pos@, orig_y, x),
                    coeff.len() == rows,
                    forall|r: int| 0 <= r < rows ==> #[trigger] coeff[r].len() == rows,
                    forall|r: int| 0 <= r < rows ==> #[trigger] coeff[r][r],
                    forall|r: int, k: int| 0 <= r < rows && r < k < rows ==> !#[trigger] coeff[r][k],
                    forall|r: int, col: int|
                        0 <= r < rows ==> #[trigger] row_bit(bands_bool@[r]@, start_pos@[r] as int, col)
                            == column_parity(orig_rows, start_pos@, coeff[r], col, rows as int),
                    inv.len() == rows,
                    forall|k: int| 0 <= k < rows ==> #[trigger] inv[k].len() == rows,
                    forall|k: int| 0 <= k < rows ==> #[trigger] inv[k][k],
                    forall|k: int, r: int| 0 <= k < rows && k < r < rows ==> !#[trigger] inv[k][r],
                    forall|k: int, col: int|
                        0 <= k < rows ==> #[trigger] row_bit(orig_rows[k], start_pos@[k] as int, col)
                            == column_parity(rows_view(bands_bool@), start_pos@, inv[k], col, rows as int),
                decreases rows - j,
            {
                let offset = p - start_pos[j];
                proof {
                    assert(start_pos@[i as int] <= start_pos@[j as int]);
                    assert(echelon_row(rows_view(bands_bool@), start_pos@, first_nonzero@, pivot@, w as int, i as int));
                }
                if bands_bool[j][offset] {
                    let ghost old_rows = rows_view(bands_bool@);
                    let ghost old_y = y@;
                    let ghost oj = bands_bool@[j as int]@;
                    let ghost old_coeff = coeff;
                    let ghost old_inv = inv;
                    proof {
                        assert forall|col: int| #[trigger] row_bit(oj, start_pos@[j as int] as int, col)
                            == column_parity(orig_rows, start_pos@, old_coeff[j as int], col, rows as int) by {
                            assert(row_bit(bands_bool@[j as int]@, start_pos@[j as int] as int, col)
                                == column_parity(orig_rows, start_pos@, coeff[j as int], col, rows as int));
                        }
                        assert forall|col: int| #[trigger] row_bit(row_i@, start_pos@[i as int] as int, col)
                            == column_parity(orig_rows, start_pos@, old_coeff[i as int], col, rows as int) by {
                            assert(row_bit(bands_bool@[i as int]@, start_pos@[i as int] as int, col)
                                == column_parity(orig_rows, start_pos@, coeff[i as int], col, rows as int));
                        }
                    }
                    let mut row_j = copy_row(&bands_bool[j]);
                    let mut k: usize = 0;
                    while k < w - f
                        invariant
                            row_j@.len() == w,
                            row_i@.len() == w,
                            oj.len() == w,
                            f < w,
                            offset + (w - f) <= w,
                            k <= w - f,
                            forall|t: int|
                                0 <= t < w ==> #[trigger] row_j@[t] == (oj[t] != (offset <= t < offset + k
                                    && row_i@[t - offset + f])),
                        decreases w - f - k,
                    {
                        let v = row_j[k + offset] != row_i[k + f];
                        row_j[k + offset] = v;
                        k += 1;
                    }
                    proof {
                        let si = start_pos@[i as int] as int;
                        let sj = start_pos@[j as int] as int;
                        assert forall|t: int| 0 <= t < w implies #[trigger] row_j@[t] == (oj[t] != (si + f - sj <= t
                            < si + w - sj && row_i@[t + sj - si])) by {
                            assert(row_j@[t] == (oj[t] != (offset <= t < offset + (w - f) && row_i@[t - offset + f])));
                        }
                        assert(echelon_row(old_rows, start_pos@, first_nonzero@, pivot@, w as int, i as int));
                        assert forall|t: int| 0 <= t < f implies !#[trigger] row_i@[t] by {
                            assert(!old_rows[i as int][t]);
                        }
                        lemma_row_op_bits(oj, row_j@, row_i@, sj, si, f as int, w as int);
                    }
                    bands_bool[j] = row_j;
                    y[j] = y[j] ^ y_i;
                    proof {
                        coeff = coeff.update(j as int, xor_choice(old_coeff[j as int], old_coeff[i as int]));
                        inv = Seq::new(
                            rows as nat,
                            |k: int| xor_choice(
                                old_inv[k],
                                if old_inv[k][j as int] { unit_choice(rows as nat, i as int) } else { no_choice(rows as nat) },
                            ),
                        );
                        let new_rows = rows_view(bands_bool@);
                        assert forall|r: int| 0 <= r < old_rows.len() && r != j implies #[trigger] new_rows[r] == old_rows[r] by {}
                        assert forall|k: int, col: int| 0 <= k < rows implies #[trigger] row_bit(
                            orig_rows[k],
                            start_pos@[k] as int,
                            col,
                        ) == column_parity(new_rows, start_pos@, inv[k], col, rows as int) by {
                            let extra = if old_inv[k][j as int] { unit_choice(rows as nat, i as int) } else { no_choice(rows as nat) };
                            assert(row_bit(old_rows[j as int], start_pos@[j as int] as int, col) == (row_bit(
                                new_rows[j as int],
                                start_pos@[j as int] as int,
                                col,
                            ) != row_bit(new_rows[i as int], start_pos@[i as int] as int, col)));
                            lemma_parity_row_op(old_rows, new_rows, start_pos@, old_inv[k], i as int, j as int, col, rows as int);
                            lemma_parity_xor(new_rows, start_pos@, old_inv[k], extra, col, rows as int);
                            if old_inv[k][j as int] {
                                lemma_parity_unit(new_rows, start_pos@, i as int, col, rows as int);
                            } else {
                                lemma_parity_none(new_rows, start_pos@, extra, col, rows as int);
                            }
                        }
                        assert forall|k: int, r: int| 0 <= k < rows && k < r < rows implies !#[trigger] inv[k][r] by {
                            assert(!old_inv[k][r]);
                            if r == i {
                                assert(!old_inv[k][j as int]);
                            }
                        }
                        assert forall|k: int| 0 <= k < rows implies #[trigger] inv[k][k] by {
                            assert(old_inv[k][k]);
                            if k == i {
                                assert(!old_inv[i as int][j as int]);
                            }
                        }
                        assert forall|r: int, col: int| 0 <= r < rows implies #[trigger] row_bit(
                            bands_bool@[r]@,
                            start_pos@[r] as int,
                            col,
                        ) == column_parity(orig_rows, start_pos@, coeff[r], col, rows as int) by {
                            if r == j {
                                lemma_parity_xor(orig_rows, start_pos@, old_coeff[j as int], old_coeff[i as int], col, rows as int);
                                assert(row_bit(oj, start_pos@[j as int] as int, col)
                                    == column_parity(orig_rows, start_pos@, old_coeff[j as int], col, rows as int));
                                assert(row_bit(row_i@, start_pos@[i as int] as int, col)
                                    == column_parity(orig_rows, start_pos@, old_coeff[i as int], col, rows as int));
                            } else {
                                assert(bands_bool@[r]@ == old_rows[r]);
                                assert(row_bit(old_rows[r], start_pos@[r] as int, col)
                                    == column_parity(orig_rows, start_pos@, old_coeff[r], col, rows as int));
                            }
                        }
                        assert(!old_coeff[i as int][j as int]);
                        assert forall|r: int, k: int| 0 <= r < rows && r < k < rows implies !#[trigger] coeff[r][k] by {
                            if r == j {
                                assert(!old_coeff[j as int][k]);
                                assert(!old_coeff[i as int][k]);
                            } else {
                                assert(!old_coeff[r][k]);
                            }
                        }
                        let new_rows = rows_view(bands_bool@);
                        assert(new_rows =~= old_rows.update(j as int, new_rows[j as int]));
                        assert(old_rows[i as int] == row_i@);
                        assert forall|x: Seq<u128>|
                            x.len() == m && #[trigger] system_holds(new_rows, start_pos@, y@, x)
                                implies system_holds(orig_rows, start_pos@, orig_y, x) by {
                            lemma_row_op_solutions(old_rows, new_rows, start_pos@, old_y, y@, i as int, j as int, x);
                        }
                        assert forall|r: int|
                            0 <= r <= i implies #[trigger] echelon_row(
                                rows_view(bands_bool@),
                                start_pos@,
                                first_nonzero@,
                                pivot@,
                                w as int,
                                r,
                            ) by {
                            assert(echelon_row(old_rows, start_pos@, first_nonzero@, pivot@, w as int, r));
                            assert(new_rows[r] == old_rows[r]);
                        }
                        assert forall|r: int, r2: int|
                            0 <= r < i && r < r2 < rows implies !#[trigger] row_bit(
                                bands_bool@[r2]@,
                                start_pos@[r2] as int,
                                #[trigger] pivot@[r] as int,
                            ) by {
                            assert(!row_bit(old_rows[r2], start_pos@[r2] as int, pivot@[r] as int));
                            if r2 == j {
                                assert(!row_bit(old_rows[i as int], start_pos@[i as int] as int, pivot@[r] as int));
                            }
                        }
                        assert(row_bit(oj, start_pos@[j as int] as int, p as int));
                        assert(row_bit(row_i@, start_pos@[i as int] as int, p as int));
                        assert forall|r2: int|
                            i < r2 < j + 1 implies !#[trigger] row_bit(
                                bands_bool@[r2]@,
                                start_pos@[r2] as int,
                                p as int,
                            ) by {
                            if r2 < j {
                                assert(!row_bit(old_rows[r2], start_pos@[r2] as int, p as int));
                            }
                        }
                    }
                } else {
                    proof {
                        assert(!row_bit(bands_bool@[j as int]@, start_pos@[j as int] as int, p as int));
                    }
                }
                j += 1;
            }
            proof {
                assert forall|r2: int|
                    i < r2 < rows implies !#[trigger] row_bit(
                        bands_bool@[r2]@,
                        start_pos@[r2] as int,
                        p as int,
                    ) by {
                    if r2 >= j {
                        assert(start_pos@[j as int] <= start_pos@[r2]);
                    }
                }
                assert forall|r: int, r2: int|
                    0 <= r < i + 1 && r < r2 < rows implies !#[trigger] row_bit(
                        bands_bool@[r2]@,
                        start_pos@[r2] as int,
                        #[trigger] pivot@[r] as int,
                    ) by {
                    if r == i {
                        assert(!row_bit(bands_bool@[r2]@, start_pos@[r2] as int, p as int));
                    }
                }
            }
            i += 1;
        }
        proof {
            let cur = rows_view(bands_bool@);
            lemma_no_cancel_before(
                orig_rows,
                cur,
                start_pos@,
                first_nonzero@,
                pivot@,
                w as int,
                inv,
                rows as nat,
                rows as int,
            );
            assert(orig_rows == band_rows(bands@, band_width as int));
        }
        let mut x: Vec<u128> = Vec::new();
        let mut c: usize = 0;
        while c < m
            invariant
                c <= m,
                x@.len() == c,
                forall|k: int| 0 <= k < c ==> #[trigger] x@[k] == 0,
            decreases m - c,
        {
            x.push(0);
            c += 1;
        }
        let ghost pv = Seq::new(rows as nat, |r: int| pivot@[r] as int);
        proof {
            assert forall|r: int| 0 <= r < rows implies #[trigger] x@[pivot@[r] as int] == 0 by {
                assert(echelon_row(rows_view(bands_bool@), start_pos@, first_nonzero@, pivot@, w as int, r));
            }
            assert forall|r: int| 0 <= r < pv.len() implies start_pos@[r] <= #[trigger] pv[r] < start_pos@[r] + w by {
                assert(echelon_row(rows_view(bands_bool@), start_pos@, first_nonzero@, pivot@, w as int, r));
            }
            assert forall|r1: int, r2: int| 0 <= r1 < r2 < pv.len() implies #[trigger] pv[r1] != #[trigger] pv[r2] by {
                assert(echelon_row(rows_view(bands_bool@), start_pos@, first_nonzero@, pivot@, w as int, r2));
                assert(!row_bit(bands_bool@[r2]@, start_pos@[r2] as int, pivot@[r1] as int));
                assert(row_bit(bands_bool@[r2]@, start_pos@[r2] as int, pivot@[r2] as int));
            }
            assert(pivot_columns(pv, start_pos@, w as int));
            assert(zero_off(x@, pv));
            let cur = rows_view(bands_bool@);
            let n = rows as int;
            assert forall|r: int| 0 <= r < n implies #[trigger] column_parity(orig_rows, start_pos@, coeff[r], pv[r], n) by {
                assert(echelon_row(cur, start_pos@, first_nonzero@, pivot@, w as int, r));
                assert(row_bit(bands_bool@[r]@, start_pos@[r] as int, pv[r]));
            }
            assert forall|r: int, col: int|
                0 <= r < n && col < pv[r] implies !#[trigger] column_parity(orig_rows, start_pos@, coeff[r], col, n) by {
                assert(echelon_row(cur, start_pos@, first_nonzero@, pivot@, w as int, r));
                let sr = start_pos@[r] as int;
                if sr <= col {
                    assert(!cur[r][col - sr]);
                }
                assert(!row_bit(bands_bool@[r]@, sr, col));
            }
            assert forall|r: int, k: int|
                0 <= k < r < n implies !#[trigger] column_parity(orig_rows, start_pos@, coeff[r], #[trigger] pv[k], n) by {
                assert(!row_bit(bands_bool@[r]@, start_pos@[r] as int, pivot@[k] as int));
            }
            assert(elimination_pivots(orig_rows, start_pos@, pv, coeff));
        }
        let mut i: usize = rows;
        while i > 0
            invariant
                rows == bands_bool@.len(),
                rows == y@.len(),
                rows == start_pos@.len(),
                m == self.columns,
                x@.len() == m,
                i <= rows,
                orig_rows.len() == rows,
                orig_y.len() == rows,
                pivot@.len() == rows,
                first_nonzero@.len() == rows,
                forall|r: int| 0 <= r < rows ==> #[trigger] bands_bool@[r]@.len() == w,
                forall|r: int| 0 <= r < rows ==> #[trigger] start_pos@[r] + w <= m,
                forall|r: int|
                    0 <= r < rows ==> #[trigger] echelon_row(
                        rows_view(bands_bool@),
                        start_pos@,
                        first_nonzero@,
                        pivot@,
                        w as int,
                        r,
                    ),
                forall|r: int, r2: int|
                    0 <= r < rows && r < r2 < rows ==> !#[trigger] row_bit(
                        bands_bool@[r2]@,
                        start_pos@[r2] as int,
                        #[trigger] pivot@[r] as int,
                    ),
                forall|r: int| i <= r < rows ==> #[trigger] row_holds(rows_view(bands_bool@), start_pos@, y@, x@, r),
                forall|r: int| 0 <= r < i ==> #[trigger] x@[pivot@[r] as int] == 0,
                pv == Seq::new(rows as nat, |r: int| pivot@[r] as int),
                zero_off(x@, pv),
                forall|x: Seq<u128>|
                    x.len() == m && #[trigger] system_holds(rows_view(bands_bool@), start_pos@, y@, x)
                        ==> system_holds(orig_rows, start_pos@, orig_y, x),
            decreases i,
        {
            i -= 1;
            let s = start_pos[i];
            let sw = sum_window(&x, &bands_bool[i], s);
            let res = y[i] ^ sw;
            let pi = pivot[i];
            let ghost x0 = x@;
            proof {
                let rows_v = rows_view(bands_bool@);
                let bits = bands_bool@[i as int]@;
                assert(echelon_row(rows_v, start_pos@, first_nonzero@, pivot@, w as int, i as int));
                assert(rows_v[i as int] == bits);
                assert(row_bit(bits, s as int, pi as int));
                lemma_row_sum_window(x0, bits, s as int, 0, m as int);
                lemma_row_sum_update_set(x0, bits, s as int, 0, m as int, pi as int, res);
                lemma_xor_cancel(sw, y@[i as int]);
                lemma_xor_cancel(res, 0u128);
            }
            x[pi] = res;
            proof {
                assert forall|col: int| 0 <= col < x@.len() && x@[col] != 0u128 implies exists|r: int|
                    0 <= r < pv.len() && #[trigger] pv[r] == col by {
                    if col == pi as int {
                        assert(pv[i as int] == col);
                    } else {
                        assert(x0[col] == x@[col]);
                    }
                }
                let rows_v = rows_view(bands_bool@);
                assert forall|r: int| i <= r < rows implies #[trigger] row_holds(rows_v, start_pos@, y@, x@, r) by {
                    if r > i {
                        assert(!row_bit(bands_bool@[r]@, start_pos@[r] as int, pivot@[i as int] as int));
                        assert(row_holds(rows_v, start_pos@, y@, x0, r));
                        lemma_row_sum_update_unset(x0, rows_v[r], start_pos@[r] as int, 0, m as int, pi as int, res);
                    }
                }
                assert forall|r: int| 0 <= r < i implies #[trigger] x@[pivot@[r] as int] == 0 by {
                    assert(echelon_row(rows_v, start_pos@, first_nonzero@, pivot@, w as int, r));
                    assert(!row_bit(bands_bool@[i as int]@, start_pos@[i as int] as int, pivot@[r] as int));
                    assert(x0[pivot@[r] as int] == 0);
                }
            }
        }
        proof {
            assert(system_holds(rows_view(bands_bool@), start_pos@, y@, x@));
            assert forall|r: int| 0 <= r < rows implies #[trigger] window_sum(
                x@,
                band_bits(bands@[r]@, w as int),
                start_pos@[r] as int,
                w as int,
            ) == orig_y[r] by {
                assert(row_holds(orig_rows, start_pos@, orig_y, x@, r));
                lemma_row_sum_window(x@, orig_rows[r], start_pos@[r] as int, 0, m as int);
            }
        }
        Ok(x)
    }
}

impl RbOkvsF2k {
    /// Row `r` of `(bands, starts, ys)` is the row of the pair `kv`: its band, its start
    /// column and its value.
    pub closed spec fn is_row_of(
        &self,
        bands: Seq<[u8; 32]>,
        starts: Seq<usize>,
        ys: Seq<u128>,
        r: int,
        kv: (u128, u128),
    ) -> bool {
        &&& bands[r]@ == band_of(kv.0, self.band_seed())
        &&& starts[r] == index_of(kv.0, self.index_seed(), self.start_range())
        &&& ys[r] == kv.1
    }

    /// Some row of `(bands, starts, ys)` is the row of the pair `kv`.
    pub closed spec fn has_row(&self, bands: Seq<[u8; 32]>, starts: Seq<usize>, ys: Seq<u128>, kv: (u128, u128)) -> bool {
        exists|r: int| 0 <= r < bands.len() && #[trigger] self.is_row_of(bands, starts, ys, r, kv)
    }

    /// Each key's position in the input, with its start column.
    pub closed spec fn key_starts(&self, input: Seq<(u128, u128)>) -> Seq<(usize, usize)> {
        Seq::new(
            input.len(),
            |k: int| (k as usize, index_of(input[k].0, self.index_seed(), self.start_range()) as usize),
        )
    }

    /// The keys in order of start column, ties in input order: (position, start column).
    pub closed spec fn sorted_order(&self, input: Seq<(u128, u128)>) -> Seq<(usize, usize)> {
        choose|s: Seq<(usize, usize)>| is_stable_sort(self.key_starts(input), s)
    }

    /// The rows of the keys' bands, in order of start column.
    pub closed spec fn sorted_rows(&self, input: Seq<(u128, u128)>) -> Seq<Seq<bool>> {
        let order = self.sorted_order(input);
        Seq::new(
            order.len(),
            |r: int| band_bits(band_of(input[order[r].0 as int].0, self.band_seed()), self.spec_band_width()),
        )
    }

    /// The start columns of the keys' rows, in order of start column.
    pub closed spec fn sorted_starts(&self, input: Seq<(u128, u128)>) -> Seq<usize> {
        let order = self.sorted_order(input);
        Seq::new(order.len(), |r: int| order[r].1)
    }

    /// The rows of all pairs (band, start column, value), in order of start column.
    fn create_sorted_matrix(&self, input: &Vec<(u128, u128)>) -> (res: (
        Vec<[u8; 32]>,
        Vec<usize>,
        Vec<u128>,
    ))
        requires
            self.well_formed(),
        ensures
            res.0@.len() == input@.len(),
            res.1@.len() == input@.len(),
            res.2@.len() == input@.len(),
            starts_sorted(res.1@),
            forall|r: int| 0 <= r < input@.len() ==> #[trigger] res.1@[r] < self.start_range(),
            forall|i: int| 0 <= i < input@.len() ==> #[trigger] self.has_row(res.0@, res.1@, res.2@, input@[i]),
            band_rows(res.0@, self.spec_band_width()) == self.sorted_rows(input@),
            res.1@ == self.sorted_starts(input@),
            self.sorted_order(input@).len() == input@.len(),
            forall|r: int|
                0 <= r < input@.len() ==> 0 <= #[trigger] self.sorted_order(input@)[r].0 < input@.len()
                    && res.0@[r]@ == band_of(input@[self.sorted_order(input@)[r].0 as int].0, self.band_seed())
                    && res.2@[r] == input@[self.sorted_order(input@)[r].0 as int].1,
    {
        let n = input.len();
        let m = self.columns - self.band_width;
        let mut start_pos: Vec<(usize, usize)> = Vec::new();
        let mut i: usize = 0;
        while i < n
            invariant
                n == input@.len(),
                m == self.start_range(),
                m > 0,
                i <= n,
                start_pos@.len() == i,
                forall|k: int|
                    0 <= k < i ==> #[trigger] start_pos@[k] == (k as usize, index_of(
                        input@[k].0,
                        self.index_seed(),
                        m as int,
                    ) as usize),
                forall|k: int| 0 <= k < i ==> #[trigger] start_pos@[k].1 < m,
            decreases n - i,
        {
            let idx = hash_to_index(input[i].0, &self.r1, m);
            start_pos.push((i, idx));
            i += 1;
        }
        let ghost sp0 = start_pos@;
        proof {
            assert forall|q: nat| pow10(q) <= m - 1 implies #[trigger] pow10(q) * 10 <= usize::MAX by {
            }
        }
        radix_sort(&mut start_pos, m - 1);
        proof {
            assert(sp0 =~= self.key_starts(input@));
            assert(is_stable_sort(sp0, start_pos@));
            let chosen = self.sorted_order(input@);
            assert(is_stable_sort(self.key_starts(input@), chosen));
            lemma_sorted_unique(start_pos@, chosen);
        }
        proof {
            assert forall|r: int| 0 <= r < n implies #[trigger] start_pos@[r].0 < n && start_pos@[r].1
                == index_of(input@[start_pos@[r].0 as int].0, self.index_seed(), m as int)
                && start_pos@[r].1 < m by {
                lemma_stable_sort_elements(sp0, start_pos@, r);
                let k = choose|k: int| 0 <= k < sp0.len() && sp0[k] == start_pos@[r];
                assert(sp0[k] == (k as usize, index_of(input@[k].0, self.index_seed(), m as int) as usize));
            }
        }
        let mut matrix: Vec<[u8; 32]> = Vec::new();
        let mut start_ids: Vec<usize> = Vec::new();
        let mut y: Vec<u128> = Vec::new();
        let mut r: usize = 0;
        while r < n
            invariant
                n == input@.len(),
                m == self.start_range(),
                start_pos@.len() == n,
                r <= n,
                matrix@.len() == r,
                start_ids@.len() == r,
                y@.len() == r,
                forall|k: int| 0 <= k < n ==> #[trigger] start_pos@[k].0 < n && start_pos@[k].1
                    == index_of(input@[start_pos@[k].0 as int].0, self.index_seed(), m as int)
                    && start_pos@[k].1 < m,
                forall|k: int|
                    0 <= k < r ==> #[trigger] self.is_row_of(
                        matrix@,
                        start_ids@,
                        y@,
                        k,
                        input@[start_pos@[k].0 as int],
                    ),
                forall|k: int| 0 <= k < r ==> #[trigger] start_ids@[k] == start_pos@[k].1,
            decreases n - r,
        {
            let a = start_pos[r].0;
            let b = start_pos[r].1;
            let band = hash_to_band(input[a].0, &self.r2);
            let ghost mat0 = matrix@;
            let ghost ids0 = start_ids@;
            let ghost y0 = y@;
            matrix.push(band);
            start_ids.push(b);
            y.push(input[a].1);
            proof {
                assert forall|k: int| 0 <= k < r + 1 implies #[trigger] self.is_row_of(
                    matrix@,
                    start_ids@,
                    y@,
                    k,
                    input@[start_pos@[k].0 as int],
                ) by {
                    if k < r {
                        assert(self.is_row_of(mat0, ids0, y0, k, input@[start_pos@[k].0 as int]));
                        assert(mat0[k] == matrix@[k]);
                        assert(ids0[k] == start_ids@[k]);
                        assert(y0[k] == y@[k]);
                    }
                }
            }
            r += 1;
        }
        proof {
            assert(starts_sorted(start_ids@)) by {
                assert forall|a: int, b: int| 0 <= a < b < start_ids@.len() implies #[trigger] start_ids@[a]
                    <= #[trigger] start_ids@[b] by {
                    assert(start_pos@[a].1 <= start_pos@[b].1);
                }
            }
            assert forall|k: int| 0 <= k < n implies #[trigger] start_ids@[k] < self.start_range() by {
                assert(start_ids@[k] == start_pos@[k].1);
                assert(start_pos@[k].0 < n);
            }
            let order = self.sorted_order(input@);
            assert(start_pos@ == order);
            assert forall|k: int| 0 <= k < n implies #[trigger] band_rows(matrix@, self.spec_band_width())[k]
                == self.sorted_rows(input@)[k] by {
                assert(self.is_row_of(matrix@, start_ids@, y@, k, input@[start_pos@[k].0 as int]));
            }
            assert(band_rows(matrix@, self.spec_band_width()) =~= self.sorted_rows(input@));
            assert(start_ids@ =~= self.sorted_starts(input@));
            assert forall|r: int| 0 <= r < n implies 0 <= #[trigger] self.sorted_order(input@)[r].0 < input@.len()
                && matrix@[r]@ == band_of(input@[self.sorted_order(input@)[r].0 as int].0, self.band_seed())
                && y@[r] == input@[self.sorted_order(input@)[r].0 as int].1 by {
                assert(self.is_row_of(matrix@, start_ids@, y@, r, input@[start_pos@[r].0 as int]));
            }
            assert forall|i: int| 0 <= i < n implies #[trigger] self.has_row(matrix@, start_ids@, y@, input@[i]) by {
                assert(sp0[i] == (i as usize, index_of(input@[i].0, self.index_seed(), m as int) as usize));
                assert(sp0.contains(sp0[i]));
                lemma_stable_sort_keeps(sp0, start_pos@, sp0[i]);
                let r = choose|r: int| 0 <= r < start_pos@.len() && start_pos@[r] == sp0[i];
                assert(self.is_row_of(matrix@, start_ids@, y@, r, input@[start_pos@[r].0 as int]));
                assert(start_pos@[r].0 as int == i);
                assert(self.is_row_of(matrix@, start_ids@, y@, r, input@[i]));
            }
        }
        (matrix, start_ids, y)
    }

    /// An encoding of the key-value pairs: on success, decoding any of the keys gives its value.
    /// Fails exactly on keys whose rows are linearly dependent: with the rows in order of start
    /// column, the row at the error's position is the XOR of some rows before it.
    pub fn encode(&self, input: &Vec<(u128, u128)>) -> (res: Result<Vec<u128>, OkvsError>)
        requires
            self.well_formed(),
        ensures
            match res {
                Ok(x) => {
                    &&& x@.len() == self.spec_columns()
                    &&& forall|i: int|
                        0 <= i < input@.len() ==> #[trigger] self.value_at(x@, input@[i].0) == input@[i].1
                    &&& forall|c: Seq<bool>, i: int|
                        !#[trigger] cancelling_rows(self.sorted_rows(input@), self.sorted_starts(input@), c, i)
                    &&& self.sorted_order(input@).len() == input@.len()
                    &&& forall|r: int|
                        0 <= r < input@.len() ==> #[trigger] self.sorted_starts(input@)[r] + self.spec_band_width()
                            <= self.spec_columns()
                    &&& forall|r: int|
                        0 <= r < input@.len() ==> #[trigger] window_sum(
                            x@,
                            self.sorted_rows(input@)[r],
                            self.sorted_starts(input@)[r] as int,
                            self.spec_band_width(),
                        ) == input@[self.sorted_order(input@)[r].0 as int].1
                    &&& exists|p: Seq<int>, cs: Seq<Seq<bool>>|
                        #[trigger] elimination_pivots(self.sorted_rows(input@), self.sorted_starts(input@), p, cs)
                            && pivot_columns(p, self.sorted_starts(input@), self.spec_band_width()) && zero_off(x@, p)
                },
                Err(OkvsError::ZeroRow(i)) => {
                    &&& i < input@.len()
                    &&& exists|c: Seq<bool>| #[trigger] cancelling_rows(
                        self.sorted_rows(input@),
                        self.sorted_starts(input@),
                        c,
                        i as int,
                    )
                    &&& forall|c: Seq<bool>, i0: int|
                        0 <= i0 < i ==> !#[trigger] cancelling_rows(
                            self.sorted_rows(input@),
                            self.sorted_starts(input@),
                            c,
                            i0,
                        )
                },
            },
    {
        let (matrix, start_pos, y) = self.create_sorted_matrix(input);
        let ghost bands = matrix@;
        let ghost starts = start_pos@;
        let ghost ys = y@;
        proof {
            assert forall|r: int| 0 <= r < starts.len() implies #[trigger] starts[r] + self.band_width
                <= self.columns by {
                assert(starts[r] < self.start_range());
            }
        }
        let res = self.simple_gauss(y, matrix, start_pos, self.band_width);
        proof {
            if let Ok(x) = &res {
                assert forall|r: int| 0 <= r < input@.len() implies #[trigger] self.sorted_starts(input@)[r]
                    + self.spec_band_width() <= self.spec_columns() by {
                    assert(starts[r] + self.band_width <= self.columns);
                }
                assert forall|r: int| 0 <= r < input@.len() implies #[trigger] window_sum(
                    x@,
                    self.sorted_rows(input@)[r],
                    self.sorted_starts(input@)[r] as int,
                    self.spec_band_width(),
                ) == input@[self.sorted_order(input@)[r].0 as int].1 by {
                    assert(band_rows(bands, self.band_width as int)[r] == self.sorted_rows(input@)[r]);
                    assert(window_sum(
                        x@,
                        band_bits(bands[r]@, self.band_width as int),
                        starts[r] as int,
                        self.band_width as int,
                    ) == ys[r]);
                }
                assert forall|i: int| 0 <= i < input@.len() implies #[trigger] self.value_at(x@, input@[i].0)
                    == input@[i].1 by {
                    assert(self.has_row(bands, starts, ys, input@[i]));
                    let r = choose|r: int| 0 <= r < bands.len() && #[trigger] self.is_row_of(bands, starts, ys, r, input@[i]);
                    assert(window_sum(
                        x@,
                        band_bits(bands[r]@, self.band_width as int),
                        starts[r] as int,
                        self.band_width as int,
                    ) == ys[r]);
                }
            }
        }
        res
    }

    /// The encoding is determined by the pairs: two vectors with the store's columns that
    /// both solve the system of the pairs' rows in order of start column and are both zero
    /// off elimination pivots of those rows are equal. `encode`'s result is such a vector,
    /// so no other vector meets its contract.
    pub proof fn lemma_encoding_unique(&self, input: Seq<(u128, u128)>, x1: Seq<u128>, x2: Seq<u128>)
        requires
            self.well_formed(),
            self.sorted_order(input).len() == input.len(),
            forall|r: int|
                0 <= r < input.len() ==> #[trigger] self.sorted_starts(input)[r] + self.spec_band_width()
                    <= self.spec_columns(),
            x1.len() == self.spec_columns(),
            x2.len() == self.spec_columns(),
            forall|r: int|
                0 <= r < input.len() ==> #[trigger] window_sum(
                    x1,
                    self.sorted_rows(input)[r],
                    self.sorted_starts(input)[r] as int,
                    self.spec_band_width(),
                ) == input[self.sorted_order(input)[r].0 as int].1,
            forall|r: int|
                0 <= r < input.len() ==> #[trigger] window_sum(
                    x2,
                    self.sorted_rows(input)[r],
                    self.sorted_starts(input)[r] as int,
                    self.spec_band_width(),
                ) == input[self.sorted_order(input)[r].0 as int].1,
            exists|p: Seq<int>, cs: Seq<Seq<bool>>|
                #[trigger] elimination_pivots(self.sorted_rows(input), self.sorted_starts(input), p, cs) && pivot_columns(
                    p,
                    self.sorted_starts(input),
                    self.spec_band_width(),
                ) && zero_off(x1, p),
            exists|p: Seq<int>, cs: Seq<Seq<bool>>|
                #[trigger] elimination_pivots(self.sorted_rows(input), self.sorted_starts(input), p, cs) && pivot_columns(
                    p,
                    self.sorted_starts(input),
                    self.spec_band_width(),
                ) && zero_off(x2, p),
        ensures
            x1 == x2,
    {
        let rows = self.sorted_rows(input);
        let starts = self.sorted_starts(input);
        let w = self.spec_band_width();
        let (p1, cs1) = choose|p: Seq<int>, cs: Seq<Seq<bool>>|
            #[trigger] elimination_pivots(rows, starts, p, cs) && pivot_columns(p, starts, w) && zero_off(x1, p);
        let (p2, cs2) = choose|p: Seq<int>, cs: Seq<Seq<bool>>|
            #[trigger] elimination_pivots(rows, starts, p, cs) && pivot_columns(p, starts, w) && zero_off(x2, p);
        lemma_elimination_pivots_unique(rows, starts, p1, cs1, p2, cs2);
        assert forall|r: int| 0 <= r < rows.len() implies (#[trigger] rows[r]).len() == w by {}
        assert forall|r: int| 0 <= r < starts.len() implies #[trigger] starts[r] + w <= self.spec_columns() by {}
        assert forall|r: int| 0 <= r < rows.len() implies #[trigger] window_sum(x1, rows[r], starts[r] as int, w)
            == window_sum(x2, rows[r], starts[r] as int, w) by {}
        lemma_pivot_solution_unique(rows, starts, p1, cs1, w, self.spec_columns(), x1, x2);
    }
}

} // verus!
