//! The PSI sender's logic: recentring a point into range-comparison inputs, the prefix
//! decomposition of a range bound, and the pruned depth-first search of the prefix tree
//! whose nodes are matched against the receiver's digests.
use vstd::prelude::*;
use vstd::arithmetic::power2::{lemma_pow2_unfold, pow2};
use crate::bytes::{u128_to_le, u128_to_le_bytes, u64_to_le, u64_to_le_bytes};
use crate::hashing::{blake2s256_digest, blake2s256_hash};
use crate::psi_config::{DIMENSION, DIMENSION2, RADIUS, RANGE_BITS};

verus! {

/// `(p >> (RANGE_BITS - 1)) << (RANGE_BITS - 1)`: the grid line at or below `p`.
pub open spec fn grid_origin(p: u128) -> u128 {
    (p >> 9u128) << 9u128
}

/// The origin of the universe holding coordinate `p`: the grid line below `p`, moved down
/// by one grid step (`2^(RANGE_BITS-1)`) when `p + RADIUS + 1` is still below the next line.
pub open spec fn universe_origin(p: u128) -> u128 {
    if p + RADIUS + 1 < grid_origin(p) + 512 {
        (grid_origin(p) - 512) as u128
    } else {
        grid_origin(p)
    }
}

/// `p` can be recentred without overflow: it is at most `u128::MAX - 512`, and a lower
/// universe origin does not go below zero.
pub open spec fn coordinate_ok(p: u128) -> bool {
    &&& p <= u128::MAX - 512
    &&& p + RADIUS + 1 < grid_origin(p) + 512 ==> grid_origin(p) >= 512
}

/// The lower range bound of coordinate `p`: `p - origin + RADIUS + 1`.
pub open spec fn lower_bound_point(p: u128) -> int {
    p - universe_origin(p) + RADIUS + 1
}

/// The upper range bound of coordinate `p`: `2^RANGE_BITS - (p - origin - RADIUS)`.
pub open spec fn upper_bound_point(p: u128) -> int {
    1024 - (p - universe_origin(p) - RADIUS)
}

/// Shifts of a value: `(x >> k) >> 1 == x >> (k + 1)`.
proof fn lemma_shift_step(x: u128, k: u128)
    requires
        k < 128,
    ensures
        (x >> k) >> 1u128 == x >> (k + 1) as u128,
{
    assert((x >> k) >> 1u128 == x >> (k + 1) as u128) by (bit_vector)
        requires
            k < 128,
    ;
}

/// Recentres a point: per coordinate, the universe origin (twice, once per bound) and the
/// two range bounds that the receiver's points are compared with.
pub fn preprocess_point(point: &[u128; 4]) -> (r: ([u128; 8], [u128; 8]))
    requires
        forall|i: int| 0 <= i < DIMENSION ==> coordinate_ok(#[trigger] point@[i]),
    ensures
        forall|i: int|
            0 <= i < DIMENSION ==> {
                &&& r.0@[2 * i] == universe_origin(#[trigger] point@[i])
                &&& r.0@[2 * i + 1] == universe_origin(point@[i])
                &&& r.1@[2 * i] == lower_bound_point(point@[i])
                &&& r.1@[2 * i + 1] == upper_bound_point(point@[i])
            },
{
    let mut origin = [0u128; 8];
    let mut compare_point = [0u128; 8];
    let mut i: usize = 0;
    while i < DIMENSION
        invariant
            i <= DIMENSION,
            forall|k: int| 0 <= k < DIMENSION ==> coordinate_ok(#[trigger] point@[k]),
            forall|k: int|
                0 <= k < i ==> {
                    &&& origin@[2 * k] == universe_origin(#[trigger] point@[k])
                    &&& origin@[2 * k + 1] == universe_origin(point@[k])
                    &&& compare_point@[2 * k] == lower_bound_point(point@[k])
                    &&& compare_point@[2 * k + 1] == upper_bound_point(point@[k])
                },
        decreases DIMENSION - i,
    {
        let p = point[i];
        let grid = (p >> 9u32) << 9u32;
        assert(grid <= p && p - grid < 512) by (bit_vector)
            requires
                grid == (p >> 9u32) << 9u32,
        ;
        let uo = if p + (RADIUS as u128) + 1 < grid + 512 {
            grid - 512
        } else {
            grid
        };
        origin[2 * i] = uo;
        origin[2 * i + 1] = uo;
        compare_point[2 * i] = p - uo + (RADIUS as u128) + 1;
        compare_point[2 * i + 1] = 1024 - (p - uo - (RADIUS as u128));
        i += 1;
    }
    (origin, compare_point)
}

/// The prefixes covering the numbers below `point` (for the first `k` of the
/// `RANGE_BITS` steps, most significant bit last): at step `k`, where bit `k` of
/// `point` is set, `(point >> k) ^ 1` with length `RANGE_BITS - k`.
pub open spec fn decompose(point: u128, k: nat) -> Seq<(u128, usize)>
    decreases k,
{
    if k == 0 {
        Seq::empty()
    } else {
        let prev = decompose(point, (k - 1) as nat);
        let x = point >> ((k - 1) as u128);
        if x & 1 == 1 {
            prev.push((x ^ 1, (RANGE_BITS - (k - 1)) as usize))
        } else {
            prev
        }
    }
}

/// `y` has one of the prefixes of `es`: its bits above the last `RANGE_BITS - len` of
/// some entry `(prefix, len)` are `prefix`.
pub open spec fn has_prefix_in(y: u128, es: Seq<(u128, usize)>) -> bool {
    exists|t: int| 0 <= t < es.len() && y >> ((RANGE_BITS - es[t].1) as u128) == #[trigger] es[t].0
}

/// `y` and `point` agree above bit `j`, where `point` has a one and `y` a zero.
pub open spec fn below_at(point: u128, y: u128, j: u128) -> bool {
    (point >> j) & 1 == 1 && y >> j == (point >> j) ^ 1
}

/// The first `k` steps of the decomposition cover the values that fall below `point` at one
/// of the bits `j < k`.
proof fn lemma_decompose_cover(point: u128, y: u128, k: nat)
    requires
        k <= RANGE_BITS,
    ensures
        has_prefix_in(y, decompose(point, k)) <==> exists|j: u128| j < k && #[trigger] below_at(point, y, j),
    decreases k,
{
    if k > 0 {
        let k1 = (k - 1) as nat;
        lemma_decompose_cover(point, y, k1);
        let prev = decompose(point, k1);
        let x = point >> (k1 as u128);
        if x & 1 == 1 {
            let e = (x ^ 1, (RANGE_BITS - k1) as usize);
            let cur = prev.push(e);
            assert(cur == decompose(point, k));
            assert((RANGE_BITS - e.1) as u128 == k1 as u128);
            if has_prefix_in(y, cur) {
                let t = choose|t: int| 0 <= t < cur.len() && y >> ((RANGE_BITS - cur[t].1) as u128) == #[trigger] cur[t].0;
                if t < prev.len() {
                    assert(prev[t] == cur[t]);
                    assert(y >> ((RANGE_BITS - prev[t].1) as u128) == prev[t].0);
                    assert(has_prefix_in(y, prev));
                } else {
                    assert(cur[t] == e);
                    assert(below_at(point, y, k1 as u128));
                }
            }
            if exists|j: u128| j < k && #[trigger] below_at(point, y, j) {
                let j = choose|j: u128| j < k && #[trigger] below_at(point, y, j);
                if j < k1 {
                    assert(has_prefix_in(y, prev));
                    let t = choose|t: int| 0 <= t < prev.len() && y >> ((RANGE_BITS - prev[t].1) as u128) == #[trigger] prev[t].0;
                    assert(cur[t] == prev[t]);
                    assert(y >> ((RANGE_BITS - cur[t].1) as u128) == cur[t].0);
                } else {
                    assert(j == k1 as u128);
                    assert(cur[prev.len() as int] == e);
                    assert(y >> ((RANGE_BITS - cur[prev.len() as int].1) as u128) == cur[prev.len() as int].0);
                }
                assert(has_prefix_in(y, cur));
            }
        } else {
            assert(decompose(point, k) == prev);
            if exists|j: u128| j < k && #[trigger] below_at(point, y, j) {
                let j = choose|j: u128| j < k && #[trigger] below_at(point, y, j);
                assert(j != k1 as u128);
                assert(j < k1);
            }
        }
    }
}

proof fn lemma_below_bits(point: u128, y: u128)
    requires
        point < 1024,
        y < 1024,
    ensures
        (y < point) == (below_at(point, y, 9) || below_at(point, y, 8) || below_at(point, y, 7) || below_at(
            point,
            y,
            6,
        ) || below_at(point, y, 5) || below_at(point, y, 4) || below_at(point, y, 3) || below_at(point, y, 2)
            || below_at(point, y, 1) || below_at(point, y, 0)),
{
    assert((y < point) == (((point >> 9u128) & 1 == 1 && y >> 9u128 == (point >> 9u128) ^ 1) || ((point
        >> 8u128) & 1 == 1 && y >> 8u128 == (point >> 8u128) ^ 1) || ((point >> 7u128) & 1 == 1 && y
        >> 7u128 == (point >> 7u128) ^ 1) || ((point >> 6u128) & 1 == 1 && y >> 6u128 == (point >> 6u128)
        ^ 1) || ((point >> 5u128) & 1 == 1 && y >> 5u128 == (point >> 5u128) ^ 1) || ((point >> 4u128) & 1
        == 1 && y >> 4u128 == (point >> 4u128) ^ 1) || ((point >> 3u128) & 1 == 1 && y >> 3u128 == (point
        >> 3u128) ^ 1) || ((point >> 2u128) & 1 == 1 && y >> 2u128 == (point >> 2u128) ^ 1) || ((point
        >> 1u128) & 1 == 1 && y >> 1u128 == (point >> 1u128) ^ 1) || (point & 1 == 1 && y == point ^ 1)))
        by (bit_vector)
        requires
            point < 1024,
            y < 1024,
    ;
    assert(point >> 0u128 == point && y >> 0u128 == y) by (bit_vector);
}

/// The decomposition of a bound covers exactly the values below it: a value of
/// `RANGE_BITS` bits is less than `point` if and only if it has one of its prefixes.
pub proof fn lemma_decompose_covers_below(point: u128, y: u128)
    requires
        point < 1024,
        y < 1024,
    ensures
        (y < point) <==> has_prefix_in(y, decompose(point, RANGE_BITS as nat)),
{
    lemma_decompose_cover(point, y, RANGE_BITS as nat);
    lemma_below_bits(point, y);
    if exists|j: u128| j < 10 && #[trigger] below_at(point, y, j) {
        let j = choose|j: u128| j < 10 && #[trigger] below_at(point, y, j);
        assert(j == 0 || j == 1 || j == 2 || j == 3 || j == 4 || j == 5 || j == 6 || j == 7 || j == 8 || j == 9);
    }
    if y < point {
        if below_at(point, y, 9) {
        } else if below_at(point, y, 8) {
        } else if below_at(point, y, 7) {
        } else if below_at(point, y, 6) {
        } else if below_at(point, y, 5) {
        } else if below_at(point, y, 4) {
        } else if below_at(point, y, 3) {
        } else if below_at(point, y, 2) {
        } else if below_at(point, y, 1) {
        } else {
            assert(below_at(point, y, 0));
        }
    }
}

/// The prefix decomposition of a range bound: for every set bit of `point` among its
/// `RANGE_BITS` lowest, the prefix above that bit with the bit cleared, and its length.
pub fn set_decompose(point: u128) -> (res: Vec<(u128, usize)>)
    ensures
        res@ == decompose(point, RANGE_BITS as nat),
{
    let mut x = point;
    let mut res: Vec<(u128, usize)> = Vec::new();
    let mut i: usize = RANGE_BITS;
    proof {
        assert(point >> 0u128 == point) by (bit_vector);
    }
    while i > 0
        invariant
            i <= RANGE_BITS,
            x == point >> ((RANGE_BITS - i) as u128),
            res@ == decompose(point, (RANGE_BITS - i) as nat),
        decreases i,
    {
        i -= 1;
        if (x & 1) == 1 {
            res.push((x ^ 1, i + 1));
        }
        proof {
            lemma_shift_step(point, (RANGE_BITS - i - 1) as u128);
        }
        x = x >> 1u32;
    }
    res
}

/// The node of a level-ordered tree at level `length`, position `prefix`.
pub open spec fn node_at(length: usize, prefix: u128) -> int {
    pow2(length as nat) - 1 + prefix
}

/// The bytes hashed for a node of the search: the bin index (8 bytes), the eight prefixes
/// (16 bytes each), and the eight shares of the comparison trees at those prefixes.
pub open spec fn search_input(
    table: Seq<Vec<[u8; 16]>>,
    index: u64,
    prefix: Seq<u128>,
    length: Seq<usize>,
) -> Seq<u8> {
    u64_to_le(index) + Seq::new(128, |k: int| u128_to_le(prefix[k / 16])[k % 16]) + Seq::new(
        128,
        |k: int| table[k / 16]@[node_at(length[k / 16], prefix[k / 16])]@[k % 16],
    )
}

/// Whether `d` is one of the digests.
pub open spec fn has_digest(hashes: Seq<[u8; 32]>, d: Seq<u8>) -> bool {
    exists|k: int| 0 <= k < hashes.len() && #[trigger] hashes[k]@ == d
}

/// The first dimension at or after `i` whose length is below `c`, or `DIMENSION2`.
pub open spec fn first_below(length: Seq<usize>, c: int, i: int) -> int
    decreases DIMENSION2 - i,
{
    if i >= DIMENSION2 {
        DIMENSION2 as int
    } else if length[i] < c {
        i
    } else {
        first_below(length, c, i + 1)
    }
}

/// The bits still to search: `sum_i (RANGE_BITS - length[i])`.
pub open spec fn remaining(length: Seq<usize>, i: int) -> nat
    decreases DIMENSION2 - i,
{
    if i >= DIMENSION2 {
        0
    } else {
        (if length[i] <= RANGE_BITS { (RANGE_BITS - length[i]) as nat } else { 0nat }) + remaining(
            length,
            i + 1,
        )
    }
}

/// Extending dimension `i` by one bit shortens what remains to search.
pub proof fn lemma_remaining_child(length: Seq<usize>, i: int, j: int)
    requires
        length.len() == DIMENSION2,
        0 <= j <= i < DIMENSION2,
        length[i] < RANGE_BITS,
    ensures
        remaining(length.update(i, (length[i] + 1) as usize), j) + 1 == remaining(length, j),
    decreases i - j,
{
    if j < i {
        lemma_remaining_child(length, i, j + 1);
    } else {
        lemma_remaining_same(length, length.update(i, (length[i] + 1) as usize), i + 1);
    }
}

proof fn lemma_remaining_same(a: Seq<usize>, b: Seq<usize>, j: int)
    requires
        a.len() == DIMENSION2,
        b.len() == DIMENSION2,
        forall|k: int| j <= k < DIMENSION2 ==> #[trigger] a[k] == b[k],
    ensures
        remaining(a, j) == remaining(b, j),
    decreases DIMENSION2 - j,
{
    if j < DIMENSION2 {
        lemma_remaining_same(a, b, j + 1);
    }
}

/// `first_below` is a dimension whose length is below `c`, when it is not `DIMENSION2`; and
/// no earlier one is.
pub proof fn lemma_first_below(length: Seq<usize>, c: int, i: int)
    requires
        length.len() == DIMENSION2,
        0 <= i <= DIMENSION2,
    ensures
        i <= first_below(length, c, i) <= DIMENSION2,
        first_below(length, c, i) < DIMENSION2 ==> length[first_below(length, c, i)] < c,
        forall|k: int| i <= k < first_below(length, c, i) ==> #[trigger] length[k] >= c,
    decreases DIMENSION2 - i,
{
    if i < DIMENSION2 && length[i] >= c {
        lemma_first_below(length, c, i + 1);
    }
}

/// The child of a search node: dimension `i` extended by bit `b`.
pub open spec fn child_prefix(prefix: Seq<u128>, i: int, b: u128) -> Seq<u128> {
    prefix.update(i, (2 * prefix[i] + b) as u128)
}

/// The lengths of a child node.
pub open spec fn child_length(length: Seq<usize>, i: int) -> Seq<usize> {
    length.update(i, (length[i] + 1) as usize)
}

/// The prefixes found by the search from `(prefix, length)`: while some dimension is shorter
/// than `cut`, the first such dimension is split; then a node whose digest is not among
/// `hashes` is pruned; a full-length node that is not pruned is found; otherwise the first
/// dimension shorter than `RANGE_BITS` is split.
pub open spec fn search_set(
    table: Seq<Vec<[u8; 16]>>,
    index: u64,
    hashes: Seq<[u8; 32]>,
    cut: int,
    prefix: Seq<u128>,
    length: Seq<usize>,
) -> Set<Seq<u128>>
    decreases remaining(length, 0),
{
    let i = first_below(length, cut, 0);
    if cut > RANGE_BITS || length.len() != DIMENSION2 {
        Set::empty()
    } else if i < DIMENSION2 {
        proof {
            lemma_first_below(length, cut, 0);
            lemma_remaining_child(length, i, 0);
        }
        search_set(table, index, hashes, cut, child_prefix(prefix, i, 0), child_length(length, i)).union(
            search_set(table, index, hashes, cut, child_prefix(prefix, i, 1), child_length(length, i)),
        )
    } else if !has_digest(
        hashes,
        blake2s256_digest(search_input(table, index, prefix, length)),
    ) {
        Set::empty()
    } else {
        let j = first_below(length, RANGE_BITS as int, 0);
        let here = if j >= DIMENSION2 { set![prefix] } else { Set::empty() };
        if j < DIMENSION2 {
            proof {
                lemma_first_below(length, RANGE_BITS as int, 0);
                lemma_remaining_child(length, j, 0);
            }
            here.union(
                search_set(table, index, hashes, cut, child_prefix(prefix, j, 0), child_length(length, j)),
            ).union(
                search_set(table, index, hashes, cut, child_prefix(prefix, j, 1), child_length(length, j)),
            )
        } else {
            here
        }
    }
}

/// A search node is well formed: every length is at most `RANGE_BITS` and every prefix
/// fits in its length.
pub open spec fn node_ok(prefix: Seq<u128>, length: Seq<usize>) -> bool {
    &&& prefix.len() == DIMENSION2
    &&& length.len() == DIMENSION2
    &&& forall|i: int| 0 <= i < DIMENSION2 ==> #[trigger] length[i] <= RANGE_BITS
    &&& forall|i: int| 0 <= i < DIMENSION2 ==> #[trigger] prefix[i] < pow2(length[i] as nat)
}

/// The comparison trees of a bin hold every node of the levels up to `RANGE_BITS`.
pub open spec fn table_ok(table: Seq<Vec<[u8; 16]>>) -> bool {
    &&& table.len() >= DIMENSION2
    &&& forall|i: int| 0 <= i < DIMENSION2 ==> #[trigger] table[i]@.len() >= pow2(RANGE_BITS as nat + 1) - 1
}

/// The PSI sender: its set size, the number of bins, and the matches found so far.
pub struct SAPSISender {
    n: usize,
    table_size: usize,
    intersection: Vec<[u128; 8]>,
}

/// Whether the 32-byte digest `d` is one of `hashes`.
pub(crate) fn contains_digest(hashes: &Vec<[u8; 32]>, d: &[u8; 32]) -> (r: bool)
    ensures
        r == has_digest(hashes@, d@),
{
    let mut k: usize = 0;
    while k < hashes.len()
        invariant
            k <= hashes@.len(),
            forall|a: int| 0 <= a < k ==> #[trigger] hashes@[a]@ != d@,
        decreases hashes@.len() - k,
    {
        let h = hashes[k];
        let mut j: usize = 0;
        let mut same = true;
        while j < 32
            invariant
                j <= 32,
                h == hashes@[k as int],
                same == (forall|t: int| 0 <= t < j ==> #[trigger] h@[t] == d@[t]),
            decreases 32 - j,
        {
            if h[j] != d[j] {
                same = false;
            }
            j += 1;
        }
        if same {
            assert(h@ =~= d@);
            return true;
        }
        k += 1;
    }
    false
}

/// The bytes hashed at a search node.
fn node_input(
    table: &Vec<Vec<[u8; 16]>>,
    index: usize,
    prefix: &[u128; 8],
    length: &[usize; 8],
) -> (r: Vec<u8>)
    requires
        index <= u64::MAX,
        node_ok(prefix@, length@),
        table_ok(table@),
    ensures
        r@ == search_input(table@, index as u64, prefix@, length@),
{
    let mut r: Vec<u8> = Vec::new();
    let ib = u64_to_le_bytes(index as u64);
    let mut j: usize = 0;
    while j < 8
        invariant
            j <= 8,
            ib@ == u64_to_le(index as u64),
            r@ == ib@.subrange(0, j as int),
        decreases 8 - j,
    {
        r.push(ib[j]);
        j += 1;
    }
    let ghost part1 = r@;
    let mut i: usize = 0;
    while i < DIMENSION2
        invariant
            i <= DIMENSION2,
            part1 == u64_to_le(index as u64),
            r@.len() == 8 + 16 * i,
            r@.subrange(0, 8) == part1,
            forall|k: int| 0 <= k < 16 * i ==> #[trigger] r@[8 + k] == u128_to_le(prefix@[k / 16])[k % 16],
        decreases DIMENSION2 - i,
    {
        let pb = u128_to_le_bytes(prefix[i]);
        let mut j: usize = 0;
        while j < 16
            invariant
                j <= 16,
                i < DIMENSION2,
                pb@ == u128_to_le(prefix@[i as int]),
                r@.len() == 8 + 16 * i + j,
                r@.subrange(0, 8) == part1,
                forall|k: int| 0 <= k < 16 * i + j ==> #[trigger] r@[8 + k] == u128_to_le(prefix@[k / 16])[k % 16],
            decreases 16 - j,
        {
            r.push(pb[j]);
            proof {
                let k = 16 * i + j;
                assert(k / 16 == i && k % 16 == j);
            }
            j += 1;
        }
        i += 1;
    }
    let mut i: usize = 0;
    while i < DIMENSION2
        invariant
            i <= DIMENSION2,
            node_ok(prefix@, length@),
            table_ok(table@),
            part1 == u64_to_le(index as u64),
            r@.len() == 136 + 16 * i,
            r@.subrange(0, 8) == part1,
            forall|k: int| 0 <= k < 128 ==> #[trigger] r@[8 + k] == u128_to_le(prefix@[k / 16])[k % 16],
            forall|k: int|
                0 <= k < 16 * i ==> #[trigger] r@[136 + k] == table@[k / 16]@[node_at(
                    length@[k / 16],
                    prefix@[k / 16],
                )]@[k % 16],
        decreases DIMENSION2 - i,
    {
        let li = length[i];
        proof {
            vstd::arithmetic::power2::lemma2_to64();
            lemma_pow2_unfold(li as nat + 1);
            if li < RANGE_BITS {
                vstd::arithmetic::power2::lemma_pow2_strictly_increases(li as nat + 1, RANGE_BITS as nat + 1);
            }
            assert(pow2(li as nat) <= 1024) by {
                if li < RANGE_BITS {
                    vstd::arithmetic::power2::lemma_pow2_strictly_increases(li as nat, RANGE_BITS as nat);
                }
            }
        }
        let p2 = 1usize << li;
        proof {
            assert(p2 == pow2(li as nat)) by {
                vstd::bits::lemma_usize_shl_is_mul(1, li);
                vstd::arithmetic::power2::lemma_pow2(li as nat);
                vstd::arithmetic::power::lemma_pow1(2);
            }
        }
        let node = p2 - 1 + (prefix[i] as usize);
        let share = table[i][node];
        let mut j: usize = 0;
        while j < 16
            invariant
                j <= 16,
                i < DIMENSION2,
                node == node_at(length@[i as int], prefix@[i as int]),
                share == table@[i as int]@[node as int],
                r@.len() == 136 + 16 * i + j,
                r@.subrange(0, 8) == part1,
                forall|k: int| 0 <= k < 128 ==> #[trigger] r@[8 + k] == u128_to_le(prefix@[k / 16])[k % 16],
                forall|k: int|
                    0 <= k < 16 * i + j ==> #[trigger] r@[136 + k] == table@[k / 16]@[node_at(
                        length@[k / 16],
                        prefix@[k / 16],
                    )]@[k % 16],
            decreases 16 - j,
        {
            r.push(share[j]);
            proof {
                let k = 16 * i + j;
                assert(k / 16 == i && k % 16 == j);
            }
            j += 1;
        }
        i += 1;
    }
    proof {
        let want = search_input(table@, index as u64, prefix@, length@);
        assert forall|k: int| 0 <= k < 264 implies #[trigger] r@[k] == want[k] by {
            if k < 8 {
                assert(r@.subrange(0, 8)[k] == r@[k]);
            } else if k < 136 {
                assert(r@[8 + (k - 8)] == u128_to_le(prefix@[(k - 8) / 16])[(k - 8) % 16]);
            } else {
                assert(r@[136 + (k - 136)] == table@[(k - 136) / 16]@[node_at(
                    length@[(k - 136) / 16],
                    prefix@[(k - 136) / 16],
                )]@[(k - 136) % 16]);
            }
        }
        assert(r@ =~= want);
    }
    r
}

/// Every entry of a decomposition is a prefix that fits in its length, of length at most
/// `RANGE_BITS`.
pub open spec fn entries_ok(es: Seq<(u128, usize)>) -> bool {
    forall|t: int| 0 <= t < es.len() ==> #[trigger] es[t].1 <= RANGE_BITS && es[t].0 < pow2(es[t].1 as nat)
}

/// The decomposition of a bound below `2^RANGE_BITS` has well-formed entries.
pub proof fn lemma_decompose_ok(point: u128, k: nat)
    requires
        point < 1024,
        k <= RANGE_BITS,
    ensures
        entries_ok(decompose(point, k)),
    decreases k,
{
    if k > 0 {
        lemma_decompose_ok(point, (k - 1) as nat);
        let s = (k - 1) as u128;
        let x = point >> s;
        if x & 1 == 1 {
            vstd::bits::lemma_u128_shr_is_div(point, s);
            vstd::arithmetic::power2::lemma_pow2_adds((k - 1) as nat, (RANGE_BITS - (k - 1)) as nat);
            vstd::arithmetic::power2::lemma2_to64();
            vstd::arithmetic::power2::lemma_pow2_pos((k - 1) as nat);
            vstd::arithmetic::div_mod::lemma_multiply_divide_lt(
                point as int,
                pow2((k - 1) as nat) as int,
                pow2((RANGE_BITS - (k - 1)) as nat) as int,
            );
            assert(x ^ 1 < x) by (bit_vector)
                requires
                    x & 1 == 1,
            ;
            let prev = decompose(point, (k - 1) as nat);
            let cur = prev.push((x ^ 1, (RANGE_BITS - (k - 1)) as usize));
            assert forall|t: int| 0 <= t < cur.len() implies #[trigger] cur[t].1 <= RANGE_BITS && cur[t].0 < pow2(
                cur[t].1 as nat,
            ) by {
                if t < prev.len() {
                    assert(cur[t] == prev[t]);
                }
            }
        }
    }
}

/// The eight decompositions of a compare point.
pub open spec fn decomps_of(cp: Seq<u128>) -> Seq<Seq<(u128, usize)>> {
    Seq::new(DIMENSION2 as nat, |d: int| decompose(cp[d], RANGE_BITS as nat))
}

/// Each of `prev` combined with each entry of `es` at dimension `dim`, in that order.
pub open spec fn combine(
    prev: Seq<(Seq<u128>, Seq<usize>)>,
    es: Seq<(u128, usize)>,
    dim: int,
) -> Seq<(Seq<u128>, Seq<usize>)>
    decreases prev.len(),
{
    if prev.len() == 0 {
        Seq::empty()
    } else {
        combine(prev.drop_last(), es, dim) + es.map_values(
            |e: (u128, usize)| (prev.last().0.update(dim, e.0), prev.last().1.update(dim, e.1)),
        )
    }
}

/// The search starts: one entry of each of the first `d` decompositions, every other
/// dimension empty.
pub open spec fn combos(ds: Seq<Seq<(u128, usize)>>, d: nat) -> Seq<(Seq<u128>, Seq<usize>)>
    decreases d,
{
    if d == 0 {
        seq![(Seq::new(DIMENSION2 as nat, |_i: int| 0u128), Seq::new(DIMENSION2 as nat, |_i: int| 0usize))]
    } else {
        combine(combos(ds, (d - 1) as nat), ds[d - 1], d - 1)
    }
}

/// Every start node is well formed.
pub open spec fn combos_ok(cs: Seq<(Seq<u128>, Seq<usize>)>) -> bool {
    forall|k: int| 0 <= k < cs.len() ==> #[trigger] node_ok(cs[k].0, cs[k].1)
}

proof fn lemma_combine_ok(prev: Seq<(Seq<u128>, Seq<usize>)>, es: Seq<(u128, usize)>, dim: int)
    requires
        combos_ok(prev),
        entries_ok(es),
        0 <= dim < DIMENSION2,
    ensures
        combos_ok(combine(prev, es, dim)),
    decreases prev.len(),
{
    if prev.len() > 0 {
        let p = prev.drop_last();
        assert(combos_ok(p)) by {
            assert forall|k: int| 0 <= k < p.len() implies #[trigger] node_ok(p[k].0, p[k].1) by {
                assert(p[k] == prev[k]);
            }
        }
        lemma_combine_ok(p, es, dim);
        let last = prev.last();
        assert(node_ok(last.0, last.1)) by {
            assert(prev[prev.len() - 1] == last);
        }
        let a = combine(p, es, dim);
        let b = es.map_values(|e: (u128, usize)| (last.0.update(dim, e.0), last.1.update(dim, e.1)));
        assert forall|k: int| 0 <= k < (a + b).len() implies #[trigger] node_ok((a + b)[k].0, (a + b)[k].1) by {
            if k < a.len() {
                assert((a + b)[k] == a[k]);
            } else {
                let e = es[k - a.len()];
                assert((a + b)[k] == b[k - a.len()]);
                let np = last.0.update(dim, e.0);
                let nl = last.1.update(dim, e.1);
                assert forall|i: int| 0 <= i < DIMENSION2 implies #[trigger] nl[i] <= RANGE_BITS && np[i] < pow2(
                    nl[i] as nat,
                ) by {
                    if i != dim {
                        assert(last.1[i] <= RANGE_BITS && last.0[i] < pow2(last.1[i] as nat));
                    }
                }
            }
        }
    }
}

/// Every start node of bounds below `2^RANGE_BITS` is well formed.
pub proof fn lemma_combos_ok(cp: Seq<u128>, d: nat)
    requires
        cp.len() == DIMENSION2,
        forall|i: int| 0 <= i < DIMENSION2 ==> #[trigger] cp[i] < 1024,
        d <= DIMENSION2,
    ensures
        combos_ok(combos(decomps_of(cp), d)),
    decreases d,
{
    if d == 0 {
        vstd::arithmetic::power2::lemma2_to64();
        let c = combos(decomps_of(cp), 0);
        assert(node_ok(c[0].0, c[0].1));
    } else {
        lemma_combos_ok(cp, (d - 1) as nat);
        lemma_decompose_ok(cp[d - 1], RANGE_BITS as nat);
        lemma_combine_ok(combos(decomps_of(cp), (d - 1) as nat), decomps_of(cp)[d - 1], d - 1);
    }
}

/// The union of the searches from every start node in `cs`.
pub open spec fn search_all(
    table: Seq<Vec<[u8; 16]>>,
    index: u64,
    hashes: Seq<[u8; 32]>,
    cut: int,
    cs: Seq<(Seq<u128>, Seq<usize>)>,
) -> Set<Seq<u128>>
    decreases cs.len(),
{
    if cs.len() == 0 {
        Set::empty()
    } else {
        search_all(table, index, hashes, cut, cs.drop_last()).union(
            search_set(table, index, hashes, cut, cs.last().0, cs.last().1),
        )
    }
}

impl SAPSISender {
    /// The matches found so far.
    pub closed spec fn found(&self) -> Set<Seq<u128>> {
        Set::new(|p: Seq<u128>| exists|k: int| 0 <= k < self.intersection@.len() && #[trigger] self.intersection@[k]@ == p)
    }

    /// The set size.
    pub closed spec fn spec_n(&self) -> usize {
        self.n
    }

    /// The number of bins.
    pub closed spec fn spec_table_size(&self) -> usize {
        self.table_size
    }

    /// A sender with no match yet.
    pub fn new(n: usize, table_size: usize) -> (r: Self)
        ensures
            r.found() == Set::<Seq<u128>>::empty(),
            r.spec_n() == n,
            r.spec_table_size() == table_size,
    {
        let r = SAPSISender { n, table_size, intersection: Vec::new() };
        assert(r.found() =~= Set::<Seq<u128>>::empty());
        r
    }

    /// The matches found so far, each once.
    pub fn intersection(&self) -> (r: Vec<[u128; 8]>)
        ensures
            forall|k: int| 0 <= k < r@.len() ==> self.found().contains(#[trigger] r@[k]@),
            forall|p: Seq<u128>| #[trigger] self.found().contains(p) ==> exists|k: int| 0 <= k < r@.len() && r@[k]@ == p,
    {
        let mut r: Vec<[u128; 8]> = Vec::new();
        let mut k: usize = 0;
        while k < self.intersection.len()
            invariant
                k <= self.intersection@.len(),
                r@ == self.intersection@.subrange(0, k as int),
            decreases self.intersection@.len() - k,
        {
            r.push(self.intersection[k]);
            k += 1;
        }
        assert(r@ =~= self.intersection@);
        proof {
            assert forall|k: int| 0 <= k < r@.len() implies self.found().contains(#[trigger] r@[k]@) by {
                assert(self.intersection@[k]@ == r@[k]@);
            }
        }
        r
    }

    /// Records a match, once.
    fn insert_found(&mut self, p: &[u128; 8])
        ensures
            final(self).found() == old(self).found().insert(p@),
            final(self).spec_n() == old(self).spec_n(),
            final(self).spec_table_size() == old(self).spec_table_size(),
    {
        let mut k: usize = 0;
        while k < self.intersection.len()
            invariant
                k <= self.intersection@.len(),
                forall|a: int| 0 <= a < k ==> #[trigger] self.intersection@[a]@ != p@,
            decreases self.intersection@.len() - k,
        {
            let q = self.intersection[k];
            let mut j: usize = 0;
            let mut same = true;
            while j < 8
                invariant
                    j <= 8,
                    q == self.intersection@[k as int],
                    same == (forall|t: int| 0 <= t < j ==> #[trigger] q@[t] == p@[t]),
                decreases 8 - j,
            {
                if q[j] != p[j] {
                    same = false;
                }
                j += 1;
            }
            if same {
                assert(q@ =~= p@);
                assert(self.found() =~= old(self).found().insert(p@)) by {
                    assert(self.found().contains(p@)) by {
                        assert(self.intersection@[k as int]@ == p@);
                    }
                }
                return;
            }
            k += 1;
        }
        let ghost before = self.intersection@;
        self.intersection.push(*p);
        assert(self.found() =~= old(self).found().insert(p@)) by {
            assert(self.intersection@[before.len() as int]@ == p@);
            assert forall|q: Seq<u128>| #[trigger] self.found().contains(q) implies old(self).found().insert(p@).contains(q) by {
                let k = choose|k: int| 0 <= k < self.intersection@.len() && #[trigger] self.intersection@[k]@ == q;
                if k < before.len() {
                    assert(before[k] == self.intersection@[k]);
                }
            }
            assert forall|q: Seq<u128>| #[trigger] old(self).found().contains(q) implies self.found().contains(q) by {
                let k = choose|k: int| 0 <= k < before.len() && #[trigger] before[k]@ == q;
                assert(self.intersection@[k] == before[k]);
            }
        }
    }

    /// The index of the first dimension whose length is below `c`, or `DIMENSION2`.
    fn first_short(length: &[usize; 8], c: usize) -> (i: usize)
        ensures
            i == first_below(length@, c as int, 0),
            i <= DIMENSION2,
    {
        let mut i: usize = 0;
        while i < DIMENSION2 && length[i] >= c
            invariant
                i <= DIMENSION2,
                forall|k: int| 0 <= k < i ==> #[trigger] length@[k] >= c,
            decreases DIMENSION2 - i,
        {
            i += 1;
        }
        proof {
            lemma_first_below(length@, c as int, 0);
            let fb = first_below(length@, c as int, 0);
            if fb < i {
                assert(length@[fb] >= c);
            }
            if i < fb {
                assert(length@[i as int] >= c);
            }
        }
        i
    }

    /// The children of a node along dimension `i`.
    fn children(prefix: &[u128; 8], length: &[usize; 8], i: usize) -> (r: ([u128; 8], [u128; 8], [usize; 8]))
        requires
            i < DIMENSION2,
            node_ok(prefix@, length@),
            length@[i as int] < RANGE_BITS,
        ensures
            r.0@ == child_prefix(prefix@, i as int, 0),
            r.1@ == child_prefix(prefix@, i as int, 1),
            r.2@ == child_length(length@, i as int),
            node_ok(r.0@, r.2@),
            node_ok(r.1@, r.2@),
    {
        proof {
            vstd::arithmetic::power2::lemma2_to64();
            vstd::arithmetic::power2::lemma_pow2_unfold(length@[i as int] as nat + 1);
            if length@[i as int] + 1 < RANGE_BITS {
                vstd::arithmetic::power2::lemma_pow2_strictly_increases(
                    length@[i as int] as nat + 1,
                    RANGE_BITS as nat,
                );
            }
        }
        let mut p0 = *prefix;
        let mut p1 = *prefix;
        let mut l = *length;
        p0[i] = prefix[i] * 2;
        p1[i] = prefix[i] * 2 + 1;
        l[i] = length[i] + 1;
        assert(p0@ =~= child_prefix(prefix@, i as int, 0));
        assert(p1@ =~= child_prefix(prefix@, i as int, 1));
        assert(l@ =~= child_length(length@, i as int));
        (p0, p1, l)
    }

    /// Searches the prefix tree of bin `index` from `(prefix, length)`, adding every match
    /// found (see `search_set`).
    pub fn int_search(
        &mut self,
        idcf_table: &Vec<Vec<[u8; 16]>>,
        index: usize,
        prefix: &[u128; 8],
        length: &[usize; 8],
        hashes: &Vec<[u8; 32]>,
        pref_cut: usize,
    )
        requires
            index <= u64::MAX,
            pref_cut <= RANGE_BITS,
            node_ok(prefix@, length@),
            table_ok(idcf_table@),
        ensures
            final(self).found() == old(self).found().union(
                search_set(idcf_table@, index as u64, hashes@, pref_cut as int, prefix@, length@),
            ),
            forall|v: Seq<u128>|
                #[trigger] final(self).found().contains(v) && !old(self).found().contains(v) ==> {
                    &&& point_ok(v)
                    &&& forall|i: int|
                        0 <= i < DIMENSION2 ==> #[trigger] v[i] >> ((RANGE_BITS - length@[i]) as u128) == prefix@[i]
                    &&& has_digest(
                        hashes@,
                        blake2s256_digest(search_input(idcf_table@, index as u64, v, full_lengths())),
                    )
                },
            final(self).spec_n() == old(self).spec_n(),
            final(self).spec_table_size() == old(self).spec_table_size(),
        decreases remaining(length@, 0),
    {
        let ghost s = search_set(idcf_table@, index as u64, hashes@, pref_cut as int, prefix@, length@);
        let i = Self::first_short(length, pref_cut);
        if i < DIMENSION2 {
            proof {
                lemma_first_below(length@, pref_cut as int, 0);
                lemma_remaining_child(length@, i as int, 0);
            }
            let (p0, p1, l) = Self::children(prefix, length, i);
            self.int_search(idcf_table, index, &p0, &l, hashes, pref_cut);
            self.int_search(idcf_table, index, &p1, &l, hashes, pref_cut);
            proof {
                assert(self.found() =~= old(self).found().union(s));
                lemma_found_sound(idcf_table@, index as u64, hashes@, pref_cut as int, prefix@, length@);
            }
            return;
        }
        let input = node_input(idcf_table, index, prefix, length);
        let hsh = blake2s256_hash(input.as_slice());
        if !contains_digest(hashes, &hsh) {
            proof {
                assert(old(self).found().union(s) =~= old(self).found());
            }
            return;
        }
        let j = Self::first_short(length, RANGE_BITS);
        if j >= DIMENSION2 {
            self.insert_found(prefix);
        }
        if j < DIMENSION2 {
            proof {
                lemma_first_below(length@, RANGE_BITS as int, 0);
                lemma_remaining_child(length@, j as int, 0);
            }
            let (p0, p1, l) = Self::children(prefix, length, j);
            self.int_search(idcf_table, index, &p0, &l, hashes, pref_cut);
            self.int_search(idcf_table, index, &p1, &l, hashes, pref_cut);
        }
        proof {
            assert(self.found() =~= old(self).found().union(s));
            lemma_found_sound(idcf_table@, index as u64, hashes@, pref_cut as int, prefix@, length@);
        }
    }

    /// The search of one bin: the start nodes combine one prefix of the decomposition of
    /// each bound of the bin's compare point; every start node is searched.
    pub fn search_bin(
        &mut self,
        idcf_table: &Vec<Vec<[u8; 16]>>,
        index: usize,
        compare_point: &[u128; 8],
        hashes: &Vec<[u8; 32]>,
        pref_cut: usize,
    )
        requires
            index <= u64::MAX,
            pref_cut <= RANGE_BITS,
            table_ok(idcf_table@),
            forall|i: int| 0 <= i < DIMENSION2 ==> #[trigger] compare_point@[i] < 1024,
        ensures
            final(self).found() == old(self).found().union(
                search_all(
                    idcf_table@,
                    index as u64,
                    hashes@,
                    pref_cut as int,
                    combos(decomps_of(compare_point@), DIMENSION2 as nat),
                ),
            ),
            final(self).spec_n() == old(self).spec_n(),
            final(self).spec_table_size() == old(self).spec_table_size(),
    {
        let ghost ds = decomps_of(compare_point@);
        let mut good_prefix: Vec<([u128; 8], [usize; 8])> = Vec::new();
        good_prefix.push(([0u128; 8], [0usize; 8]));
        proof {
            let c0 = combos(ds, 0);
            let e0 = good_prefix@[0];
            assert(e0.0@ =~= Seq::new(DIMENSION2 as nat, |_i: int| 0u128));
            assert(e0.1@ =~= Seq::new(DIMENSION2 as nat, |_i: int| 0usize));
            assert(good_prefix@.map_values(|e: ([u128; 8], [usize; 8])| (e.0@, e.1@)) =~= c0);
        }
        let mut dim: usize = 0;
        while dim < DIMENSION2
            invariant
                dim <= DIMENSION2,
                ds == decomps_of(compare_point@),
                good_prefix@.map_values(|e: ([u128; 8], [usize; 8])| (e.0@, e.1@)) == combos(ds, dim as nat),
            decreases DIMENSION2 - dim,
        {
            let set_decompose = set_decompose(compare_point[dim]);
            let ghost prev = good_prefix@.map_values(|e: ([u128; 8], [usize; 8])| (e.0@, e.1@));
            let mut new_good_prefix: Vec<([u128; 8], [usize; 8])> = Vec::new();
            let mut k: usize = 0;
            while k < good_prefix.len()
                invariant
                    dim < DIMENSION2,
                    k <= good_prefix@.len(),
                    set_decompose@ == ds[dim as int],
                    prev == good_prefix@.map_values(|e: ([u128; 8], [usize; 8])| (e.0@, e.1@)),
                    new_good_prefix@.map_values(|e: ([u128; 8], [usize; 8])| (e.0@, e.1@)) == combine(
                        prev.take(k as int),
                        ds[dim as int],
                        dim as int,
                    ),
                decreases good_prefix@.len() - k,
            {
                let (pref, length_tuple) = good_prefix[k];
                let ghost before = new_good_prefix@.map_values(|e: ([u128; 8], [usize; 8])| (e.0@, e.1@));
                let mut t: usize = 0;
                while t < set_decompose.len()
                    invariant
                        dim < DIMENSION2,
                        t <= set_decompose@.len(),
                        new_good_prefix@.map_values(|e: ([u128; 8], [usize; 8])| (e.0@, e.1@)) == before + set_decompose@.take(
                            t as int,
                        ).map_values(
                            |e: (u128, usize)| (pref@.update(dim as int, e.0), length_tuple@.update(dim as int, e.1)),
                        ),
                    decreases set_decompose@.len() - t,
                {
                    let (d, l) = set_decompose[t];
                    let mut new_pref = pref;
                    let mut new_length = length_tuple;
                    new_pref[dim] = d;
                    new_length[dim] = l;
                    let ghost old_v = new_good_prefix@;
                    new_good_prefix.push((new_pref, new_length));
                    proof {
                        assert(new_pref@ =~= pref@.update(dim as int, d));
                        assert(new_length@ =~= length_tuple@.update(dim as int, l));
                        let f = |e: ([u128; 8], [usize; 8])| (e.0@, e.1@);
                        let g = |e: (u128, usize)| (pref@.update(dim as int, e.0), length_tuple@.update(dim as int, e.1));
                        assert(new_good_prefix@.map_values(f) =~= old_v.map_values(f).push(f((new_pref, new_length))));
                        assert(set_decompose@.take(t as int + 1).map_values(g) =~= set_decompose@.take(t as int).map_values(g).push(
                            g(set_decompose@[t as int]),
                        ));
                        assert(new_good_prefix@.map_values(f) =~= before + set_decompose@.take(t as int + 1).map_values(g));
                    }
                    t += 1;
                }
                proof {
                    let f = |e: ([u128; 8], [usize; 8])| (e.0@, e.1@);
                    assert(prev[k as int] == (pref@, length_tuple@));
                    assert(prev.take(k as int + 1).drop_last() =~= prev.take(k as int));
                    assert(prev.take(k as int + 1).last() == prev[k as int]);
                    assert(set_decompose@.take(set_decompose@.len() as int) =~= set_decompose@);
                }
                k += 1;
            }
            proof {
                assert(prev.take(good_prefix@.len() as int) =~= prev);
            }
            good_prefix = new_good_prefix;
            dim += 1;
        }
        let ghost cs = combos(ds, DIMENSION2 as nat);
        proof {
            lemma_combos_ok(compare_point@, DIMENSION2 as nat);
        }
        let mut k: usize = 0;
        while k < good_prefix.len()
            invariant
                index <= u64::MAX,
                pref_cut <= RANGE_BITS,
                table_ok(idcf_table@),
                cs == good_prefix@.map_values(|e: ([u128; 8], [usize; 8])| (e.0@, e.1@)),
                combos_ok(cs),
                k <= good_prefix@.len(),
                self.found() == old(self).found().union(
                    search_all(idcf_table@, index as u64, hashes@, pref_cut as int, cs.take(k as int)),
                ),
                self.spec_n() == old(self).spec_n(),
                self.spec_table_size() == old(self).spec_table_size(),
            decreases good_prefix@.len() - k,
        {
            let (pref, length) = good_prefix[k];
            proof {
                assert(cs[k as int] == (pref@, length@));
                assert(node_ok(cs[k as int].0, cs[k as int].1));
                assert(node_ok(pref@, length@));
            }
            self.int_search(idcf_table, index, &pref, &length, hashes, pref_cut);
            proof {
                assert(cs.take(k as int + 1).drop_last() =~= cs.take(k as int));
                assert(cs.take(k as int + 1).last() == cs[k as int]);
                assert(self.found() =~= old(self).found().union(
                    search_all(idcf_table@, index as u64, hashes@, pref_cut as int, cs.take(k as int + 1)),
                ));
            }
            k += 1;
        }
        proof {
            assert(cs.take(good_prefix@.len() as int) =~= cs);
        }
    }
}


/// Every dimension at full length, `RANGE_BITS`.
pub open spec fn full_lengths() -> Seq<usize> {
    Seq::new(DIMENSION2 as nat, |i: int| RANGE_BITS)
}

/// A child of a well-formed node is well formed.
proof fn lemma_child_node_ok(prefix: Seq<u128>, length: Seq<usize>, i: int, b: u128)
    requires
        node_ok(prefix, length),
        0 <= i < DIMENSION2,
        length[i] < RANGE_BITS,
        b <= 1,
    ensures
        node_ok(child_prefix(prefix, i, b), child_length(length, i)),
{
    vstd::arithmetic::power2::lemma2_to64();
    vstd::arithmetic::power2::lemma_pow2_unfold(length[i] as nat + 1);
    if length[i] + 1 < RANGE_BITS {
        vstd::arithmetic::power2::lemma_pow2_strictly_increases(length[i] as nat + 1, RANGE_BITS as nat);
    }
    let cp = child_prefix(prefix, i, b);
    let cl = child_length(length, i);
    assert forall|k: int| 0 <= k < DIMENSION2 implies #[trigger] cp[k] < pow2(cl[k] as nat) by {
        if k != i {
            assert(cp[k] == prefix[k] && cl[k] == length[k]);
        }
    }
}

/// A point below a child node is below its parent: where `v[i]`, cut to `length[i] + 1`
/// bits, is `2 * prefix[i] + b`, cut to `length[i]` bits it is `prefix[i]`.
proof fn lemma_parent_prefix(v: u128, p: u128, len: usize, b: u128)
    requires
        v < 1024,
        len < RANGE_BITS,
        b <= 1,
        v >> ((RANGE_BITS - (len + 1)) as u128) == 2 * p + b,
    ensures
        v >> ((RANGE_BITS - len) as u128) == p,
{
    let s = (RANGE_BITS - (len + 1)) as u128;
    lemma_shift_split(v, 0, s);
    assert((s + 1) as u128 == (RANGE_BITS - len) as u128);
}

/// The search is sound: every point it finds from a well-formed node extends that node's
/// prefixes in every dimension, and the digest of the point's full-length node is among
/// `hashes`.
pub proof fn lemma_search_set_sound(
    table: Seq<Vec<[u8; 16]>>,
    index: u64,
    hashes: Seq<[u8; 32]>,
    cut: int,
    prefix: Seq<u128>,
    length: Seq<usize>,
    v: Seq<u128>,
)
    requires
        node_ok(prefix, length),
        search_set(table, index, hashes, cut, prefix, length).contains(v),
    ensures
        point_ok(v),
        forall|i: int| 0 <= i < DIMENSION2 ==> #[trigger] v[i] >> ((RANGE_BITS - length[i]) as u128) == prefix[i],
        has_digest(hashes, blake2s256_digest(search_input(table, index, v, full_lengths()))),
    decreases remaining(length, 0),
{
    let i = first_below(length, cut, 0);
    lemma_first_below(length, cut, 0);
    lemma_first_below(length, RANGE_BITS as int, 0);
    let j = first_below(length, RANGE_BITS as int, 0);
    let k = if i < DIMENSION2 { i } else { j };
    if k < DIMENSION2 {
        lemma_remaining_child(length, k, 0);
        let c0 = search_set(table, index, hashes, cut, child_prefix(prefix, k, 0), child_length(length, k));
        let b: u128 = if c0.contains(v) { 0 } else { 1 };
        lemma_child_node_ok(prefix, length, k, b);
        lemma_search_set_sound(table, index, hashes, cut, child_prefix(prefix, k, b), child_length(length, k), v);
        assert forall|d: int| 0 <= d < DIMENSION2 implies #[trigger] v[d] >> ((RANGE_BITS - length[d]) as u128)
            == prefix[d] by {
            let cl = child_length(length, k);
            let cp = child_prefix(prefix, k, b);
            assert(v[d] >> ((RANGE_BITS - cl[d]) as u128) == cp[d]);
            if d == k {
                vstd::arithmetic::power2::lemma2_to64();
                if length[d] < 9 {
                    vstd::arithmetic::power2::lemma_pow2_strictly_increases(length[d] as nat, 9);
                }
                assert(prefix[d] < 512);
                assert(cp[d] == 2 * prefix[d] + b);
                assert(cl[d] == length[d] + 1);
                lemma_parent_prefix(v[d], prefix[d], length[d], b);
            }
        }
    } else {
        assert(v == prefix);
        assert(length =~= full_lengths());
        vstd::arithmetic::power2::lemma2_to64();
        assert forall|d: int| 0 <= d < DIMENSION2 implies #[trigger] v[d] >> ((RANGE_BITS - length[d]) as u128)
            == prefix[d] by {
            assert(prefix[d] < pow2(length[d] as nat));
            lemma_shift_split(v[d], 0, 0);
        }
    }
}

/// `lemma_search_set_sound` for every point of the search.
proof fn lemma_found_sound(
    table: Seq<Vec<[u8; 16]>>,
    index: u64,
    hashes: Seq<[u8; 32]>,
    cut: int,
    prefix: Seq<u128>,
    length: Seq<usize>,
)
    requires
        node_ok(prefix, length),
    ensures
        forall|v: Seq<u128>|
            #[trigger] search_set(table, index, hashes, cut, prefix, length).contains(v) ==> {
                &&& point_ok(v)
                &&& forall|i: int|
                    0 <= i < DIMENSION2 ==> #[trigger] v[i] >> ((RANGE_BITS - length[i]) as u128) == prefix[i]
                &&& has_digest(hashes, blake2s256_digest(search_input(table, index, v, full_lengths())))
            },
{
    assert forall|v: Seq<u128>| #[trigger] search_set(table, index, hashes, cut, prefix, length).contains(v) implies {
        &&& point_ok(v)
        &&& forall|i: int| 0 <= i < DIMENSION2 ==> #[trigger] v[i] >> ((RANGE_BITS - length[i]) as u128) == prefix[i]
        &&& has_digest(hashes, blake2s256_digest(search_input(table, index, v, full_lengths())))
    } by {
        lemma_search_set_sound(table, index, hashes, cut, prefix, length, v);
    }
}

/// The prefixes of the point `v` at the lengths `length`: its top `length[i]` bits of
/// `RANGE_BITS` in dimension `i`.
pub open spec fn path_prefix(v: Seq<u128>, length: Seq<usize>) -> Seq<u128> {
    Seq::new(DIMENSION2 as nat, |i: int| v[i] >> ((RANGE_BITS - length[i]) as u128))
}

/// A point of `DIMENSION2` coordinates of `RANGE_BITS` bits each.
pub open spec fn point_ok(v: Seq<u128>) -> bool {
    v.len() == DIMENSION2 && forall|i: int| 0 <= i < DIMENSION2 ==> #[trigger] v[i] < 1024
}

/// In every dimension, `v`'s prefix at the node's length is below the compare point's.
pub open spec fn below_prefixes(v: Seq<u128>, cp: Seq<u128>, length: Seq<usize>) -> bool {
    forall|i: int|
        0 <= i < DIMENSION2 ==> #[trigger] path_prefix(v, length)[i] < cp[i] >> ((RANGE_BITS - length[i]) as u128)
}

/// The digests published for `v` cover every node on `v`'s path whose lengths are all
/// between `cut` and `RANGE_BITS` and whose prefixes are all below the compare point's:
/// the nodes where the two parties' comparison shares agree.
pub open spec fn path_published(
    table: Seq<Vec<[u8; 16]>>,
    index: u64,
    hashes: Seq<[u8; 32]>,
    cut: int,
    v: Seq<u128>,
    cp: Seq<u128>,
) -> bool {
    forall|length: Seq<usize>|
        length.len() == DIMENSION2 && (forall|i: int| 0 <= i < DIMENSION2 ==> cut <= #[trigger] length[i]
            <= RANGE_BITS) && below_prefixes(v, cp, length) ==> has_digest(
            hashes,
            blake2s256_digest(search_input(table, index, #[trigger] path_prefix(v, length), length)),
        )
}

proof fn lemma_shift_split(v: u128, c: u128, s: u128)
    requires
        v < 1024,
        c < 1024,
        s < 10,
    ensures
        v >> s == 2 * (v >> (s + 1) as u128) + ((v >> s) & 1),
        (v >> s) & 1 <= 1,
        v >> 10u128 == 0,
        v >> 0u128 == v,
        (v >> ((s + 1) as u128)) < (c >> ((s + 1) as u128)) ==> (v >> s) < (c >> s),
        (c >> s) & 1 == 1 ==> (c >> s) ^ 1 < c >> s,
{
    assert(v >> s == 2 * (v >> (s + 1) as u128) + ((v >> s) & 1) && (v >> s) & 1 <= 1 && v >> 10u128 == 0
        && v >> 0u128 == v && ((v >> ((s + 1) as u128)) < (c >> ((s + 1) as u128)) ==> (v >> s) < (c >> s)) && ((c >> s) & 1
        == 1 ==> (c >> s) ^ 1 < c >> s)) by (bit_vector)
        requires
            v < 1024,
            c < 1024,
            s < 10,
    ;
}

/// Extending dimension `i` of a node on `v`'s path by `v`'s next bit stays on the path,
/// and below the compare point where the node was.
proof fn lemma_path_child(v: Seq<u128>, cp: Seq<u128>, length: Seq<usize>, i: int)
    requires
        point_ok(v),
        point_ok(cp),
        length.len() == DIMENSION2,
        forall|k: int| 0 <= k < DIMENSION2 ==> #[trigger] length[k] <= RANGE_BITS,
        0 <= i < DIMENSION2,
        length[i] < RANGE_BITS,
    ensures
        ({
            let b = (v[i] >> ((RANGE_BITS - length[i] - 1) as u128)) & 1;
            &&& b == 0 || b == 1
            &&& child_prefix(path_prefix(v, length), i, b) == path_prefix(v, child_length(length, i))
        }),
        below_prefixes(v, cp, length) ==> below_prefixes(v, cp, child_length(length, i)),
{
    let s = (RANGE_BITS - length[i] - 1) as u128;
    lemma_shift_split(v[i], cp[i], s);
    let b = (v[i] >> s) & 1;
    assert(child_prefix(path_prefix(v, length), i, b) =~= path_prefix(v, child_length(length, i)));
    if below_prefixes(v, cp, length) {
        let cl = child_length(length, i);
        assert forall|k: int| 0 <= k < DIMENSION2 implies #[trigger] path_prefix(v, cl)[k] < cp[k] >> ((RANGE_BITS
            - cl[k]) as u128) by {
            assert(path_prefix(v, length)[k] < cp[k] >> ((RANGE_BITS - length[k]) as u128));
        }
    }
}

/// The search from a node on the path of `v` finds `v`, when the digests of the path's
/// nodes are published.
pub proof fn lemma_search_finds_path(
    table: Seq<Vec<[u8; 16]>>,
    index: u64,
    hashes: Seq<[u8; 32]>,
    cut: int,
    v: Seq<u128>,
    cp: Seq<u128>,
    length: Seq<usize>,
)
    requires
        0 <= cut <= RANGE_BITS,
        point_ok(v),
        point_ok(cp),
        length.len() == DIMENSION2,
        forall|k: int| 0 <= k < DIMENSION2 ==> #[trigger] length[k] <= RANGE_BITS,
        below_prefixes(v, cp, length),
        path_published(table, index, hashes, cut, v, cp),
    ensures
        search_set(table, index, hashes, cut, path_prefix(v, length), length).contains(v),
    decreases remaining(length, 0),
{
    let prefix = path_prefix(v, length);
    let i = first_below(length, cut, 0);
    lemma_first_below(length, cut, 0);
    if i < DIMENSION2 {
        lemma_remaining_child(length, i, 0);
        lemma_path_child(v, cp, length, i);
        let cl = child_length(length, i);
        assert forall|k: int| 0 <= k < DIMENSION2 implies #[trigger] cl[k] <= RANGE_BITS by {}
        lemma_search_finds_path(table, index, hashes, cut, v, cp, cl);
        let b = (v[i] >> ((RANGE_BITS - length[i] - 1) as u128)) & 1;
        if b == 0 {
            assert(search_set(table, index, hashes, cut, child_prefix(prefix, i, 0), cl).contains(v));
        } else {
            assert(search_set(table, index, hashes, cut, child_prefix(prefix, i, 1), cl).contains(v));
        }
    } else {
        assert(has_digest(hashes, blake2s256_digest(search_input(table, index, path_prefix(v, length), length))));
        let j = first_below(length, RANGE_BITS as int, 0);
        lemma_first_below(length, RANGE_BITS as int, 0);
        if j < DIMENSION2 {
            lemma_remaining_child(length, j, 0);
            lemma_path_child(v, cp, length, j);
            let cl = child_length(length, j);
            assert forall|k: int| 0 <= k < DIMENSION2 implies #[trigger] cl[k] <= RANGE_BITS by {}
            lemma_search_finds_path(table, index, hashes, cut, v, cp, cl);
            let b = (v[j] >> ((RANGE_BITS - length[j] - 1) as u128)) & 1;
            if b == 0 {
                assert(search_set(table, index, hashes, cut, child_prefix(prefix, j, 0), cl).contains(v));
            } else {
                assert(search_set(table, index, hashes, cut, child_prefix(prefix, j, 1), cl).contains(v));
            }
        } else {
            assert forall|k: int| 0 <= k < DIMENSION2 implies #[trigger] prefix[k] == v[k] by {
                assert(length[k] >= RANGE_BITS);
                lemma_shift_split(v[k], 0, 0);
            }
            assert(prefix =~= v);
        }
    }
}


/// Each entry of a decomposition is the bound's prefix at its length with the last bit, a
/// one, cleared.
proof fn lemma_decompose_entries(point: u128, k: nat)
    requires
        k <= RANGE_BITS,
    ensures
        forall|t: int|
            0 <= t < decompose(point, k).len() ==> {
                let e = #[trigger] decompose(point, k)[t];
                &&& 1 <= e.1 <= RANGE_BITS
                &&& RANGE_BITS - e.1 < k
                &&& (point >> ((RANGE_BITS - e.1) as u128)) & 1 == 1
                &&& e.0 == (point >> ((RANGE_BITS - e.1) as u128)) ^ 1
            },
    decreases k,
{
    if k > 0 {
        lemma_decompose_entries(point, (k - 1) as nat);
        let prev = decompose(point, (k - 1) as nat);
        let cur = decompose(point, k);
        assert forall|t: int| 0 <= t < cur.len() implies {
            let e = #[trigger] cur[t];
            &&& 1 <= e.1 <= RANGE_BITS
            &&& RANGE_BITS - e.1 < k
            &&& (point >> ((RANGE_BITS - e.1) as u128)) & 1 == 1
            &&& e.0 == (point >> ((RANGE_BITS - e.1) as u128)) ^ 1
        } by {
            if t < prev.len() {
                assert(cur[t] == prev[t]);
            }
        }
    }
}

proof fn lemma_combine_contains(prev: Seq<(Seq<u128>, Seq<usize>)>, es: Seq<(u128, usize)>, dim: int, a: int, t: int)
    requires
        0 <= a < prev.len(),
        0 <= t < es.len(),
    ensures
        combine(prev, es, dim).contains((prev[a].0.update(dim, es[t].0), prev[a].1.update(dim, es[t].1))),
    decreases prev.len(),
{
    let p = prev.drop_last();
    let tail = es.map_values(
        |e: (u128, usize)| (prev.last().0.update(dim, e.0), prev.last().1.update(dim, e.1)),
    );
    let c = combine(prev, es, dim);
    assert(c == combine(p, es, dim) + tail);
    if a < prev.len() - 1 {
        lemma_combine_contains(p, es, dim, a, t);
        assert(p[a] == prev[a]);
        let k = choose|k: int| 0 <= k < combine(p, es, dim).len() && combine(p, es, dim)[k] == (
        p[a].0.update(dim, es[t].0), p[a].1.update(dim, es[t].1));
        assert(c[k] == combine(p, es, dim)[k]);
    } else {
        let k = combine(p, es, dim).len() + t;
        assert(c[k] == tail[t]);
    }
}

/// A start node on the path of a point below the compare point in every dimension: below
/// it in the first `d` dimensions, empty in the others.
proof fn lemma_combos_path(cp: Seq<u128>, v: Seq<u128>, d: nat)
    requires
        point_ok(cp),
        point_ok(v),
        forall|i: int| 0 <= i < DIMENSION2 ==> #[trigger] v[i] < cp[i],
        d <= DIMENSION2,
    ensures
        exists|k: int|
            0 <= k < combos(decomps_of(cp), d).len() && #[trigger] combos(decomps_of(cp), d)[k].0 == path_prefix(
                v,
                combos(decomps_of(cp), d)[k].1,
            ) && combos(decomps_of(cp), d)[k].1.len() == DIMENSION2 && (forall|i: int|
                0 <= i < DIMENSION2 ==> #[trigger] combos(decomps_of(cp), d)[k].1[i] <= RANGE_BITS) && (forall|i: int|
                0 <= i < d ==> #[trigger] path_prefix(v, combos(decomps_of(cp), d)[k].1)[i] < cp[i] >> ((RANGE_BITS
                - combos(decomps_of(cp), d)[k].1[i]) as u128)),
    decreases d,
{
    let cs = combos(decomps_of(cp), d);
    if d == 0 {
        let z = cs[0];
        assert forall|i: int| 0 <= i < DIMENSION2 implies #[trigger] z.1[i] <= RANGE_BITS by {}
        assert forall|i: int| 0 <= i < DIMENSION2 implies #[trigger] z.0[i] == path_prefix(v, z.1)[i] by {
            lemma_shift_split(v[i], 0, 0);
        }
        assert(z.0 =~= path_prefix(v, z.1));
    } else {
        let d1 = (d - 1) as nat;
        lemma_combos_path(cp, v, d1);
        let prev = combos(decomps_of(cp), d1);
        let a = choose|k: int|
            0 <= k < prev.len() && #[trigger] prev[k].0 == path_prefix(v, prev[k].1) && prev[k].1.len()
                == DIMENSION2 && (forall|i: int| 0 <= i < DIMENSION2 ==> #[trigger] prev[k].1[i] <= RANGE_BITS)
                && (forall|i: int| 0 <= i < d1 ==> #[trigger] path_prefix(v, prev[k].1)[i] < cp[i] >> ((RANGE_BITS
                - prev[k].1[i]) as u128));
        let es = decomps_of(cp)[d1 as int];
        assert(es == decompose(cp[d1 as int], RANGE_BITS as nat));
        lemma_decompose_covers_below(cp[d1 as int], v[d1 as int]);
        lemma_decompose_entries(cp[d1 as int], RANGE_BITS as nat);
        let t = choose|t: int|
            0 <= t < es.len() && v[d1 as int] >> ((RANGE_BITS - es[t].1) as u128) == #[trigger] es[t].0;
        let j = (RANGE_BITS - es[t].1) as u128;
        lemma_shift_split(v[d1 as int], cp[d1 as int], j);
        lemma_combine_contains(prev, es, d1 as int, a, t);
        let node = (prev[a].0.update(d1 as int, es[t].0), prev[a].1.update(d1 as int, es[t].1));
        assert(cs == combine(prev, es, d1 as int));
        let k = choose|k: int| 0 <= k < cs.len() && cs[k] == node;
        assert(node.0 =~= path_prefix(v, node.1));
        assert forall|i: int| 0 <= i < DIMENSION2 implies #[trigger] cs[k].1[i] <= RANGE_BITS by {}
        assert forall|i: int| 0 <= i < d implies #[trigger] path_prefix(v, cs[k].1)[i] < cp[i] >> ((RANGE_BITS
            - cs[k].1[i]) as u128) by {
            if i < d1 {
                assert(path_prefix(v, prev[a].1)[i] < cp[i] >> ((RANGE_BITS - prev[a].1[i]) as u128));
                assert(cs[k].1[i] == prev[a].1[i]);
            }
        }
        assert(cs[k].0 == path_prefix(v, cs[k].1));
    }
}

proof fn lemma_search_all_contains(
    table: Seq<Vec<[u8; 16]>>,
    index: u64,
    hashes: Seq<[u8; 32]>,
    cut: int,
    cs: Seq<(Seq<u128>, Seq<usize>)>,
    k: int,
    v: Seq<u128>,
)
    requires
        0 <= k < cs.len(),
        search_set(table, index, hashes, cut, cs[k].0, cs[k].1).contains(v),
    ensures
        search_all(table, index, hashes, cut, cs).contains(v),
    decreases cs.len(),
{
    if k < cs.len() - 1 {
        assert(cs.drop_last()[k] == cs[k]);
        lemma_search_all_contains(table, index, hashes, cut, cs.drop_last(), k, v);
    }
}

/// The search of a bin is complete: a point whose every coordinate lies below the bin's
/// compare point, and for which the receiver published the digests of the nodes on its
/// path, is found.
pub proof fn lemma_search_bin_complete(
    table: Seq<Vec<[u8; 16]>>,
    index: u64,
    hashes: Seq<[u8; 32]>,
    cut: int,
    compare_point: Seq<u128>,
    v: Seq<u128>,
)
    requires
        0 <= cut <= RANGE_BITS,
        point_ok(compare_point),
        point_ok(v),
        forall|i: int| 0 <= i < DIMENSION2 ==> #[trigger] v[i] < compare_point[i],
        path_published(table, index, hashes, cut, v, compare_point),
    ensures
        search_all(table, index, hashes, cut, combos(decomps_of(compare_point), DIMENSION2 as nat)).contains(v),
{
    let cs = combos(decomps_of(compare_point), DIMENSION2 as nat);
    lemma_combos_path(compare_point, v, DIMENSION2 as nat);
    let k = choose|k: int|
        0 <= k < cs.len() && #[trigger] cs[k].0 == path_prefix(v, cs[k].1) && cs[k].1.len() == DIMENSION2 && (
        forall|i: int| 0 <= i < DIMENSION2 ==> #[trigger] cs[k].1[i] <= RANGE_BITS) && (forall|i: int|
            0 <= i < DIMENSION2 ==> #[trigger] path_prefix(v, cs[k].1)[i] < compare_point[i] >> ((RANGE_BITS
            - cs[k].1[i]) as u128));
    lemma_search_finds_path(table, index, hashes, cut, v, compare_point, cs[k].1);
    lemma_search_all_contains(table, index, hashes, cut, cs, k, v);
}


/// The two parties' comparison tables agree on every node below the compare point's path:
/// node `x` of level `h` of dimension `i`, for `x < cp[i] >> (RANGE_BITS - h)`.
pub open spec fn agree_below(mine: Seq<Vec<[u8; 16]>>, theirs: Seq<Vec<[u8; 16]>>, cp: Seq<u128>) -> bool {
    forall|i: int, h: usize, x: u128|
        0 <= i < DIMENSION2 && h <= RANGE_BITS && x < cp[i] >> ((RANGE_BITS - h) as u128) ==> #[trigger] mine[i]@[node_at(
            h,
            x,
        )]@ == theirs[i]@[node_at(h, x)]@
}

/// Digests computed from the receiver's table serve the sender: when the tables agree
/// below the compare point and the receiver publishes the digests of every node on `v`'s
/// path (lengths between `cut` and `RANGE_BITS`) over its own table, the sender's digests
/// of the nodes below the compare point are published.
pub proof fn lemma_published_from_agreeing_table(
    sender_table: Seq<Vec<[u8; 16]>>,
    receiver_table: Seq<Vec<[u8; 16]>>,
    index: u64,
    hashes: Seq<[u8; 32]>,
    cut: int,
    v: Seq<u128>,
    cp: Seq<u128>,
)
    requires
        agree_below(sender_table, receiver_table, cp),
        all_path_published(receiver_table, index, hashes, cut, v),
    ensures
        path_published(sender_table, index, hashes, cut, v, cp),
{
    assert forall|length: Seq<usize>|
        length.len() == DIMENSION2 && (forall|i: int| 0 <= i < DIMENSION2 ==> cut <= #[trigger] length[i] <= RANGE_BITS)
            && below_prefixes(v, cp, length) implies has_digest(
        hashes,
        blake2s256_digest(search_input(sender_table, index, #[trigger] path_prefix(v, length), length)),
    ) by {
        let p = path_prefix(v, length);
        let a = search_input(sender_table, index, p, length);
        let b = search_input(receiver_table, index, p, length);
        assert forall|k: int| 0 <= k < a.len() implies a[k] == b[k] by {
            if k >= 136 {
                let i = (k - 136) / 16;
                assert(p[i] < cp[i] >> ((RANGE_BITS - length[i]) as u128));
                assert(sender_table[i]@[node_at(length[i], p[i])]@ == receiver_table[i]@[node_at(length[i], p[i])]@);
            }
        }
        assert(a =~= b);
        assert(lengths_in(length, cut));
        assert(has_digest(hashes, path_digest(receiver_table, index, v, length)));
    }
}


/// Lengths within `[cut, RANGE_BITS]` in every dimension.
pub open spec fn lengths_in(length: Seq<usize>, cut: int) -> bool {
    length.len() == DIMENSION2 && forall|i: int| 0 <= i < DIMENSION2 ==> cut <= #[trigger] length[i] <= RANGE_BITS
}

/// The digest of the node of `v`'s path at `length`, over `table`.
pub open spec fn path_digest(table: Seq<Vec<[u8; 16]>>, index: u64, v: Seq<u128>, length: Seq<usize>) -> Seq<u8> {
    blake2s256_digest(search_input(table, index, path_prefix(v, length), length))
}

/// `hashes` holds the digest of every node of `v`'s path whose lengths are within
/// `[cut, RANGE_BITS]`.
pub open spec fn all_path_published(
    table: Seq<Vec<[u8; 16]>>,
    index: u64,
    hashes: Seq<[u8; 32]>,
    cut: int,
    v: Seq<u128>,
) -> bool {
    forall|length: Seq<usize>| lengths_in(length, cut) ==> has_digest(hashes, #[trigger] path_digest(table, index, v, length))
}

proof fn lemma_prefix_fits(v: u128, len: usize)
    requires
        v < 1024,
        len <= RANGE_BITS,
    ensures
        v >> ((RANGE_BITS - len) as u128) < pow2(len as nat),
{
    vstd::arithmetic::power2::lemma2_to64();
    assert(v >> 10u128 < 1 && v >> 9u128 < 2 && v >> 8u128 < 4 && v >> 7u128 < 8 && v >> 6u128 < 16 && v >> 5u128
        < 32 && v >> 4u128 < 64 && v >> 3u128 < 128 && v >> 2u128 < 256 && v >> 1u128 < 512 && v >> 0u128 < 1024)
        by (bit_vector)
        requires
            v < 1024,
    ;
}

/// `d` is the digest of a node of `v`'s path whose lengths lie within `[cut, RANGE_BITS]`.
pub open spec fn is_path_digest(table: Seq<Vec<[u8; 16]>>, index: u64, v: Seq<u128>, cut: int, d: Seq<u8>) -> bool {
    exists|l: Seq<usize>| lengths_in(l, cut) && d == #[trigger] path_digest(table, index, v, l)
}

/// Appends the digests of the nodes of `v`'s path whose lengths agree with `length` in the
/// dimensions before `d` and lie within `[cut, RANGE_BITS]` in the others.
fn push_path_hashes(
    out: &mut Vec<[u8; 32]>,
    table: &Vec<Vec<[u8; 16]>>,
    index: usize,
    v: &[u128; 8],
    cut: usize,
    length: &mut [usize; 8],
    d: usize,
)
    requires
        index <= u64::MAX,
        table_ok(table@),
        point_ok(v@),
        cut <= RANGE_BITS,
        d <= DIMENSION2,
        forall|i: int| 0 <= i < d ==> cut <= #[trigger] old(length)@[i] <= RANGE_BITS,
    ensures
        final(out)@.len() >= old(out)@.len(),
        final(out)@.subrange(0, old(out)@.len() as int) == old(out)@,
        forall|i: int| 0 <= i < d ==> #[trigger] final(length)@[i] == old(length)@[i],
        forall|l: Seq<usize>|
            lengths_in(l, cut as int) && (forall|i: int| 0 <= i < d ==> #[trigger] l[i] == old(length)@[i])
                ==> has_digest(final(out)@, #[trigger] path_digest(table@, index as u64, v@, l)),
        forall|k: int|
            old(out)@.len() <= k < final(out)@.len() ==> is_path_digest(
                table@,
                index as u64,
                v@,
                cut as int,
                #[trigger] final(out)@[k]@,
            ),
    decreases DIMENSION2 - d, 0usize,
{
    if d == DIMENSION2 {
        let mut prefix = [0u128; 8];
        let mut i: usize = 0;
        while i < 8
            invariant
                i <= 8,
                point_ok(v@),
                forall|k: int| 0 <= k < 8 ==> cut <= #[trigger] length@[k] <= RANGE_BITS,
                forall|k: int| 0 <= k < i ==> #[trigger] prefix@[k] == path_prefix(v@, length@)[k],
            decreases 8 - i,
        {
            prefix[i] = v[i] >> ((10 - length[i]) as u32);
            i += 1;
        }
        assert(prefix@ =~= path_prefix(v@, length@));
        proof {
            assert forall|k: int| 0 <= k < DIMENSION2 implies #[trigger] prefix@[k] < pow2(length@[k] as nat) by {
                lemma_prefix_fits(v@[k], length@[k]);
            }
        }
        let input = node_input(table, index, &prefix, length);
        let h = blake2s256_hash(input.as_slice());
        let ghost before = out@;
        out.push(h);
        proof {
            assert(out@.subrange(0, before.len() as int) =~= before);
            assert forall|l: Seq<usize>|
                lengths_in(l, cut as int) && (forall|i: int| 0 <= i < 8 ==> #[trigger] l[i] == length@[i])
                    implies has_digest(out@, #[trigger] path_digest(table@, index as u64, v@, l)) by {
                assert(l =~= length@);
                assert(out@[before.len() as int]@ == path_digest(table@, index as u64, v@, l));
            }
            assert(lengths_in(length@, cut as int));
            assert(out@[before.len() as int]@ == path_digest(table@, index as u64, v@, length@));
            assert(is_path_digest(table@, index as u64, v@, cut as int, out@[before.len() as int]@));
        }
    } else {
        let mut l: usize = cut;
        let ghost out0 = out@;
        let ghost len0 = length@;
        while l <= 10
            invariant
                index <= u64::MAX,
                table_ok(table@),
                point_ok(v@),
                cut <= l <= 11,
                cut <= RANGE_BITS,
                d < DIMENSION2,
                forall|i: int| 0 <= i < d ==> cut <= #[trigger] len0[i] <= RANGE_BITS,
                forall|i: int| 0 <= i < d ==> #[trigger] length@[i] == len0[i],
                out@.len() >= out0.len(),
                out@.subrange(0, out0.len() as int) == out0,
                forall|ll: Seq<usize>|
                    lengths_in(ll, cut as int) && (forall|i: int| 0 <= i < d ==> #[trigger] ll[i] == len0[i]) && ll[d as int]
                        < l ==> has_digest(out@, #[trigger] path_digest(table@, index as u64, v@, ll)),
                forall|k: int|
                    out0.len() <= k < out@.len() ==> is_path_digest(table@, index as u64, v@, cut as int, #[trigger] out@[k]@),
            decreases 11 - l,
        {
            length[d] = l;
            let ghost out1 = out@;
            let ghost len1 = length@;
            push_path_hashes(out, table, index, v, cut, length, d + 1);
            proof {
                assert forall|ll: Seq<usize>|
                    lengths_in(ll, cut as int) && (forall|i: int| 0 <= i < d ==> #[trigger] ll[i] == len0[i]) && ll[d as int]
                        < l + 1 implies has_digest(out@, #[trigger] path_digest(table@, index as u64, v@, ll)) by {
                    if ll[d as int] < l {
                        assert(has_digest(out1, path_digest(table@, index as u64, v@, ll)));
                        let k = choose|k: int| 0 <= k < out1.len() && #[trigger] out1[k]@ == path_digest(
                            table@,
                            index as u64,
                            v@,
                            ll,
                        );
                        assert(out@.subrange(0, out1.len() as int)[k] == out1[k]);
                    } else {
                        assert forall|i: int| 0 <= i < d + 1 implies #[trigger] ll[i] == len1[i] by {}
                    }
                }
                assert forall|k: int| out0.len() <= k < out@.len() implies is_path_digest(
                    table@,
                    index as u64,
                    v@,
                    cut as int,
                    #[trigger] out@[k]@,
                ) by {
                    if k < out1.len() {
                        assert(out@.subrange(0, out1.len() as int)[k] == out1[k]);
                    }
                }
                assert(out@.subrange(0, out0.len() as int) =~= out0) by {
                    assert forall|k: int| 0 <= k < out0.len() implies out@[k] == out0[k] by {
                        assert(out@.subrange(0, out1.len() as int)[k] == out1[k]);
                        assert(out1.subrange(0, out0.len() as int)[k] == out0[k]);
                    }
                }
            }
            l += 1;
        }
    }
}

/// The digests a receiver publishes for a point `v` of bin `index`: exactly those of the
/// nodes of `v`'s path whose lengths lie within `[cut, RANGE_BITS]`, over its own
/// comparison table.
pub fn path_hashes(table: &Vec<Vec<[u8; 16]>>, index: usize, v: &[u128; 8], cut: usize) -> (r: Vec<[u8; 32]>)
    requires
        index <= u64::MAX,
        table_ok(table@),
        point_ok(v@),
        cut <= RANGE_BITS,
    ensures
        all_path_published(table@, index as u64, r@, cut as int, v@),
        forall|d: Seq<u8>| has_digest(r@, d) <==> is_path_digest(table@, index as u64, v@, cut as int, d),
{
    let mut out: Vec<[u8; 32]> = Vec::new();
    let mut length = [0usize; 8];
    push_path_hashes(&mut out, table, index, v, cut, &mut length, 0);
    proof {
        assert forall|d: Seq<u8>| has_digest(out@, d) <==> is_path_digest(table@, index as u64, v@, cut as int, d) by {
            if has_digest(out@, d) {
                let k = choose|k: int| 0 <= k < out@.len() && #[trigger] out@[k]@ == d;
                assert(is_path_digest(table@, index as u64, v@, cut as int, out@[k]@));
            }
            if is_path_digest(table@, index as u64, v@, cut as int, d) {
                let l = choose|l: Seq<usize>| lengths_in(l, cut as int) && d == #[trigger] path_digest(
                    table@,
                    index as u64,
                    v@,
                    l,
                );
                assert(has_digest(out@, path_digest(table@, index as u64, v@, l)));
            }
        }
    }
    out
}

/// The protocol finds every point in range: when the receiver publishes `path_hashes` of
/// its point `v` over its comparison table, the two parties' tables agree below the
/// sender's compare point (as the comparison-function sharing gives them), and `v` lies
/// below the compare point in every dimension, the sender's search of the bin finds `v`.
pub proof fn lemma_psi_bin_complete(
    sender_table: Seq<Vec<[u8; 16]>>,
    receiver_table: Seq<Vec<[u8; 16]>>,
    index: u64,
    hashes: Seq<[u8; 32]>,
    cut: int,
    compare_point: Seq<u128>,
    v: Seq<u128>,
)
    requires
        0 <= cut <= RANGE_BITS,
        point_ok(compare_point),
        point_ok(v),
        forall|i: int| 0 <= i < DIMENSION2 ==> #[trigger] v[i] < compare_point[i],
        agree_below(sender_table, receiver_table, compare_point),
        all_path_published(receiver_table, index, hashes, cut, v),
    ensures
        search_all(sender_table, index, hashes, cut, combos(decomps_of(compare_point), DIMENSION2 as nat)).contains(v),
{
    lemma_published_from_agreeing_table(sender_table, receiver_table, index, hashes, cut, v, compare_point);
    lemma_search_bin_complete(sender_table, index, hashes, cut, compare_point, v);
}


proof fn lemma_le_bit(c: u128, j: u128, r: u128)
    requires
        j < 16,
        r < 8,
    ensures
        ((((c >> (8 * j) as u128) & 0xffu128) as u8 >> (r as u8)) & 1u8 == 1u8) == ((c >> (8 * j + r) as u128) & 1
            == 1),
{
    assert(((((c >> (8 * j) as u128) & 0xffu128) as u8 >> (r as u8)) & 1u8 == 1u8) == ((c >> (8 * j + r) as u128)
        & 1 == 1)) by (bit_vector)
        requires
            j < 16,
            r < 8,
    ;
}

/// Bit `i` of the little-endian bytes of `c` is bit `i` of `c`.
pub proof fn lemma_byte_bit_of(c: u128, i: int)
    requires
        0 <= i < 128,
    ensures
        crate::idcf_receiver::byte_bit(u128_to_le(c), i) == ((c >> (i as u128)) & 1 == 1),
{
    let j = i / 8;
    let r = i % 8;
    lemma_le_bit(c, j as u128, r as u128);
    assert(8 * j + r == i);
}

/// The path of the comparison input `c` (bit `RANGE_BITS - h` of `c` at level `h`) passes
/// at level `h` through the node `c >> (RANGE_BITS - h)`.
proof fn lemma_path_node_of(c: u128, alpha: Seq<bool>, h: nat)
    requires
        c < 1024,
        h <= RANGE_BITS,
        forall|l: int| 1 <= l <= RANGE_BITS ==> #[trigger] alpha[l] == ((c >> ((RANGE_BITS - l) as u128)) & 1 == 1),
    ensures
        crate::idcf_model::path_node(alpha, h) == c >> ((RANGE_BITS - h) as u128),
    decreases h,
{
    if h == 0 {
        lemma_shift_split(c, 0, 0);
    } else {
        lemma_path_node_of(c, alpha, (h - 1) as nat);
        lemma_shift_split(c, 0, (RANGE_BITS - h) as u128);
    }
}

/// The comparison tables agree below the compare point: when, in every dimension, the
/// sender's table holds the comparison receiver's shares for the input `cp[i]` (set as its
/// little-endian bytes) and the receiver's table the comparison sender's shares, with
/// messages that match, their shares agree on every node below the input's path.
pub proof fn lemma_idcf_tables_agree(
    sender_table: Seq<Vec<[u8; 16]>>,
    receiver_table: Seq<Vec<[u8; 16]>>,
    cp: Seq<u128>,
    keys: Seq<u128>,
    betas: Seq<u128>,
    roots: Seq<u128>,
    alphas: Seq<Seq<bool>>,
    msgs: Seq<Seq<Seq<u8>>>,
)
    requires
        point_ok(cp),
        forall|i: int, l: int|
            0 <= i < DIMENSION2 && 1 <= l <= RANGE_BITS ==> #[trigger] alphas[i][l] == crate::idcf_receiver::byte_bit(
                u128_to_le(cp[i]),
                RANGE_BITS - l,
            ),
        forall|i: int|
            0 <= i < DIMENSION2 ==> #[trigger] crate::idcf_model::messages_match(
                keys[i],
                betas[i],
                alphas[i],
                msgs[i],
                RANGE_BITS as nat,
            ),
        forall|i: int, h: nat, x: nat|
            0 <= i < DIMENSION2 && 1 <= h <= RANGE_BITS && x < pow2(h) ==> #[trigger] sender_table[i]@[crate::idcf_sender::node_index(
                h,
                x,
            )]@ == u128_to_le(crate::idcf_model::r_share(roots[i], alphas[i], msgs[i], h, x)),
        forall|i: int, h: nat, x: nat|
            0 <= i < DIMENSION2 && 1 <= h <= RANGE_BITS && x < pow2(h) ==> #[trigger] receiver_table[i]@[crate::idcf_sender::node_index(
                h,
                x,
            )]@ == u128_to_le(crate::idcf_model::s_share(keys[i], h, x)),
    ensures
        agree_below(sender_table, receiver_table, cp),
{
    assert forall|i: int, h: usize, x: u128|
        0 <= i < DIMENSION2 && h <= RANGE_BITS && x < cp[i] >> ((RANGE_BITS - h) as u128) implies #[trigger] sender_table[i]@[node_at(
        h,
        x,
    )]@ == receiver_table[i]@[node_at(h, x)]@ by {
        let c = cp[i];
        if h == 0 {
            lemma_shift_split(c, 0, 0);
        } else {
            assert forall|l: int| 1 <= l <= RANGE_BITS implies #[trigger] alphas[i][l] == ((c >> ((RANGE_BITS
                - l) as u128)) & 1 == 1) by {
                lemma_byte_bit_of(c, RANGE_BITS - l);
            }
            lemma_path_node_of(c, alphas[i], h as nat);
            lemma_prefix_fits(c, h);
            let rs = crate::idcf_model::r_share(roots[i], alphas[i], msgs[i], h as nat, x as nat);
            let ss = crate::idcf_model::s_share(keys[i], h as nat, x as nat);
            crate::idcf_model::lemma_idcf_shares_compare(
                keys[i],
                betas[i],
                roots[i],
                alphas[i],
                msgs[i],
                RANGE_BITS as nat,
                h as nat,
                x as nat,
            );
            assert(rs ^ ss == 0u128);
            assert(rs == ss) by (bit_vector)
                requires
                    rs ^ ss == 0u128,
            ;
            assert(node_at(h, x) == crate::idcf_sender::node_index(h as nat, x as nat));
        }
    }
}

} // verus!
