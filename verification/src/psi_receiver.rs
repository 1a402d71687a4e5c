//! The PSI receiver's logic: the four recentrings of a point (one per choice of lower
//! neighbouring cell in each dimension), the prefixes of a transformed point, and the
//! digests the receiver publishes for a point of a bin, hashed as the sender's search
//! hashes its nodes.
use vstd::prelude::*;
use vstd::arithmetic::power2::pow2;
use crate::psi_sender::{all_path_published, has_digest, is_path_digest, path_hashes, point_ok, table_ok};

verus! {

/// Coordinates per receiver point.
pub const DIMENSION: usize = 2;

/// Range comparisons per receiver point.
pub const DIMENSION2: usize = 4;

/// Radius of the receiver's balls.
pub const RADIUS: usize = 14;

/// Bits of a recentred receiver coordinate.
pub const RANGE_BITS: usize = 6;

/// Location functions of the receiver's table.
pub const LOC_FUNC_COUNT: usize = 3;

/// The grid line at or below `p`: `(p >> (RANGE_BITS - 1)) << (RANGE_BITS - 1)`.
pub open spec fn cell_origin(p: u128) -> u128 {
    (p >> 5u128) << 5u128
}

/// The origin of coordinate `p` for `mask`: one cell lower where bit `i` of `mask` is set.
pub open spec fn masked_origin(p: u128, mask: int, i: int) -> int {
    if (mask / pow2_small(i)) % 2 == 1 {
        cell_origin(p) - 32
    } else {
        cell_origin(p) as int
    }
}

/// `2^i` for the two dimensions.
pub open spec fn pow2_small(i: int) -> int {
    if i == 0 {
        1
    } else {
        2
    }
}

/// The `k` lowest bits of `x`.
pub open spec fn low_bits(x: u128, k: u128) -> u128 {
    x & (((1u128 << k) - 1) as u128)
}

/// The receiver's state: its set size and the number of bins.
pub struct SAPSIReceiver {
    n: usize,
    table_size: usize,
}

/// Entry `m` of a recentring of `point`: per dimension `i`, the origin for `mask = m`
/// (twice) and the two transformed values.
pub open spec fn recentred_ok(e: ([u128; 4], [u128; 4]), point: Seq<u128>, m: int) -> bool {
    forall|i: int|
        0 <= i < DIMENSION ==> {
            &&& #[trigger] e.0@[2 * i] == masked_origin(point[i], m, i)
            &&& e.0@[2 * i + 1] == masked_origin(point[i], m, i)
            &&& e.1@[2 * i] == point[i] - masked_origin(point[i], m, i)
            &&& e.1@[2 * i + 1] == 63 - (point[i] - masked_origin(point[i], m, i))
        }
}

/// What recentring `m` does: dimension 0 is moved one cell (32) down in recentrings 1 and 3,
/// dimension 1 in recentrings 2 and 3, and no other; the origin of a dimension is the
/// point's coordinate with its five low bits cleared, less 32 where it is moved, and the
/// transformed values are the offset from that origin and 63 minus it.
pub proof fn lemma_recentring_moves_masked_dimensions(e: ([u128; 4], [u128; 4]), point: Seq<u128>, m: int)
    requires
        0 <= m < 4,
        recentred_ok(e, point, m),
    ensures
        e.0@[0] == point[0] - point[0] % 32 - (if m == 1 || m == 3 { 32int } else { 0int }),
        e.0@[1] == e.0@[0],
        e.1@[0] == point[0] - e.0@[0],
        e.1@[1] == 63 - (point[0] - e.0@[0]),
        e.0@[2] == point[1] - point[1] % 32 - (if m == 2 || m == 3 { 32int } else { 0int }),
        e.0@[3] == e.0@[2],
        e.1@[2] == point[1] - e.0@[2],
        e.1@[3] == 63 - (point[1] - e.0@[2]),
{
    lemma_origin_is_cleared(point[0]);
    lemma_origin_is_cleared(point[1]);
    assert(e.0@[2 * 0int] == masked_origin(point[0], m, 0));
    assert(e.0@[2 * 1int] == masked_origin(point[1], m, 1));
}

/// `cell_origin` clears the five low bits.
proof fn lemma_origin_is_cleared(p: u128)
    ensures
        cell_origin(p) == p - p % 32,
{
    crate::psi::lemma_cell_origin(p);
    let c = cell_origin(p);
    let q = p / 32;
    let k = c / 32;
    assert(p == 32 * q + p % 32);
    assert(c == 32 * k);
}

/// The four recentrings of a point: for each `mask < 4`, per dimension `i`, the origin
/// (twice) and the two transformed values `p - o` and `2^RANGE_BITS - 1 - (p - o)`.
pub fn preprocess_point(point: &[u128; 2]) -> (r: Vec<([u128; 4], [u128; 4])>)
    requires
        forall|i: int| 0 <= i < DIMENSION ==> #[trigger] point@[i] >= 32,
    ensures
        r@.len() == 4,
        forall|m: int| 0 <= m < 4 ==> #[trigger] recentred_ok(r@[m], point@, m),
{
    let mut grid_origin = [0u128; 4];
    let mut i: usize = 0;
    while i < DIMENSION
        invariant
            i <= DIMENSION,
            forall|k: int| 0 <= k < DIMENSION ==> #[trigger] point@[k] >= 32,
            forall|k: int| 0 <= k < i ==> #[trigger] grid_origin@[2 * k] == cell_origin(point@[k]),
            forall|k: int| 0 <= k < i ==> #[trigger] grid_origin@[2 * k + 1] == cell_origin(point@[k]),
        decreases DIMENSION - i,
    {
        let g = (point[i] >> 5u32) << 5u32;
        grid_origin[2 * i] = g;
        grid_origin[2 * i + 1] = g;
        i += 1;
    }
    let mut result: Vec<([u128; 4], [u128; 4])> = Vec::new();
    let mut mask: usize = 0;
    while mask < 4
        invariant
            mask <= 4,
            result@.len() == mask,
            forall|k: int| 0 <= k < DIMENSION ==> #[trigger] point@[k] >= 32,
            forall|k: int| 0 <= k < DIMENSION ==> #[trigger] grid_origin@[2 * k] == cell_origin(point@[k]),
            forall|k: int| 0 <= k < DIMENSION ==> #[trigger] grid_origin@[2 * k + 1] == cell_origin(point@[k]),
            forall|m: int| 0 <= m < mask ==> #[trigger] recentred_ok(result@[m], point@, m),
        decreases 4 - mask,
    {
        let mut universe_origin = grid_origin;
        let mut transformed_point = [0u128; 4];
        let mut i: usize = 0;
        while i < DIMENSION
            invariant
                i <= DIMENSION,
                mask < 4,
                forall|k: int| 0 <= k < DIMENSION ==> #[trigger] point@[k] >= 32,
                forall|k: int| 0 <= k < DIMENSION ==> #[trigger] grid_origin@[2 * k] == cell_origin(point@[k]),
                forall|k: int| 0 <= k < DIMENSION ==> #[trigger] grid_origin@[2 * k + 1] == cell_origin(point@[k]),
                forall|k: int| i <= k < DIMENSION ==> #[trigger] universe_origin@[2 * k] == grid_origin@[2 * k],
                forall|k: int| i <= k < DIMENSION ==> #[trigger] universe_origin@[2 * k + 1] == grid_origin@[2 * k + 1],
                forall|k: int|
                    0 <= k < i ==> {
                        &&& #[trigger] universe_origin@[2 * k] == masked_origin(point@[k], mask as int, k)
                        &&& universe_origin@[2 * k + 1] == masked_origin(point@[k], mask as int, k)
                        &&& transformed_point@[2 * k] == point@[k] - masked_origin(point@[k], mask as int, k)
                        &&& transformed_point@[2 * k + 1] == 63 - (point@[k] - masked_origin(
                            point@[k],
                            mask as int,
                            k,
                        ))
                    },
            decreases DIMENSION - i,
        {
            let p = point[i];
            assert(cell_origin(p) <= p && p - cell_origin(p) < 32 && cell_origin(p) >= 32) by (bit_vector)
                requires
                    p >= 32,
            ;
            proof {
                assert(pow2_small(i as int) == if i == 0 { 1int } else { 2int });
            }
            let bit = if i == 0 { mask % 2 } else { (mask / 2) % 2 };
            if bit == 1 {
                universe_origin[2 * i] = universe_origin[2 * i] - 32;
                universe_origin[2 * i + 1] = universe_origin[2 * i + 1] - 32;
            }
            transformed_point[2 * i] = p - universe_origin[2 * i];
            transformed_point[2 * i + 1] = 63 - (p - universe_origin[2 * i + 1]);
            proof {
                assert(universe_origin@[2 * i as int] == masked_origin(point@[i as int], mask as int, i as int));
                assert(universe_origin@[2 * i as int + 1] == masked_origin(point@[i as int], mask as int, i as int));
                assert forall|k: int| 0 <= k < i + 1 implies {
                    &&& #[trigger] universe_origin@[2 * k] == masked_origin(point@[k], mask as int, k)
                    &&& universe_origin@[2 * k + 1] == masked_origin(point@[k], mask as int, k)
                    &&& transformed_point@[2 * k] == point@[k] - masked_origin(point@[k], mask as int, k)
                    &&& transformed_point@[2 * k + 1] == 63 - (point@[k] - masked_origin(point@[k], mask as int, k))
                } by {
                    if k == i {
                        assert(transformed_point@[2 * k] == point@[k] - masked_origin(point@[k], mask as int, k));
                        assert(transformed_point@[2 * k + 1] == 63 - (point@[k] - masked_origin(point@[k], mask as int, k)));
                    } else {
                        assert(universe_origin@[2 * k] == masked_origin(point@[k], mask as int, k));
                    }
                }
            }
            i += 1;
        }
        let ghost old_r = result@;
        result.push((universe_origin, transformed_point));
        proof {
            assert(recentred_ok((universe_origin, transformed_point), point@, mask as int));
            assert forall|m: int| 0 <= m < mask + 1 implies #[trigger] recentred_ok(result@[m], point@, m) by {
                if m < mask {
                    assert(result@[m] == old_r[m]);
                }
            }
        }
        mask += 1;
    }
    result
}

/// Each of `prev` with dimension `dim` set to each of `vals`, in that order.
pub open spec fn extend_all(prev: Seq<Seq<u128>>, vals: Seq<u128>, dim: int) -> Seq<Seq<u128>>
    decreases prev.len(),
{
    if prev.len() == 0 {
        Seq::empty()
    } else {
        extend_all(prev.drop_last(), vals, dim) + vals.map_values(|v: u128| prev.last().update(dim, v))
    }
}

/// The prefix values of a transformed coordinate: its 3, 4, 5 and 6 lowest bits.
pub open spec fn prefix_vals(x: u128) -> Seq<u128> {
    seq![low_bits(x, 3), low_bits(x, 4), low_bits(x, 5), low_bits(x, 6)]
}

/// The prefixes of the first `d` dimensions of `point`, every other dimension zero.
pub open spec fn prefixes(point: Seq<u128>, d: nat) -> Seq<Seq<u128>>
    decreases d,
{
    if d == 0 {
        seq![Seq::new(DIMENSION2 as nat, |_i: int| 0u128)]
    } else {
        extend_all(prefixes(point, (d - 1) as nat), prefix_vals(point[d - 1]), d - 1)
    }
}

/// `e` has four entries, zero from dimension `lo` on.
pub open spec fn zero_from(e: Seq<u128>, lo: int) -> bool {
    &&& e.len() == DIMENSION2
    &&& forall|t: int| lo <= t < DIMENSION2 ==> #[trigger] e[t] == 0
}

proof fn lemma_extend_all_zero(prev: Seq<Seq<u128>>, vals: Seq<u128>, dim: int)
    requires
        0 <= dim < DIMENSION2,
        forall|a: int| 0 <= a < prev.len() ==> #[trigger] zero_from(prev[a], dim),
    ensures
        forall|a: int|
            0 <= a < extend_all(prev, vals, dim).len() ==> #[trigger] zero_from(extend_all(prev, vals, dim)[a], dim + 1),
    decreases prev.len(),
{
    if prev.len() > 0 {
        let p = prev.drop_last();
        assert forall|a: int| 0 <= a < p.len() implies #[trigger] zero_from(p[a], dim) by {
            assert(p[a] == prev[a]);
        }
        lemma_extend_all_zero(p, vals, dim);
        let last = prev.last();
        assert(zero_from(prev[prev.len() - 1], dim));
        let x = extend_all(p, vals, dim);
        let y = vals.map_values(|v: u128| last.update(dim, v));
        assert forall|a: int| 0 <= a < (x + y).len() implies #[trigger] zero_from((x + y)[a], dim + 1) by {
            if a < x.len() {
                assert((x + y)[a] == x[a]);
            } else {
                assert((x + y)[a] == y[a - x.len()]);
            }
        }
    }
}

/// The prefixes of the first `d` dimensions are zero from dimension `d` on.
pub proof fn lemma_prefixes_zero(point: Seq<u128>, d: nat)
    requires
        d <= DIMENSION2,
    ensures
        forall|a: int| 0 <= a < prefixes(point, d).len() ==> #[trigger] zero_from(prefixes(point, d)[a], d as int),
    decreases d,
{
    if d > 0 {
        lemma_prefixes_zero(point, (d - 1) as nat);
        lemma_extend_all_zero(prefixes(point, (d - 1) as nat), prefix_vals(point[d - 1]), d - 1);
        let e = extend_all(prefixes(point, (d - 1) as nat), prefix_vals(point[d - 1]), d - 1);
        assert(prefixes(point, d) == e);
        assert forall|a: int| 0 <= a < prefixes(point, d).len() implies #[trigger] zero_from(prefixes(point, d)[a], d as int) by {
            assert(zero_from(e[a], (d - 1) + 1));
        }
    } else {
        assert(zero_from(prefixes(point, 0)[0], 0));
    }
}

/// Entry `4 * k + j` of `extend_all(prev, vals, dim)` is entry `k` of `prev` with dimension
/// `dim` set to `vals[j]`.
proof fn lemma_extend_all_index(prev: Seq<Seq<u128>>, vals: Seq<u128>, dim: int)
    requires
        vals.len() == 4,
    ensures
        extend_all(prev, vals, dim).len() == 4 * prev.len(),
        forall|k: int, j: int|
            0 <= k < prev.len() && 0 <= j < 4 ==> #[trigger] extend_all(prev, vals, dim)[4 * k + j] == prev[k].update(
                dim,
                vals[j],
            ),
    decreases prev.len(),
{
    if prev.len() > 0 {
        let p = prev.drop_last();
        lemma_extend_all_index(p, vals, dim);
        let x = extend_all(p, vals, dim);
        let y = vals.map_values(|v: u128| prev.last().update(dim, v));
        assert forall|k: int, j: int|
            0 <= k < prev.len() && 0 <= j < 4 implies #[trigger] extend_all(prev, vals, dim)[4 * k + j] == prev[k].update(
                dim,
                vals[j],
            ) by {
            if k < prev.len() - 1 {
                assert((x + y)[4 * k + j] == x[4 * k + j]);
                assert(p[k] == prev[k]);
            } else {
                assert((x + y)[4 * k + j] == y[j]);
            }
        }
    }
}

/// The prefixes of a transformed point `p` are all 256 combinations of its coordinates'
/// low 3, 4, 5 and 6 bits: entry `64a + 16b + 4c + d` keeps the low `a + 3` bits of `p[0]`,
/// the low `b + 3` bits of `p[1]`, the low `c + 3` bits of `p[2]` and the low `d + 3` bits of
/// `p[3]`.
#[verifier::rlimit(50)]
#[verifier::spinoff_prover]
pub proof fn lemma_prefixes_are_low_bits(p: Seq<u128>)
    requires
        p.len() == 4,
    ensures
        prefixes(p, 4).len() == 256,
        forall|a: int, b: int, c: int, d: int|
            0 <= a < 4 && 0 <= b < 4 && 0 <= c < 4 && 0 <= d < 4 ==> #[trigger] prefixes(p, 4)[64 * a + 16 * b + 4 * c
                + d] == seq![
                (p[0] as nat % pow2((a + 3) as nat)) as u128,
                (p[1] as nat % pow2((b + 3) as nat)) as u128,
                (p[2] as nat % pow2((c + 3) as nat)) as u128,
                (p[3] as nat % pow2((d + 3) as nat)) as u128,
            ],
{
    vstd::arithmetic::power2::lemma2_to64();
    assert forall|x: u128| #[trigger] prefix_vals(x) == seq![x % 8, x % 16, x % 32, x % 64] by {
        assert(low_bits(x, 3) == x % 8 && low_bits(x, 4) == x % 16 && low_bits(x, 5) == x % 32 && low_bits(x, 6)
            == x % 64) by (bit_vector);
        assert(prefix_vals(x) =~= seq![x % 8, x % 16, x % 32, x % 64]);
    }
    let z = Seq::new(DIMENSION2 as nat, |_i: int| 0u128);
    let p0 = prefixes(p, 0);
    let p1 = prefixes(p, 1);
    let p2 = prefixes(p, 2);
    let p3 = prefixes(p, 3);
    let p4 = prefixes(p, 4);
    let v0 = prefix_vals(p[0]);
    let v1 = prefix_vals(p[1]);
    let v2 = prefix_vals(p[2]);
    let v3 = prefix_vals(p[3]);
    lemma_extend_all_index(p0, v0, 0);
    lemma_extend_all_index(p1, v1, 1);
    lemma_extend_all_index(p2, v2, 2);
    lemma_extend_all_index(p3, v3, 3);
    assert forall|a: int, b: int, c: int, d: int|
        0 <= a < 4 && 0 <= b < 4 && 0 <= c < 4 && 0 <= d < 4 implies #[trigger] p4[64 * a + 16 * b + 4 * c + d] == seq![
            (p[0] as nat % pow2((a + 3) as nat)) as u128,
            (p[1] as nat % pow2((b + 3) as nat)) as u128,
            (p[2] as nat % pow2((c + 3) as nat)) as u128,
            (p[3] as nat % pow2((d + 3) as nat)) as u128,
        ] by {
        assert(p1[4 * 0 + a] == z.update(0, v0[a]));
        assert(p2[4 * a + b] == p1[a].update(1, v1[b]));
        assert(p3[4 * (4 * a + b) + c] == p2[4 * a + b].update(2, v2[c]));
        assert(p4[4 * (16 * a + 4 * b + c) + d] == p3[16 * a + 4 * b + c].update(3, v3[d]));
        assert(4 * (16 * a + 4 * b + c) + d == 64 * a + 16 * b + 4 * c + d);
        assert(pow2(3) == 8 && pow2(4) == 16 && pow2(5) == 32 && pow2(6) == 64);
        assert(v0 == seq![p[0] % 8, p[0] % 16, p[0] % 32, p[0] % 64]);
        assert(v1 == seq![p[1] % 8, p[1] % 16, p[1] % 32, p[1] % 64]);
        assert(v2 == seq![p[2] % 8, p[2] % 16, p[2] % 32, p[2] % 64]);
        assert(v3 == seq![p[3] % 8, p[3] % 16, p[3] % 32, p[3] % 64]);
        assert(p4[64 * a + 16 * b + 4 * c + d] =~= seq![
            (p[0] as nat % pow2((a + 3) as nat)) as u128,
            (p[1] as nat % pow2((b + 3) as nat)) as u128,
            (p[2] as nat % pow2((c + 3) as nat)) as u128,
            (p[3] as nat % pow2((d + 3) as nat)) as u128,
        ]);
    }
}

/// The prefixes of a transformed point: per dimension its 3 to 6 lowest bits, in every
/// combination.
pub fn get_prefixes(point: &[u128; 4]) -> (r: Vec<[u128; 4]>)
    ensures
        r@.map_values(|p: [u128; 4]| p@) == prefixes(point@, DIMENSION2 as nat),
        r@.len() == 256,
        forall|a: int, b: int, c: int, d: int|
            0 <= a < 4 && 0 <= b < 4 && 0 <= c < 4 && 0 <= d < 4 ==> #[trigger] r@[64 * a + 16 * b + 4 * c + d]@
                == seq![
                (point@[0] as nat % pow2((a + 3) as nat)) as u128,
                (point@[1] as nat % pow2((b + 3) as nat)) as u128,
                (point@[2] as nat % pow2((c + 3) as nat)) as u128,
                (point@[3] as nat % pow2((d + 3) as nat)) as u128,
            ],
{
    let mut prefixes_v: Vec<[u128; 4]> = Vec::new();
    prefixes_v.push([0u128; 4]);
    proof {
        assert(prefixes_v@[0]@ =~= Seq::new(DIMENSION2 as nat, |_i: int| 0u128));
        assert(prefixes_v@.map_values(|p: [u128; 4]| p@) =~= prefixes(point@, 0));
    }
    let mut i: usize = 0;
    while i < DIMENSION2
        invariant
            i <= DIMENSION2,
            prefixes_v@.map_values(|p: [u128; 4]| p@) == prefixes(point@, i as nat),
        decreases DIMENSION2 - i,
    {
        let ghost prev = prefixes_v@.map_values(|p: [u128; 4]| p@);
        let ghost vals = prefix_vals(point@[i as int]);
        proof {
            lemma_prefixes_zero(point@, i as nat);
        }
        let mut new_prefixes: Vec<[u128; 4]> = Vec::new();
        let mut k: usize = 0;
        while k < prefixes_v.len()
            invariant
                i < DIMENSION2,
                forall|a: int| 0 <= a < prev.len() ==> #[trigger] zero_from(prev[a], i as int),
                k <= prefixes_v@.len(),
                prev == prefixes_v@.map_values(|p: [u128; 4]| p@),
                vals == prefix_vals(point@[i as int]),
                new_prefixes@.map_values(|p: [u128; 4]| p@) == extend_all(prev.take(k as int), vals, i as int),
            decreases prefixes_v@.len() - k,
        {
            let prefix = prefixes_v[k];
            let ghost before = new_prefixes@.map_values(|p: [u128; 4]| p@);
            let mut new_prefix = prefix;
            let x = point[i];
            let mut j: usize = 0;
            proof {
                assert(prev[k as int] == prefix@);
                assert(zero_from(prev[k as int], i as int));
                assert(x & (((1u128 << 0u128) - 1) as u128) == 0) by (bit_vector);
                assert(new_prefix@ =~= prefix@.update(i as int, low_bits(x, 0)));
            }
            while j < 6
                invariant
                    i < DIMENSION2,
                    j <= 6,
                    x == point@[i as int],
                    vals == prefix_vals(x),
                    new_prefix@ == prefix@.update(i as int, low_bits(x, j as u128)),
                    new_prefixes@.map_values(|p: [u128; 4]| p@) == before + vals.take(
                        if j <= 2 { 0int } else { j - 2 },
                    ).map_values(|v: u128| prefix@.update(i as int, v)),
                decreases 6 - j,
            {
                let cur = new_prefix[i];
                let nv = cur | (((x >> j) & 1) << j);
                assert(nv == low_bits(x, (j + 1) as u128)) by (bit_vector)
                    requires
                        cur == x & (((1u128 << j) - 1) as u128),
                        nv == cur | (((x >> j) & 1) << j),
                        j < 6,
                ;
                new_prefix[i] = nv;
                if j > 1 {
                    let ghost old_v = new_prefixes@;
                    new_prefixes.push(new_prefix);
                    proof {
                        let f = |p: [u128; 4]| p@;
                        let g = |v: u128| prefix@.update(i as int, v);
                        assert(new_prefixes@.map_values(f) =~= old_v.map_values(f).push(new_prefix@));
                        assert(vals.take(j - 1) =~= vals.take(j - 2).push(vals[j - 2]));
                        assert(vals.take(j - 1).map_values(g) =~= vals.take(j - 2).map_values(g).push(g(vals[j - 2])));
                        assert(new_prefix@ =~= prefix@.update(i as int, low_bits(x, (j + 1) as u128)));
                    }
                }
                j += 1;
            }
            proof {
                assert(vals.take(4) =~= vals);
                assert(prev[k as int] == prefix@);
                assert(prev.take(k as int + 1).drop_last() =~= prev.take(k as int));
                assert(prev.take(k as int + 1).last() == prev[k as int]);
            }
            k += 1;
        }
        proof {
            assert(prev.take(prefixes_v@.len() as int) =~= prev);
        }
        prefixes_v = new_prefixes;
        i += 1;
    }
    proof {
        lemma_prefixes_are_low_bits(point@);
        let f = |p: [u128; 4]| p@;
        assert(prefixes_v@.map_values(f).len() == prefixes_v@.len());
        assert forall|a: int, b: int, c: int, d: int|
            0 <= a < 4 && 0 <= b < 4 && 0 <= c < 4 && 0 <= d < 4 implies #[trigger] prefixes_v@[64 * a + 16 * b + 4 * c + d]@
                == seq![
                (point@[0] as nat % pow2((a + 3) as nat)) as u128,
                (point@[1] as nat % pow2((b + 3) as nat)) as u128,
                (point@[2] as nat % pow2((c + 3) as nat)) as u128,
                (point@[3] as nat % pow2((d + 3) as nat)) as u128,
            ] by {
            let k = 64 * a + 16 * b + 4 * c + d;
            assert(prefixes_v@.map_values(f)[k] == prefixes_v@[k]@);
            assert(prefixes(point@, 4)[k] == seq![
                (point@[0] as nat % pow2((a + 3) as nat)) as u128,
                (point@[1] as nat % pow2((b + 3) as nat)) as u128,
                (point@[2] as nat % pow2((c + 3) as nat)) as u128,
                (point@[3] as nat % pow2((d + 3) as nat)) as u128,
            ]);
        }
    }
    prefixes_v
}

/// `low_bits(x, k)` is at most 63 for `k <= 6`.
proof fn lemma_low_bits_small(x: u128, k: u128)
    requires
        k <= 6,
    ensures
        low_bits(x, k) <= 63,
{
    assert(x & (((1u128 << k) - 1) as u128) <= 63) by (bit_vector)
        requires
            k <= 6,
    ;
}

/// `e` has four entries, each at most 63.
pub open spec fn small_prefix(e: Seq<u128>) -> bool {
    &&& e.len() == DIMENSION2
    &&& forall|t: int| 0 <= t < DIMENSION2 ==> #[trigger] e[t] <= 63
}

proof fn lemma_extend_all_small(prev: Seq<Seq<u128>>, vals: Seq<u128>, dim: int)
    requires
        0 <= dim < DIMENSION2,
        forall|a: int| 0 <= a < prev.len() ==> #[trigger] small_prefix(prev[a]),
        forall|a: int| 0 <= a < vals.len() ==> #[trigger] vals[a] <= 63,
    ensures
        forall|a: int|
            0 <= a < extend_all(prev, vals, dim).len() ==> #[trigger] small_prefix(extend_all(prev, vals, dim)[a]),
    decreases prev.len(),
{
    if prev.len() > 0 {
        let p = prev.drop_last();
        assert forall|a: int| 0 <= a < p.len() implies #[trigger] small_prefix(p[a]) by {
            assert(p[a] == prev[a]);
        }
        lemma_extend_all_small(p, vals, dim);
        let last = prev.last();
        assert(small_prefix(prev[prev.len() - 1]));
        let x = extend_all(p, vals, dim);
        let y = vals.map_values(|v: u128| last.update(dim, v));
        assert forall|a: int| 0 <= a < (x + y).len() implies #[trigger] small_prefix((x + y)[a]) by {
            if a < x.len() {
                assert((x + y)[a] == x[a]);
            } else {
                assert((x + y)[a] == y[a - x.len()]);
                assert(vals[a - x.len()] <= 63);
            }
        }
    }
}

/// Every prefix has entries of at most 6 bits.
pub proof fn lemma_prefixes_small(point: Seq<u128>, d: nat)
    requires
        d <= DIMENSION2,
    ensures
        forall|a: int| 0 <= a < prefixes(point, d).len() ==> #[trigger] small_prefix(prefixes(point, d)[a]),
    decreases d,
{
    if d > 0 {
        lemma_prefixes_small(point, (d - 1) as nat);
        let x = point[d - 1];
        lemma_low_bits_small(x, 3);
        lemma_low_bits_small(x, 4);
        lemma_low_bits_small(x, 5);
        lemma_low_bits_small(x, 6);
        let vals = prefix_vals(x);
        assert forall|a: int| 0 <= a < vals.len() implies #[trigger] vals[a] <= 63 by {}
        lemma_extend_all_small(prefixes(point, (d - 1) as nat), vals, d - 1);
        let e = extend_all(prefixes(point, (d - 1) as nat), vals, d - 1);
        assert(prefixes(point, d) == e);
        assert forall|a: int| 0 <= a < prefixes(point, d).len() implies #[trigger] small_prefix(prefixes(point, d)[a]) by {
            assert(small_prefix(e[a]));
        }
    } else {
        assert(small_prefix(prefixes(point, 0)[0]));
    }
}

impl SAPSIReceiver {
    /// The set size.
    pub closed spec fn spec_n(&self) -> usize {
        self.n
    }

    /// The number of bins.
    pub closed spec fn spec_table_size(&self) -> usize {
        self.table_size
    }

    /// A receiver for `n` points in `table_size` bins.
    pub fn new(n: usize, table_size: usize) -> (r: Self)
        ensures
            r.spec_n() == n,
            r.spec_table_size() == table_size,
    {
        SAPSIReceiver { n, table_size }
    }

    /// The digests a receiver publishes so that the sender's search can meet them: for a
    /// point `v` of bin `index`, recentred with the shared configuration of
    /// `crate::psi_config` (`v` holding its `DIMENSION2` comparison values), the digests of
    /// exactly the nodes of `v`'s path whose lengths lie within `[cut, RANGE_BITS]`, each over the
    /// node's prefix values and the receiver's shares at the node, as the sender hashes
    /// them (`crate::psi_sender::lemma_psi_bin_complete` then finds `v`).
    pub fn path_point_hashes(
        &self,
        index: usize,
        table: &Vec<Vec<[u8; 16]>>,
        v: &[u128; 8],
        cut: usize,
    ) -> (r: Vec<[u8; 32]>)
        requires
            index <= u64::MAX,
            table_ok(table@),
            point_ok(v@),
            cut <= crate::psi_config::RANGE_BITS,
        ensures
            all_path_published(table@, index as u64, r@, cut as int, v@),
            forall|d: Seq<u8>| has_digest(r@, d) <==> is_path_digest(table@, index as u64, v@, cut as int, d),
    {
        path_hashes(table, index, v, cut)
    }
}

} // verus!
