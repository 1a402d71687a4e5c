//! The deterministic parts of the synthetic data generator: grid origins, points drawn near
//! an origin, the range test between two points, and how intersections are spread over
//! the origins' mini universes.
use vstd::prelude::*;
use crate::psi_config::{DIMENSION, RADIUS, RANGE_BITS};

verus! {

/// The grid origin of coordinate `p`: `p` with its `RANGE_BITS` low bits cleared.
pub open spec fn origin_coord(p: u128) -> u128 {
    (p >> 10u128) << 10u128
}

/// A grid origin is the coordinate rounded down to a multiple of 1024 (`2^RANGE_BITS`): a
/// multiple of 1024, at most the coordinate and less than 1024 below it.
pub proof fn lemma_origin_coord_rounds_down(p: u128)
    ensures
        origin_coord(p) % 1024 == 0,
        origin_coord(p) <= p,
        p - origin_coord(p) < 1024,
{
    assert(((p >> 10u128) << 10u128) % 1024 == 0 && (p >> 10u128) << 10u128 <= p && p - ((p >> 10u128)
        << 10u128) < 1024) by (bit_vector);
}

/// The origin of a point's grid cell.
pub fn get_origin(point: &[u128; 4]) -> (origin: [u128; 4])
    ensures
        forall|i: int| 0 <= i < DIMENSION ==> #[trigger] origin@[i] == origin_coord(point@[i]),
{
    let mut origin = [0u128; 4];
    let mut i: usize = 0;
    while i < DIMENSION
        invariant
            i <= DIMENSION,
            forall|k: int| 0 <= k < i ==> #[trigger] origin@[k] == origin_coord(point@[k]),
        decreases DIMENSION - i,
    {
        origin[i] = point[i];
        origin[i] = (origin[i] >> 10u32) << 10u32;
        i += 1;
    }
    origin
}

/// Whether every coordinate of `point2` is within `RADIUS` of that of `point1`.
pub open spec fn within_radius(point1: Seq<u128>, point2: Seq<u128>) -> bool {
    forall|d: int|
        0 <= d < DIMENSION ==> !(#[trigger] point2[d] + RADIUS < point1[d] || point2[d] > point1[d] + RADIUS)
}

/// The range test compares all four coordinates: two points pass exactly when, in each of
/// the coordinates `0, 1, 2, 3`, they are at most 250 apart; one coordinate further apart
/// fails the test.
pub proof fn lemma_within_radius_all_coordinates(point1: Seq<u128>, point2: Seq<u128>)
    ensures
        within_radius(point1, point2) <==> forall|d: int|
            0 <= d < 4 ==> #[trigger] point1[d] - point2[d] <= 250 && point2[d] - point1[d] <= 250,
{
    assert(DIMENSION == 4 && RADIUS == 250);
}

/// Whether the two points are within `RADIUS` of each other in every coordinate.
pub fn in_range(point1: [u128; 4], point2: [u128; 4]) -> (r: bool)
    requires
        forall|d: int| 0 <= d < DIMENSION ==> #[trigger] point1@[d] + RADIUS <= u128::MAX,
        forall|d: int| 0 <= d < DIMENSION ==> #[trigger] point2@[d] + RADIUS <= u128::MAX,
    ensures
        r == within_radius(point1@, point2@),
{
    let mut dim: usize = 0;
    while dim < DIMENSION
        invariant
            dim <= DIMENSION,
            forall|d: int| 0 <= d < DIMENSION ==> #[trigger] point1@[d] + RADIUS <= u128::MAX,
            forall|d: int| 0 <= d < DIMENSION ==> #[trigger] point2@[d] + RADIUS <= u128::MAX,
            forall|d: int|
                0 <= d < dim ==> !(#[trigger] point2@[d] + RADIUS < point1@[d] || point2@[d] > point1@[d]
                    + RADIUS),
        decreases DIMENSION - dim,
    {
        if (point2[dim] + (RADIUS as u128) < point1[dim]) || (point2[dim] > point1[dim] + (RADIUS as u128)) {
            return false;
        }
        dim += 1;
    }
    true
}

/// A point of the cell at `origin`: each coordinate of `random` reduced below
/// `2^RANGE_BITS` and added to the origin's.
pub fn point_near(random: &[u128; 4], origin: &[u128; 4]) -> (p: [u128; 4])
    requires
        forall|d: int| 0 <= d < DIMENSION ==> #[trigger] origin@[d] + random@[d] % 1024 <= u128::MAX,
    ensures
        forall|d: int| 0 <= d < DIMENSION ==> #[trigger] p@[d] == random@[d] % 1024 + origin@[d],
{
    let mut p = *random;
    let mut d: usize = 0;
    while d < DIMENSION
        invariant
            d <= DIMENSION,
            forall|k: int| 0 <= k < DIMENSION ==> #[trigger] origin@[k] + random@[k] % 1024 <= u128::MAX,
            forall|k: int| 0 <= k < d ==> #[trigger] p@[k] == random@[k] % 1024 + origin@[k],
            forall|k: int| d <= k < DIMENSION ==> #[trigger] p@[k] == random@[k],
        decreases DIMENSION - d,
    {
        p[d] = (p[d] % 1024) + origin[d];
        d += 1;
    }
    p
}

/// The number of nonzero entries among the first `i`.
pub open spec fn nonzero_before(s: Seq<usize>, i: int) -> nat
    decreases i,
{
    if i <= 0 {
        0
    } else {
        nonzero_before(s, i - 1) + if s[i - 1] > 0 { 1nat } else { 0nat }
    }
}

/// `nonzero_before` counts the nonzero entries: over the first `i` entries it is the
/// length of those entries kept by the filter `x > 0`.
pub proof fn lemma_nonzero_before_counts(s: Seq<usize>, i: int)
    requires
        0 <= i <= s.len(),
    ensures
        nonzero_before(s, i) == s.take(i).filter(|x: usize| x > 0).len(),
    decreases i,
{
    reveal(Seq::filter);
    if i > 0 {
        lemma_nonzero_before_counts(s, i - 1);
        assert(s.take(i).drop_last() =~= s.take(i - 1));
        assert(s.take(i).last() == s[i - 1]);
    }
}

/// The number of nonzero entries.
pub fn count_nonzero(bins: &Vec<usize>) -> (r: usize)
    ensures
        r == nonzero_before(bins@, bins@.len() as int),
        r == bins@.filter(|x: usize| x > 0).len(),
{
    proof {
        lemma_nonzero_before_counts(bins@, bins@.len() as int);
        assert(bins@.take(bins@.len() as int) =~= bins@);
    }
    let mut r: usize = 0;
    let mut i: usize = 0;
    while i < bins.len()
        invariant
            i <= bins@.len(),
            r == nonzero_before(bins@, i as int),
            r <= i,
        decreases bins@.len() - i,
    {
        if bins[i] > 0 {
            r += 1;
        }
        i += 1;
    }
    r
}

/// Drops a ball into `bin` unless it already holds `max_per_bin`; says whether it did.
pub fn place_ball(bins: &mut Vec<usize>, bin: usize, max_per_bin: usize) -> (placed: bool)
    requires
        bin < old(bins)@.len(),
    ensures
        placed == (old(bins)@[bin as int] < max_per_bin),
        final(bins)@ == if placed {
            old(bins)@.update(bin as int, (old(bins)@[bin as int] + 1) as usize)
        } else {
            old(bins)@
        },
{
    if bins[bin] < max_per_bin {
        bins[bin] = bins[bin] + 1;
        true
    } else {
        false
    }
}

/// How many intersections each origin's mini universe gets: one where the universe is
/// nonempty and the bin of its rank among the nonempty universes received a ball.
pub fn intersection_sizes(mini_universe_sizes: &Vec<usize>, intersect_bins: &Vec<usize>) -> (r: Vec<usize>)
    requires
        intersect_bins@.len() >= nonzero_before(mini_universe_sizes@, mini_universe_sizes@.len() as int),
    ensures
        r@.len() == mini_universe_sizes@.len(),
        forall|i: int|
            0 <= i < r@.len() ==> #[trigger] r@[i] == if mini_universe_sizes@[i] > 0
                && intersect_bins@[nonzero_before(mini_universe_sizes@, i) as int] > 0 {
                1usize
            } else {
                0usize
            },
{
    let n = mini_universe_sizes.len();
    let mut r: Vec<usize> = Vec::new();
    let mut intersect_bin_index: usize = 0;
    let mut i: usize = 0;
    while i < n
        invariant
            n == mini_universe_sizes@.len(),
            intersect_bins@.len() >= nonzero_before(mini_universe_sizes@, n as int),
            i <= n,
            r@.len() == i,
            intersect_bin_index == nonzero_before(mini_universe_sizes@, i as int),
            intersect_bin_index <= i,
            forall|k: int|
                0 <= k < i ==> #[trigger] r@[k] == if mini_universe_sizes@[k] > 0
                    && intersect_bins@[nonzero_before(mini_universe_sizes@, k) as int] > 0 {
                    1usize
                } else {
                    0usize
                },
        decreases n - i,
    {
        proof {
            lemma_nonzero_before_mono(mini_universe_sizes@, i as int + 1, n as int);
        }
        let mut v: usize = 0;
        if mini_universe_sizes[i] > 0 {
            if intersect_bins[intersect_bin_index] > 0 {
                v = 1;
            }
            intersect_bin_index += 1;
        }
        r.push(v);
        i += 1;
    }
    r
}

/// Counting over a longer prefix counts at least as many.
pub proof fn lemma_nonzero_before_mono(s: Seq<usize>, i: int, j: int)
    requires
        0 <= i <= j,
    ensures
        nonzero_before(s, i) <= nonzero_before(s, j),
    decreases j - i,
{
    if i < j {
        lemma_nonzero_before_mono(s, i, j - 1);
    }
}

} // verus!
