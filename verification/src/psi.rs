//! Grid origins for the two-dimensional variant of the protocol, whose cells have
//! `2^RANGE_BITS` points per side.
use vstd::prelude::*;

verus! {

/// Coordinates per point in this variant.
pub const DIMENSION: usize = 2;

/// Bits of a coordinate within its cell in this variant.
pub const RANGE_BITS: usize = 5;

/// The origin of a point's cell: each coordinate with its `RANGE_BITS` low bits cleared.
pub fn get_origin(point: &[u128; 2]) -> (origin: [u128; 2])
    ensures
        forall|i: int| 0 <= i < DIMENSION ==> #[trigger] origin@[i] == (point@[i] >> 5u128) << 5u128,
{
    let mut origin = [0u128; 2];
    let mut i: usize = 0;
    while i < DIMENSION
        invariant
            i <= DIMENSION,
            forall|k: int| 0 <= k < i ==> #[trigger] origin@[k] == (point@[k] >> 5u128) << 5u128,
        decreases DIMENSION - i,
    {
        origin[i] = point[i];
        origin[i] = (origin[i] >> 5u32) << 5u32;
        i += 1;
    }
    origin
}


/// What `get_origin` gives a coordinate `p`: a multiple of `2^RANGE_BITS`, at most `p` and
/// less than `2^RANGE_BITS` below it; and an origin is its own origin, so that taking the
/// origin twice changes nothing.
pub proof fn lemma_cell_origin(p: u128)
    ensures
        ((p >> 5u128) << 5u128) % 32 == 0,
        (p >> 5u128) << 5u128 <= p,
        p - ((p >> 5u128) << 5u128) < 32,
        (((p >> 5u128) << 5u128) >> 5u128) << 5u128 == (p >> 5u128) << 5u128,
{
    assert(((p >> 5u128) << 5u128) % 32 == 0 && (p >> 5u128) << 5u128 <= p && p - ((p >> 5u128) << 5u128) < 32
        && (((p >> 5u128) << 5u128) >> 5u128) << 5u128 == (p >> 5u128) << 5u128) by (bit_vector);
}

/// The sender of the two-dimensional variant, for `n` points and a table of `table_size`
/// bins.
pub struct SAPSISender {
    n: usize,
    table_size: usize,
}

impl SAPSISender {
    /// The number of points.
    pub closed spec fn spec_n(&self) -> usize {
        self.n
    }

    /// The number of bins.
    pub closed spec fn spec_table_size(&self) -> usize {
        self.table_size
    }

    /// A sender for `n` points and `table_size` bins.
    pub fn new(n: usize, table_size: usize) -> (r: Self)
        ensures
            r.spec_n() == n,
            r.spec_table_size() == table_size,
    {
        SAPSISender { n, table_size }
    }

    /// The cell origins of the sender's points, in order: what it places into its table.
    pub fn send(&self, values: &[[u128; 2]]) -> (origins: Vec<[u128; 2]>)
        ensures
            origins@.len() == values@.len(),
            forall|k: int, i: int|
                0 <= k < values@.len() && 0 <= i < DIMENSION ==> #[trigger] origins@[k]@[i] == (values@[k]@[i]
                    >> 5u128) << 5u128,
    {
        let mut origins: Vec<[u128; 2]> = Vec::new();
        let mut k: usize = 0;
        while k < values.len()
            invariant
                k <= values@.len(),
                origins@.len() == k,
                forall|k2: int, i: int|
                    0 <= k2 < k && 0 <= i < DIMENSION ==> #[trigger] origins@[k2]@[i] == (values@[k2]@[i]
                        >> 5u128) << 5u128,
            decreases values@.len() - k,
        {
            origins.push(get_origin(&values[k]));
            k += 1;
        }
        origins
    }
}

} // verus!
