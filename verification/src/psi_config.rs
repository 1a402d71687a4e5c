//! Parameters of the structure-aware PSI: points of `DIMENSION` coordinates, each compared
//! against two range bounds of `RANGE_BITS` bits, for a ball of radius `RADIUS`.
use vstd::prelude::*;

verus! {

/// Coordinates per point.
pub const DIMENSION: usize = 4;

/// Range comparisons per point: two per coordinate.
pub const DIMENSION2: usize = 8;

/// Radius of the ball around each sender point.
pub const RADIUS: usize = 250;

/// Bits of a recentred coordinate: coordinates live in `[0, 2^RANGE_BITS)`.
pub const RANGE_BITS: usize = 10;

/// Location functions of the hash tables.
pub const LOC_FUNC_COUNT: usize = 3;

/// Prefix lengths at which the search compares digests.
pub const PREF_LENGTH: [usize; 5] = [2, 4, 6, 8, 10];

/// Set size: `2^16`.
pub const N: usize = 65536;

} // verus!
