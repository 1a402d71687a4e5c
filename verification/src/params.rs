//! Which LPN parameter set a set size uses, and whether the radius, range and prefix
//! lengths of the configuration agree with each other.
use vstd::prelude::*;
use crate::psi_config::{PREF_LENGTH, RADIUS, RANGE_BITS};

verus! {

/// The primal LPN parameter sets, named by the logarithm of the VOLE length they produce.
#[derive(Debug, Clone, Copy, PartialEq, Eq)]
pub enum LpnParamSet {
    Lpn12,
    Lpn16,
    Lpn20,
}

/// Why a configuration is refused.
#[derive(Debug, Clone, Copy, PartialEq, Eq)]
pub enum ParamError {
    /// The set size is not `2^8`, `2^12` or `2^16`.
    InvalidSize,
    /// The radius is supported, but with another number of range bits.
    RangeBitsMismatch,
    /// The radius is supported, but with other prefix lengths.
    PrefLengthMismatch,
    /// The radius is none of 10, 30, 60, 120, 250.
    InvalidRadius,
}

/// The parameter set of a set size.
pub open spec fn param_for_size(size: usize) -> Option<LpnParamSet> {
    if size == 256 {
        Some(LpnParamSet::Lpn12)
    } else if size == 4096 {
        Some(LpnParamSet::Lpn16)
    } else if size == 65536 {
        Some(LpnParamSet::Lpn20)
    } else {
        None
    }
}

/// The range bits and prefix lengths that go with a supported radius.
pub open spec fn radius_settings(radius: usize) -> Option<(usize, Seq<usize>)> {
    if radius == 10 {
        Some((6usize, seq![2usize, 4, 6]))
    } else if radius == 30 {
        Some((7usize, seq![1usize, 3, 5, 7]))
    } else if radius == 60 {
        Some((8usize, seq![2usize, 4, 6, 8]))
    } else if radius == 120 {
        Some((9usize, seq![1usize, 3, 5, 7, 9]))
    } else if radius == 250 {
        Some((10usize, seq![2usize, 4, 6, 8, 10]))
    } else {
        None
    }
}

/// What checking a configuration gives: the size is checked first, then the radius, then
/// its range bits, then its prefix lengths.
pub open spec fn check_result(size: usize, radius: usize, range_bits: usize, pref_length: Seq<usize>) -> Result<
    LpnParamSet,
    ParamError,
> {
    match param_for_size(size) {
        None => Err(ParamError::InvalidSize),
        Some(p) => match radius_settings(radius) {
            None => Err(ParamError::InvalidRadius),
            Some(st) => if range_bits != st.0 {
                Err(ParamError::RangeBitsMismatch)
            } else if pref_length != st.1 {
                Err(ParamError::PrefLengthMismatch)
            } else {
                Ok(p)
            },
        },
    }
}

/// Whether `a` holds exactly the values of `b`.
fn same_lengths(a: &[usize], b: &[usize]) -> (r: bool)
    ensures
        r == (a@ == b@),
{
    if a.len() != b.len() {
        return false;
    }
    let mut i: usize = 0;
    while i < a.len()
        invariant
            a@.len() == b@.len(),
            i <= a@.len(),
            forall|k: int| 0 <= k < i ==> #[trigger] a@[k] == b@[k],
        decreases a@.len() - i,
    {
        if a[i] != b[i] {
            return false;
        }
        i += 1;
    }
    assert(a@ =~= b@);
    true
}

/// The parameter set for `size`, after checking that `radius`, `range_bits` and
/// `pref_length` agree with each other.
pub fn check_params(size: usize, radius: usize, range_bits: usize, pref_length: &[usize]) -> (r: Result<
    LpnParamSet,
    ParamError,
>)
    ensures
        r == check_result(size, radius, range_bits, pref_length@),
{
    let param = if size == 256 {
        LpnParamSet::Lpn12
    } else if size == 4096 {
        LpnParamSet::Lpn16
    } else if size == 65536 {
        LpnParamSet::Lpn20
    } else {
        return Err(ParamError::InvalidSize);
    };
    let (bits, lengths): (usize, [usize; 5]) = if radius == 10 {
        (6, [2, 4, 6, 0, 0])
    } else if radius == 30 {
        (7, [1, 3, 5, 7, 0])
    } else if radius == 60 {
        (8, [2, 4, 6, 8, 0])
    } else if radius == 120 {
        (9, [1, 3, 5, 7, 9])
    } else if radius == 250 {
        (10, [2, 4, 6, 8, 10])
    } else {
        return Err(ParamError::InvalidRadius);
    };
    let count: usize = if radius == 10 {
        3
    } else if radius == 30 || radius == 60 {
        4
    } else {
        5
    };
    if range_bits != bits {
        return Err(ParamError::RangeBitsMismatch);
    }
    let expected = &lengths[0..count];
    proof {
        assert(expected@ =~= radius_settings(radius).unwrap().1);
    }
    if !same_lengths(pref_length, expected) {
        return Err(ParamError::PrefLengthMismatch);
    }
    Ok(param)
}

/// The parameter set for `size` under the configured radius, range bits and prefix
/// lengths. Sizes other than `2^8`, `2^12` and `2^16` are refused by `requires`
/// (use `check_params` to test a size first).
pub fn param_checking(size: usize) -> (r: LpnParamSet)
    requires
        param_for_size(size) is Some,
    ensures
        Ok::<LpnParamSet, ParamError>(r) == check_result(size, RADIUS, RANGE_BITS, PREF_LENGTH@),
        r == param_for_size(size)->0,
{
    assert(PREF_LENGTH@ =~= seq![2usize, 4, 6, 8, 10]);
    match check_params(size, RADIUS, RANGE_BITS, &PREF_LENGTH) {
        Ok(p) => p,
        Err(_) => {
            assert(false);
            LpnParamSet::Lpn12
        },
    }
}

} // verus!
