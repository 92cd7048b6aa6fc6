//! Counts over per-observation validity masks, the Sentinel-2 valid
//! reflectance range, and the padding of series lengths.
use vstd::prelude::*;

verus! {

/// Lowest valid Sentinel-2 surface reflectance (scaled digital number).
pub const SENTINEL2_VALID_MIN: i32 = 0;

/// Highest valid Sentinel-2 surface reflectance (scaled digital number);
/// the range is open at both ends.
pub const SENTINEL2_VALID_MAX: i32 = 10000;

/// Number of `true` entries of a mask.
pub open spec fn count_true(mask: Seq<bool>) -> nat
    decreases mask.len(),
{
    if mask.len() == 0 {
        0
    } else {
        count_true(mask.drop_last()) + if mask.last() { 1nat } else { 0nat }
    }
}

/// Count valid entries in a mask.
pub fn count_valid(mask: &[bool]) -> (n: usize)
    ensures
        n == count_true(mask@),
{
    let mut n: usize = 0;
    let mut i: usize = 0;
    while i < mask.len()
        invariant
            i <= mask.len(),
            n == count_true(mask@.subrange(0, i as int)),
            n <= i,
        decreases mask.len() - i,
    {
        proof {
            assert(mask@.subrange(0, i + 1).drop_last() =~= mask@.subrange(0, i as int));
        }
        if mask[i] {
            n = n + 1;
        }
        i = i + 1;
    }
    proof {
        assert(mask@.subrange(0, mask.len() as int) =~= mask@);
    }
    n
}

/// Round `n` up to the next even integer.
pub fn next_even(n: usize) -> (r: usize)
    requires
        n < usize::MAX,
    ensures
        r % 2 == 0,
        r == n || r == n + 1,
{
    ((n + 1) / 2) * 2
}

} // verus!
