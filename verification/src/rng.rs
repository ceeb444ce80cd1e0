//! Trusted draws from the process-wide random number generator.

use vstd::prelude::*;

verus! {

/// Relies on `rand::random_range`: a draw from the half-open range
/// below `max`, which the range's emptiness check would reject were
/// `max` zero; the result always lies below `max`.
#[verifier::external_body]
pub(crate) fn random_below(max: u64) -> (r: u64)
    requires
        1 <= max,
    ensures
        r < max,
{
    rand::random_range(0..max)
}

/// Relies on `rand::random_ratio`: true with probability `num / den`,
/// never true when `num` is zero, always true when `num` equals `den`.
#[verifier::external_body]
pub(crate) fn random_chance(num: u32, den: u32) -> (r: bool)
    requires
        1 <= den,
        num <= den,
    ensures
        num == 0 ==> !r,
        num == den ==> r,
{
    rand::random_ratio(num, den)
}

} // verus!
