use crate::fixed_point::UNIT;
use rand::Rng;
use vstd::prelude::*;

verus! {

/// Draws an integer from the thread's random generator.
///
/// Calls `rand::thread_rng` and `rand::Rng::gen_range` on the half-open
/// range from zero to `bound`.  Trusted: the result lies in that range.
/// `gen_range` panics on an empty range, which `bound > 0` excludes.
/// Nothing else is claimed of the result; two calls may differ.
#[verifier::external_body]
pub(crate) fn uniform_below(bound: u128) -> (r: u128)
    requires
        bound > 0,
    ensures
        r < bound,
{
    rand::thread_rng().gen_range(0..bound)
}

/// A random fraction: an integer drawn evenly from zero up to, but not
/// including, `UNIT`.
pub fn random_helper() -> (r: u64)
    ensures
        r < UNIT,
{
    uniform_below(UNIT as u128) as u64
}

} // verus!
