//! The source of randomness behind every sampling routine.

use crate::fixed::Fixed;
use rand::Rng;
use vstd::prelude::*;

verus! {

/// Draws a number from the half-open interval `[lo, hi)`.
///
/// Calls `rand::Rng::gen_range` on the thread-local generator returned by
/// `rand::thread_rng`, over the raw representations.  The contract claims only
/// what holds of every draw: the result lies in the range asked for.  The
/// range must not be empty, since `gen_range` panics on an empty range.
#[verifier::external_body]
pub(crate) fn uniform(lo: Fixed, hi: Fixed) -> (r: Fixed)
    requires
        lo@ < hi@,
    ensures
        lo@ <= r@ < hi@,
{
    Fixed { raw: rand::thread_rng().gen_range(lo.raw..hi.raw) }
}

} // verus!
