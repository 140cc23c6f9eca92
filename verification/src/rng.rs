//! The single point where the library draws randomness.

use vstd::prelude::*;

verus! {

/// Relies on `rand::rng()` and `rand::RngExt::random_range`: the call samples
/// an integer uniformly from `[0, bound)` and panics only on an empty range,
/// which the precondition rules out.
#[verifier::external_body]
pub(crate) fn random_coord(bound: isize) -> (r: isize)
    requires
        1 <= bound,
    ensures
        0 <= r < bound,
{
    let v: i64 = rand::RngExt::random_range(&mut rand::rng(), 0..(bound as i64));
    v as isize
}

} // verus!
