//! Trusted interface to the process-level randomness source used for tile
//! spawning.

use vstd::prelude::*;

verus! {

/// Relies on rand::random_range: draws a value from the given nonempty
/// range. Nothing is assumed of which value comes back, only that it lies
/// below the bound.
#[verifier::external_body]
pub(crate) fn random_below(max: usize) -> (r: usize)
    requires
        max > 0,
    ensures
        r < max,
{
    rand::random_range(0..max)
}

} // verus!
