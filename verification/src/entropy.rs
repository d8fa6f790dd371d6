//! The single source of randomness.
//!
//! Nothing can be promised of a random draw beyond its range, so every
//! contract downstream states what holds whatever value comes back.

use vstd::prelude::*;

verus! {

/// Relies on rand::random_range over `0..n`, which returns a value of the
/// range, uniformly distributed; the range is nonempty by the precondition.
#[verifier::external_body]
pub(crate) fn rand_below(n: u128) -> (r: u128)
    requires
        n >= 1,
    ensures
        r < n,
{
    rand::random_range(0..n)
}

} // verus!
