use vstd::prelude::*;

verus! {

/// Relies on rand::random_range: one draw from the thread-local random
/// number generator, uniform over the integers from 0 (inclusive) to `n`
/// (exclusive). Only the range of the result is stated; two calls on the
/// same input may differ, and every caller must be correct whichever value
/// comes back.
#[verifier::external_body]
pub(crate) fn rand_below(n: u128) -> (r: u128)
    requires
        n >= 1,
    ensures
        r < n,
{
    rand::random_range(0..n)
}

} // verus!
