//! The library's one source of chance.

use vstd::prelude::*;

verus! {

/// Draws an index below `n`, each with the same probability, from the
/// thread-local generator of the `rand` crate (`rand::random_range` over the
/// range `0..n`). The contract claims only that the index lies in the range;
/// an empty range, on which the outside function panics, is excluded.
#[verifier::external_body]
pub(crate) fn random_index(n: usize) -> (r: usize)
    requires
        n > 0,
    ensures
        r < n,
{
    rand::random_range(0..n)
}

} // verus!
