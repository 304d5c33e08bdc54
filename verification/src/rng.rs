//! The one place where the library draws randomness: pivot sampling and
//! shuffled test data. Nothing is assumed of a drawn value beyond its range.

use vstd::prelude::*;

verus! {

/// Relies on `rand::Rng::gen_range` over `rand::thread_rng()`: a random
/// index strictly below `n`. Which index comes back is not specified; every
/// caller must be correct for any of them.
#[verifier::external_body]
pub(crate) fn random_index_below(n: usize) -> (r: usize)
    requires
        n >= 1,
    ensures
        r < n,
{
    rand::Rng::gen_range(&mut rand::thread_rng(), 0..n)
}

} // verus!
