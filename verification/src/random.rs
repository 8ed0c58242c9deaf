//! The random numbers the game draws (order picks, generator outputs).
use vstd::prelude::*;

use rand::Rng;

verus! {

/// A number drawn uniformly from `0..n` by `rand::Rng::gen_range` on the
/// thread-local generator.  The contract states only the range: the value
/// itself depends on chance.
#[verifier::external_body]
pub(crate) fn random_below(n: u64) -> (r: u64)
    requires
        n > 0,
    ensures
        r < n,
{
    rand::thread_rng().gen_range(0..n)
}

} // verus!
