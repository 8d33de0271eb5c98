//! The randomness port: the only outside call the engine makes.
//!
//! Spawning a tile needs a uniformly chosen empty cell and a biased coin;
//! both are drawn through `random_below`, and everything that depends on
//! the drawn values is verified for every value they could take.

use vstd::prelude::*;

verus! {

/// Relies on `rand::Rng::random_range` over the half-open range `0..n`:
/// it returns a value below `n`, drawn uniformly from the thread-local
/// generator, and panics only on an empty range, which the precondition
/// rules out.  Nothing more is assumed of the drawn value.
#[verifier::external_body]
pub(crate) fn random_below(n: usize) -> (r: usize)
    requires
        n > 0,
    ensures
        r < n,
{
    let mut rng = rand::rng();
    rand::Rng::random_range(&mut rng, 0..n)
}

} // verus!
