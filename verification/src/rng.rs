//! The injected uniform random source.  Callers hand every randomized
//! entry point a seedable `rand::rngs::StdRng`, so runs are reproducible
//! under a fixed seed.  The two calls into the `rand` crate that the
//! engine makes are wrapped here.

use vstd::prelude::*;
use rand::Rng;
use rand::seq::SliceRandom;

verus! {

#[verifier::external_type_specification]
#[verifier::external_body]
pub struct ExStdRng(rand::rngs::StdRng);

/// Relies on `rand::Rng::gen_range` over `0..bound`: it samples
/// uniformly within the given range and panics only when the range is
/// empty.
#[verifier::external_body]
pub(crate) fn rng_below(rng: &mut rand::rngs::StdRng, bound: usize) -> (r: usize)
    requires
        bound > 0,
    ensures
        r < bound,
{
    rng.gen_range(0..bound)
}

/// Relies on `rand::seq::SliceRandom::shuffle`: it permutes the slice
/// in place (by swaps), so the new contents are a rearrangement of the
/// old.
#[verifier::external_body]
pub(crate) fn shuffle_directions(rng: &mut rand::rngs::StdRng, v: &mut Vec<(isize, isize)>) -> (r:
    ())
    ensures
        final(v)@.len() == old(v)@.len(),
        final(v)@.to_multiset() == old(v)@.to_multiset(),
        forall|i: int|
            0 <= i < final(v)@.len() ==> exists|j: int|
                0 <= j < old(v)@.len() && #[trigger] final(v)@[i] == old(v)@[j],
{
    v.shuffle(rng)
}

} // verus!
