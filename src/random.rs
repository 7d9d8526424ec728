use vstd::prelude::*;
use rand::seq::SliceRandom;
use rand::Rng;

verus! {

/// The seedable random stream of the `rand` crate. Every random choice of the
/// library is drawn from a stream that the caller hands in, so that a fixed
/// seed reproduces a run.
#[verifier::external_type_specification]
#[verifier::external_body]
pub struct ExStdRng(rand::rngs::StdRng);

/// Relies on `rand::Rng::gen_range` over `0..3`: a value of the half-open range.
#[verifier::external_body]
pub(crate) fn random_axis(rng: &mut rand::rngs::StdRng) -> (r: usize)
    ensures
        r < 3,
{
    rng.gen_range(0..3usize)
}

/// Relies on `rand::seq::SliceRandom::shuffle`, which only swaps entries: the
/// result holds the same values, each as often as before.
#[verifier::external_body]
pub(crate) fn shuffle(v: &mut Vec<usize>, rng: &mut rand::rngs::StdRng)
    ensures
        final(v)@.to_multiset() == old(v)@.to_multiset(),
        final(v)@.len() == old(v)@.len(),
{
    v.shuffle(rng)
}

} // verus!
