//! The seeded random number generator that drives the search.
use rand::rngs::StdRng;
use rand::seq::SliceRandom;
use rand::Rng;
use rand::SeedableRng;
use vstd::prelude::*;

verus! {

#[verifier::external_type_specification]
#[verifier::external_body]
pub struct ExStdRng(StdRng);

/// Relies on rand's `SeedableRng::seed_from_u64`: a generator whose stream is
/// fixed by the seed.
#[verifier::external_body]
pub(crate) fn seeded_rng(seed: u64) -> StdRng {
    StdRng::seed_from_u64(seed)
}

/// Relies on rand's `Rng::gen_range`: a value drawn from `low..=high`, which
/// must not be empty (it panics on an empty range).
#[verifier::external_body]
pub(crate) fn gen_range(rng: &mut StdRng, low: usize, high: usize) -> (r: usize)
    requires
        low <= high,
    ensures
        low <= r <= high,
{
    rng.gen_range(low..=high)
}

/// Relies on rand's `SliceRandom::shuffle`: the elements are permuted in place.
#[verifier::external_body]
pub(crate) fn shuffle<T>(v: &mut Vec<T>, rng: &mut StdRng)
    ensures
        final(v)@.len() == old(v)@.len(),
        final(v)@.to_multiset() == old(v)@.to_multiset(),
{
    v.shuffle(rng)
}

/// Relies on rand's `SliceRandom::choose`: one of the elements, or none when
/// there is none.
#[verifier::external_body]
pub(crate) fn pick_one(v: &Vec<usize>, rng: &mut StdRng) -> (r: Option<usize>)
    ensures
        r.is_none() == (v@.len() == 0),
        r matches Some(x) ==> v@.contains(x),
{
    v.choose(rng).copied()
}

} // verus!
