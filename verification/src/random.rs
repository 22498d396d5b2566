//! The seeded pseudo-random generator behind the stochastic explainers.
use vstd::prelude::*;
use rand::rngs::StdRng;
use rand::seq::SliceRandom;
use rand::{Rng, SeedableRng};

verus! {

/// Declares `rand::rngs::StdRng` to the verifier as an opaque type.
#[verifier::external_type_specification]
#[verifier::external_body]
pub struct ExStdRng(StdRng);

/// `rand::SeedableRng::seed_from_u64` for `rand::rngs::StdRng`: a generator
/// whose whole output stream is fixed by `seed`. Nothing is stated about
/// the values it produces.
#[verifier::external_body]
pub(crate) fn seeded_rng(seed: u64) -> (rng: StdRng) {
    StdRng::seed_from_u64(seed)
}

/// `rand::seq::SliceRandom::shuffle` on a `Vec<usize>`: a Fisher–Yates
/// shuffle made of swaps only, so the result is a rearrangement of the
/// input. Which rearrangement depends on the generator's stream and is not
/// stated.
#[verifier::external_body]
pub(crate) fn shuffle(values: &mut Vec<usize>, rng: &mut StdRng)
    ensures
        final(values)@.len() == old(values)@.len(),
        final(values)@.to_multiset() == old(values)@.to_multiset(),
{
    values.as_mut_slice().shuffle(rng);
}

/// `rand::Rng::gen::<u64>` on a `StdRng`: the next 64 bits of the
/// generator's stream, advancing it. Nothing is stated about their value.
#[verifier::external_body]
pub(crate) fn next_u64(rng: &mut StdRng) -> (r: u64) {
    rng.gen::<u64>()
}

/// `rand::seq::SliceRandom::choose` on a `Vec<usize>`, with the chosen item
/// copied out: `None` for an empty vector, otherwise the item at an index
/// drawn from the generator's stream, so one of the vector's items. Which
/// one is not stated.
#[verifier::external_body]
pub(crate) fn choose_item(items: &Vec<usize>, rng: &mut StdRng) -> (r: Option<usize>)
    ensures
        r is None <==> items@.len() == 0,
        r matches Some(x) ==> items@.contains(x),
{
    items.as_slice().choose(rng).copied()
}

} // verus!
