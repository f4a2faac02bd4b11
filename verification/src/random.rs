//! The seeded generator behind the trials.
//!
//! The numbers come from the `rand` crate's ISAAC-64 generator. It was chosen
//! because a seed gives it the same stream on every machine, which is what
//! lets a run of trials be repeated or cut into pieces. Nothing here is
//! proved: the contracts below say what the crate's source shows.

use rand::distributions::{IndependentSample, Range};
use rand::{Isaac64Rng, SeedableRng};
use vstd::prelude::*;

verus! {

/// The `rand` crate's ISAAC-64 generator. The library carries it along and
/// never looks inside.
#[verifier::external_type_specification]
#[verifier::external_body]
pub struct ExIsaac64Rng(rand::Isaac64Rng);

/// What a generator holds: the words that decide all it will give.
pub uninterp spec fn generator_state(rng: rand::Isaac64Rng) -> Seq<u64>;

/// What a generator holds when it has just been made from `seed`.
pub uninterp spec fn seeded_state(seed: Seq<u64>) -> Seq<u64>;

/// What sampling between `low` and `high` gives of a generator that holds
/// `state`: the number, and what the generator holds afterwards.
pub uninterp spec fn sample_outcome(state: Seq<u64>, low: u64, high: u64) -> (u64, Seq<u64>);

/// `Isaac64Rng::from_seed` of the `rand` crate: a generator made from `seed`.
/// The contract claims that what it holds depends on the seed alone; the
/// crate documents that generators made from one seed give one sequence.
#[verifier::external_body]
pub(crate) fn seeded_generator(seed: &Vec<u64>) -> (rng: Isaac64Rng)
    ensures
        generator_state(rng) == seeded_state(seed@),
{
    Isaac64Rng::from_seed(seed.as_slice())
}

/// `Range::new(low, high).ind_sample(rng)` of the `rand` crate: a number from
/// `low` up to, not including, `high`. The contract claims that the number
/// lies in that range, and that it and what the generator holds afterwards
/// depend only on the range and on what the generator held: the crate
/// computes both from the generator's words and the two bounds. `Range::new`
/// panics unless `low < high`, which the contract asks for.
#[verifier::external_body]
pub(crate) fn sample_between(rng: &mut Isaac64Rng, low: u64, high: u64) -> (value: u64)
    requires
        low < high,
    ensures
        low <= value < high,
        value == sample_outcome(generator_state(*old(rng)), low, high).0,
        generator_state(*final(rng)) == sample_outcome(generator_state(*old(rng)), low, high).1,
{
    Range::new(low, high).ind_sample(rng)
}

} // verus!
