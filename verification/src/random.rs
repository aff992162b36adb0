//! The random sources of the library: calls into the `rand` crate, with what
//! is taken for granted of them.

use crate::board::Point;
use rand::rngs::StdRng;
use rand::seq::SliceRandom;
use rand::Rng;
use rand::SeedableRng;
use vstd::prelude::*;

verus! {

/// The generator `StdRng` of `rand`, of which nothing is known but that it
/// is one.
#[verifier::external_type_specification]
#[verifier::external_body]
pub struct ExStdRng(StdRng);

/// A generator started from `seed`, by `SeedableRng::seed_from_u64` of
/// `rand` on its `StdRng`. Nothing is taken for granted of the generator
/// that comes back.
#[verifier::external_body]
pub(crate) fn seeded_generator(seed: u64) -> (rng: StdRng) {
    StdRng::seed_from_u64(seed)
}

/// A number drawn from `0..bound`, by `Rng::gen_range` of `rand`, which
/// panics on an empty range. Taken for granted: the number lies in the range.
/// Which number it is depends on the generator and is left open.
#[verifier::external_body]
pub(crate) fn random_below(rng: &mut StdRng, bound: usize) -> (drawn: usize)
    requires
        bound > 0,
    ensures
        drawn < bound,
{
    rng.gen_range(0..bound)
}

/// One of `points`, picked by `SliceRandom::choose` of `rand` with the
/// generator of the running thread. Taken for granted: what comes back is one
/// of the points, and nothing comes back only where there is none to pick.
/// Which one it is is left open.
#[verifier::external_body]
pub(crate) fn choose_point(points: &Vec<Point>) -> (picked: Option<Point>)
    ensures
        picked is None <==> points.len() == 0,
        picked matches Some(p) ==> points@.contains(p),
{
    points.choose(&mut rand::thread_rng()).copied()
}

/// Puts `numbers` in a random order, in place, by `SliceRandom::shuffle` of
/// `rand` with the generator of the running thread. Taken for granted: the
/// outcome holds the numbers that were there, each as often as before. In
/// which order is left open.
#[verifier::external_body]
pub(crate) fn shuffle_numbers(numbers: &mut Vec<usize>)
    ensures
        final(numbers)@.to_multiset() == old(numbers)@.to_multiset(),
{
    numbers.shuffle(&mut rand::thread_rng());
}

} // verus!
