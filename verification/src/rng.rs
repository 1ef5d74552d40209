//! The random number generator.

use rand::seq::SliceRandom;
use rand::RngExt;
use rand_xoshiro::rand_core::{Rng, SeedableRng};
use rand_xoshiro::Xoshiro256StarStar;
use vstd::prelude::*;

verus! {

/// The generator of the `rand_xoshiro` crate; its state is not looked into.
#[verifier::external_type_specification]
#[verifier::external_body]
pub struct ExXoshiro256StarStar(rand_xoshiro::Xoshiro256StarStar);

/// The number that a generator in a given state gives next.
pub uninterp spec fn next_of(rng: Xoshiro256StarStar) -> u64;

/// The state that a generator goes to when it gives a number.
pub uninterp spec fn after(rng: Xoshiro256StarStar) -> Xoshiro256StarStar;

/// The state that a seed stands for.
pub uninterp spec fn seeded(seed: u64) -> Xoshiro256StarStar;

/// `Rng::next_u64` of `Xoshiro256StarStar`: the number and the new state are functions of the
/// state alone.
#[verifier::external_body]
pub(crate) fn next_u64(rng: &mut Xoshiro256StarStar) -> (r: u64)
    ensures
        r == next_of(*old(rng)),
        *final(rng) == after(*old(rng)),
{
    rng.next_u64()
}

/// `SeedableRng::seed_from_u64` of `Xoshiro256StarStar`: the state is a function of the seed.
#[verifier::external_body]
pub(crate) fn from_seed(seed: u64) -> (r: Xoshiro256StarStar)
    ensures
        r == seeded(seed),
{
    Xoshiro256StarStar::seed_from_u64(seed)
}

/// The number from `lo` up to `hi` that a generator gives.
pub uninterp spec fn drawn_from(rng: Xoshiro256StarStar, lo: u32, hi: u32) -> u32;

/// The state that a generator goes to when it gives a number from `lo` up to `hi`.
pub uninterp spec fn after_draw(rng: Xoshiro256StarStar, lo: u32, hi: u32) -> Xoshiro256StarStar;

/// `RngExt::random_range` of `rand` on a range with both ends: a number in the range; it and the
/// new state are functions of the state and the range alone.
#[verifier::external_body]
pub(crate) fn draw_between(rng: &mut Xoshiro256StarStar, lo: u32, hi: u32) -> (r: u32)
    requires
        lo <= hi,
    ensures
        lo <= r <= hi,
        r == drawn_from(*old(rng), lo, hi),
        *final(rng) == after_draw(*old(rng), lo, hi),
{
    rng.random_range(lo..=hi)
}

/// The order in which a generator puts a list.
pub uninterp spec fn shuffle_of(rng: Xoshiro256StarStar, list: Seq<usize>) -> Seq<usize>;

/// The state that a generator goes to when it puts a list of some length in order.
pub uninterp spec fn after_shuffle(rng: Xoshiro256StarStar, len: nat) -> Xoshiro256StarStar;

/// `SliceRandom::shuffle` of `rand`: the same items in another order; the order is a function of
/// the state and the list, the new state one of the state and the length of the list.
#[verifier::external_body]
pub(crate) fn shuffle(list: &mut Vec<usize>, rng: &mut Xoshiro256StarStar)
    ensures
        final(list)@.to_multiset() == old(list)@.to_multiset(),
        final(list)@ == shuffle_of(*old(rng), old(list)@),
        *final(rng) == after_shuffle(*old(rng), old(list)@.len()),
{
    list.shuffle(rng)
}

} // verus!
