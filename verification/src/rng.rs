//! Trusted boundary around the random number generator.
//!
//! The engine never looks inside a generator: it only snapshots, restores and
//! compares generator states, and hands a generator to the shuffle. Shuffling
//! is an in-place permutation, so every contract here is about the multiset
//! of the shuffled elements, never about which permutation came out.

use rand::seq::SliceRandom;
use rand::SeedableRng;
use vstd::prelude::*;

use crate::cards::Card;

verus! {

/// The generator whose state the engine snapshots to keep cheats reversible.
pub type SpiderRand = rand_xoshiro::Xoshiro512StarStar;

/// Relies on rand_xoshiro's Xoshiro512StarStar: the snapshot generator,
/// opaque to the engine, which only stores, restores and compares it.
#[verifier::external_type_specification]
#[verifier::external_body]
pub struct ExXoshiro512StarStar(rand_xoshiro::Xoshiro512StarStar);

/// Relies on rand's ThreadRng: the thread-local generator a fresh deal
/// shuffles with; the engine promises nothing of it.
#[verifier::external_type_specification]
#[verifier::external_body]
pub struct ExThreadRng(rand::rngs::ThreadRng);

/// Relies on rand_core's SeedableRng::from_os_rng: a generator seeded from
/// the operating system; nothing can be promised of its state.
#[verifier::external_body]
pub(crate) fn rng_from_os() -> SpiderRand {
    rand_xoshiro::Xoshiro512StarStar::from_os_rng()
}

/// Relies on Xoshiro512StarStar's derived Clone: the generator is a plain
/// struct of eight words, so a clone is the same state.
#[verifier::external_body]
pub(crate) fn rng_clone(r: &SpiderRand) -> (s: SpiderRand)
    ensures
        s == *r,
{
    r.clone()
}

/// Relies on Xoshiro512StarStar's derived PartialEq: two generators compare
/// equal exactly when their states are equal.
#[verifier::external_body]
pub(crate) fn rng_eq(a: &SpiderRand, b: &SpiderRand) -> (r: bool)
    ensures
        r == (*a == *b),
{
    a == b
}

/// Relies on rand's SliceRandom::shuffle: a Fisher-Yates in-place
/// permutation, so the multiset of elements is unchanged.
#[verifier::external_body]
pub(crate) fn shuffle_ranks(rng: &mut SpiderRand, v: &mut Vec<u8>)
    ensures
        final(v)@.to_multiset() == old(v)@.to_multiset(),
        final(v)@.len() == old(v)@.len(),
{
    v.shuffle(rng);
}

/// Relies on rand's SliceRandom::shuffle: a Fisher-Yates in-place
/// permutation, so the multiset of elements is unchanged.
#[verifier::external_body]
pub(crate) fn shuffle_cards(rng: &mut SpiderRand, v: &mut Vec<Card>)
    ensures
        final(v)@.to_multiset() == old(v)@.to_multiset(),
        final(v)@.len() == old(v)@.len(),
{
    v.shuffle(rng);
}

/// Relies on rand's SliceRandom::shuffle, with the caller's thread-local
/// generator, as the fresh-game deal uses it.
#[verifier::external_body]
pub(crate) fn shuffle_cards_thread(rng: &mut rand::rngs::ThreadRng, v: &mut Vec<Card>)
    ensures
        final(v)@.to_multiset() == old(v)@.to_multiset(),
        final(v)@.len() == old(v)@.len(),
{
    v.shuffle(rng);
}

} // verus!
