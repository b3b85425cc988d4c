//! The stream of words of a seeded xoshiro generator.

use vstd::prelude::*;
use rand_xoshiro::rand_core::{RngCore, SeedableRng};
use rand_xoshiro::Xoshiro128StarStar;

verus! {

#[verifier::external_type_specification]
#[verifier::external_body]
pub struct ExXoshiro128StarStar(Xoshiro128StarStar);

/// Word `n` (counting from 0) that `RngCore::next_u64` gives from the
/// generator made by `Xoshiro128StarStar::seed_from_u64(seed)`.
pub uninterp spec fn xoshiro_word(seed: u64, n: nat) -> u64;

/// A xoshiro generator together with the seed it was made from and the
/// number of words drawn from it so far. Its fields are private to this
/// module, and only `stream_new` makes one and only `stream_next` changes
/// one, so the seed and the count always describe the generator.
pub struct XoshiroStream {
    rng: Xoshiro128StarStar,
    seed: Ghost<u64>,
    count: Ghost<nat>,
}

impl XoshiroStream {
    /// The seed the generator was made from.
    pub closed spec fn seed(&self) -> u64 {
        self.seed@
    }

    /// How many words have been drawn.
    pub closed spec fn count(&self) -> nat {
        self.count@
    }
}

/// Calls `Xoshiro128StarStar::seed_from_u64`, which makes the generator from
/// the seed alone (through SplitMix64, whose seeding cannot fail); no word
/// has been drawn from it yet.
#[verifier::external_body]
pub fn stream_new(seed: u64) -> (r: XoshiroStream)
    ensures
        r.seed() == seed,
        r.count() == 0,
{
    XoshiroStream { rng: Xoshiro128StarStar::seed_from_u64(seed), seed: Ghost(seed), count: Ghost(0) }
}

/// Calls `RngCore::next_u64` on the generator, which returns its next word
/// and moves it on: the words come out in order, each a function of the
/// seed and its place, named `xoshiro_word`. It does not panic (it only
/// shifts, rotates, xors and multiplies with wrapping), so it is marked as
/// not unwinding.
#[verifier::external_body]
pub fn stream_next(s: &mut XoshiroStream) -> (r: u64)
    ensures
        r == xoshiro_word(old(s).seed(), old(s).count()),
        final(s).seed() == old(s).seed(),
        final(s).count() == old(s).count() + 1,
    no_unwind
{
    s.rng.next_u64()
}

} // verus!
