//! Trusted boundary around the `rand` crate.
//!
//! Every draw of randomness the engine makes goes through one of the small
//! wrappers below; the rest of the crate is verified against their contracts.

use rand::seq::SliceRandom;
use rand::Rng;
use vstd::prelude::*;

verus! {

#[verifier::external_type_specification]
#[verifier::external_body]
pub struct ExThreadRng(rand::rngs::ThreadRng);

/// The first `count` 64-bit values of `StdRng`'s output stream for `seed`.
/// The generator is documented as deterministic in its seed for a fixed
/// crate version, so this sequence is a function of its arguments alone.
pub uninterp spec fn seeded_keys(seed: u64, count: int) -> Seq<u64>;

/// Relies on `rand::SeedableRng::seed_from_u64` and `rand::Rng::fill` for
/// `StdRng`: the buffer is filled from the seeded generator's output stream,
/// which depends on nothing but the seed and the amount requested.
#[verifier::external_body]
pub(crate) fn seeded_fill(seed: u64, count: usize) -> (r: Vec<u64>)
    ensures
        r@.len() == count,
        r@ == seeded_keys(seed, count as int),
{
    let mut rng: rand::rngs::StdRng = rand::SeedableRng::seed_from_u64(seed);
    let mut keys = vec![0u64; count];
    rng.fill(&mut keys[..]);
    keys
}

/// Relies on `rand::thread_rng`: hands out the thread-local generator.
#[verifier::external_body]
pub(crate) fn fresh_rng() -> rand::rngs::ThreadRng {
    rand::thread_rng()
}

/// Relies on `rand::Rng::gen_range` with the range `0..bound`, which is
/// documented to return a value inside that range (and to panic only on an
/// empty range, excluded here by the precondition).
#[verifier::external_body]
pub(crate) fn gen_index(rng: &mut rand::rngs::ThreadRng, bound: usize) -> (r: usize)
    requires
        bound > 0,
    ensures
        r < bound,
{
    rng.gen_range(0..bound)
}

/// Relies on `rand::seq::SliceRandom::shuffle`: reorders the elements in
/// place, so the multiset of elements is unchanged.
#[verifier::external_body]
pub(crate) fn shuffle_points(rng: &mut rand::rngs::ThreadRng, v: &mut Vec<(usize, usize)>)
    ensures
        final(v)@.to_multiset() == old(v)@.to_multiset(),
        final(v)@.len() == old(v)@.len(),
{
    v.shuffle(rng)
}

} // verus!
