//! The seeded generator that nonces, leaves and keys are drawn from.
//!
//! Nothing here depends on chance. `rand`'s `StdRng` is the ChaCha stream cipher with 12 rounds,
//! keyed from the seed: it hands out the words of one key stream in order, the same on every
//! machine. What it hands out next is thus a function of the state that it is in and of what it is
//! asked for. The contracts name that function and say no more of it than that a sample is below
//! its bound; in particular they do not say that draws differ.

use rand::rngs::StdRng;
use rand::{Rng, SeedableRng};
use vstd::prelude::*;

verus! {

/// `rand::rngs::StdRng`, opaque.
#[verifier::external_type_specification]
#[verifier::external_body]
pub struct ExStdRng(StdRng);

/// What a generator holds: all that its coming outputs depend on (for `StdRng` the ChaCha key,
/// the block counter and the words of the current block that are still unread), as bytes.
pub uninterp spec fn generator_state(rng: StdRng) -> Seq<u8>;

/// The state in which `StdRng::seed_from_u64` starts a generator.
pub uninterp spec fn seeded_state(seed: u64) -> Seq<u8>;

/// The `len` bytes that `Rng::fill` takes out of a generator in `state`, and the state after.
pub uninterp spec fn filled(state: Seq<u8>, len: nat) -> (Seq<u8>, Seq<u8>);

/// The number that `Rng::gen_range(0..bound)` takes out of a generator in `state`, and the state
/// after. How many bits one attempt draws depends on the width of `usize`, so the width is an
/// argument too.
pub uninterp spec fn sampled(state: Seq<u8>, bound: usize, usize_bits: nat) -> (usize, Seq<u8>);

/// `StdRng::seed_from_u64`. Claimed: the state it starts in depends on `seed` alone.
#[verifier::external_body]
pub(crate) fn seed_generator(seed: u64) -> (rng: StdRng)
    ensures
        generator_state(rng) == seeded_state(seed),
{
    StdRng::seed_from_u64(seed)
}

/// `Rng::fill` on a byte slice. Claimed: every byte of `dest` is replaced, and the new bytes and
/// the new state depend on the old state and the length alone.
#[verifier::external_body]
pub(crate) fn fill_bytes(rng: &mut StdRng, dest: &mut [u8])
    ensures
        final(dest)@.len() == old(dest)@.len(),
        final(dest)@ == filled(generator_state(*old(rng)), old(dest)@.len()).0,
        generator_state(*final(rng)) == filled(generator_state(*old(rng)), old(dest)@.len()).1,
{
    rng.fill(dest)
}

/// `Rng::gen_range` on `0..bound`, which panics on an empty range. Claimed: the number is below
/// `bound`, and it and the new state depend on the old state, `bound` and the width of `usize`
/// alone.
#[verifier::external_body]
pub(crate) fn sample_below(rng: &mut StdRng, bound: usize) -> (r: usize)
    requires
        bound > 0,
    ensures
        r < bound,
        r == sampled(generator_state(*old(rng)), bound, usize::BITS as nat).0,
        generator_state(*final(rng)) == sampled(
            generator_state(*old(rng)),
            bound,
            usize::BITS as nat,
        ).1,
{
    rng.gen_range(0..bound)
}

} // verus!
