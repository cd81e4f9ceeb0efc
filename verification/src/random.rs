use rand::seq::SliceRandom;
use rand::{Rng, SeedableRng};
use rand_chacha::ChaCha8Rng;
use vstd::prelude::*;

verus! {

/// The world's random number generator, a ChaCha stream with eight rounds.
#[verifier::external_type_specification]
#[verifier::external_body]
pub struct ExChaCha8Rng(ChaCha8Rng);

/// `SeedableRng::seed_from_u64` for `ChaCha8Rng`: the generator seeded from `seed`. The
/// same seed gives the same stream; nothing about the stream is stated.
#[verifier::external_body]
pub(crate) fn seeded_rng(seed: u64) -> ChaCha8Rng {
    ChaCha8Rng::seed_from_u64(seed)
}

/// `Rng::random_range` on `low..=high` for `u8`: some value in the range. The range must
/// not be empty (the call panics on an empty one).
#[verifier::external_body]
pub(crate) fn random_u8_between(rng: &mut ChaCha8Rng, low: u8, high: u8) -> (value: u8)
    requires
        low <= high,
    ensures
        low <= value <= high,
{
    rng.random_range(low..=high)
}

/// `Rng::random_range` on `low..=high` for `i8`: some value in the range, which must not be
/// empty.
#[verifier::external_body]
pub(crate) fn random_i8_between(rng: &mut ChaCha8Rng, low: i8, high: i8) -> (value: i8)
    requires
        low <= high,
    ensures
        low <= value <= high,
{
    rng.random_range(low..=high)
}

/// `Rng::random_range` on `low..high` for `u16`: some value in the range, which must not
/// be empty.
#[verifier::external_body]
pub(crate) fn random_u16_below(rng: &mut ChaCha8Rng, low: u16, high: u16) -> (value: u16)
    requires
        low < high,
    ensures
        low <= value < high,
{
    rng.random_range(low..high)
}

/// `Rng::random_range` on `low..=high` for `u32`: some value in the range, which must not
/// be empty.
#[verifier::external_body]
pub(crate) fn random_u32_between(rng: &mut ChaCha8Rng, low: u32, high: u32) -> (value: u32)
    requires
        low <= high,
    ensures
        low <= value <= high,
{
    rng.random_range(low..=high)
}

/// `Rng::random_range` on `low..=high` for `u64`: some value in the range, which must not
/// be empty.
#[verifier::external_body]
pub(crate) fn random_u64_between(rng: &mut ChaCha8Rng, low: u64, high: u64) -> (value: u64)
    requires
        low <= high,
    ensures
        low <= value <= high,
{
    rng.random_range(low..=high)
}

/// `Rng::random_range` on `low..high` for `usize`: some value in the range, which must not
/// be empty.
#[verifier::external_body]
pub(crate) fn random_usize_below(rng: &mut ChaCha8Rng, low: usize, high: usize) -> (value: usize)
    requires
        low < high,
    ensures
        low <= value < high,
{
    rng.random_range(low..high)
}

/// `Rng::random_range` on `low..=high` for `usize`: some value in the range, which must not
/// be empty.
#[verifier::external_body]
pub(crate) fn random_usize_between(rng: &mut ChaCha8Rng, low: usize, high: usize) -> (value: usize)
    requires
        low <= high,
    ensures
        low <= value <= high,
{
    rng.random_range(low..=high)
}

/// `Rng::random_range` on `low..high` for `i32`: some value in the range, which must not
/// be empty.
#[verifier::external_body]
pub(crate) fn random_i32_below(rng: &mut ChaCha8Rng, low: i32, high: i32) -> (value: i32)
    requires
        low < high,
    ensures
        low <= value < high,
{
    rng.random_range(low..high)
}

/// `SliceRandom::shuffle`: the items in some order; which one depends on the stream.
#[verifier::external_body]
pub(crate) fn shuffle<T>(items: &mut Vec<T>, rng: &mut ChaCha8Rng)
    ensures
        final(items)@.to_multiset() == old(items)@.to_multiset(),
{
    items.shuffle(rng)
}

} // verus!
