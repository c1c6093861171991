//! The per-node pseudo-random number generators, from `rand_xoshiro` and `rand`.
use rand::{RngExt, SeedableRng};
use rand_xoshiro::Xoshiro256Plus;
use vstd::prelude::*;

verus! {

#[verifier::external_type_specification]
#[verifier::external_body]
pub struct ExXoshiro256Plus(Xoshiro256Plus);

/// Seeds a generator (`Xoshiro256Plus::seed_from_u64`). Nothing is claimed of its state.
#[verifier::external_body]
pub(crate) fn seeded_rng(seed: u64) -> (r: Xoshiro256Plus) {
    Xoshiro256Plus::seed_from_u64(seed)
}

/// Draws from `low..high` (`RngExt::random_range`), which panics on an empty range. The contract
/// claims only that the value lies in the range.
#[verifier::external_body]
pub(crate) fn random_i32_in(rng: &mut Xoshiro256Plus, low: i32, high: i32) -> (r: i32)
    requires
        low < high,
    ensures
        low <= r < high,
{
    rng.random_range(low..high)
}

/// Draws from `low..high` (`RngExt::random_range`), which panics on an empty range. The contract
/// claims only that the value lies in the range.
#[verifier::external_body]
pub(crate) fn random_usize_in(rng: &mut Xoshiro256Plus, low: usize, high: usize) -> (r: usize)
    requires
        low < high,
    ensures
        low <= r < high,
{
    rng.random_range(low..high)
}

/// Draws a value from the standard uniform distribution over `u64` (`RngExt::random`).
/// Nothing is claimed of the value.
#[verifier::external_body]
pub(crate) fn random_u64(rng: &mut Xoshiro256Plus) -> (r: u64) {
    rng.random::<u64>()
}

/// Overwrites every byte of `dest` with random bytes (`RngExt::fill`). The contract claims that
/// the length is kept; nothing is claimed of the bytes.
#[verifier::external_body]
pub(crate) fn fill_random_bytes(rng: &mut Xoshiro256Plus, dest: &mut Vec<u8>)
    ensures
        final(dest).len() == old(dest).len(),
{
    rng.fill(dest.as_mut_slice())
}

} // verus!
