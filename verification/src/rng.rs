//! Random choices, drawn from `rand`'s standard RNG. Every draw goes
//! through a wrapper that states only what holds of any outcome, so the
//! logic around the draws is verified for every value they may take.

use vstd::prelude::*;

verus! {

use rand::rngs::StdRng;

#[verifier::external_type_specification]
#[verifier::external_body]
pub struct ExStdRng(StdRng);

/// Relies on rand's `SeedableRng::seed_from_u64`: builds the standard RNG
/// from a 64-bit seed.
#[verifier::external_body]
pub(crate) fn rng_from_seed(seed: u64) -> StdRng {
    <StdRng as rand::SeedableRng>::seed_from_u64(seed)
}

/// Relies on rand's `Rng::gen_range`: the result of sampling a nonempty
/// half-open range lies in that range.
#[verifier::external_body]
pub(crate) fn rng_range(rng: &mut StdRng, low: usize, high: usize) -> (r: usize)
    requires
        low < high,
    ensures
        low <= r < high,
{
    rand::Rng::gen_range(rng, low..high)
}

/// Relies on rand's `Rng::gen` for `u64`; nothing is promised of the value.
#[verifier::external_body]
pub(crate) fn rng_u64(rng: &mut StdRng) -> u64 {
    rand::Rng::gen(rng)
}

/// Relies on rand's `Rng::gen` for `bool`; nothing is promised of the value.
#[verifier::external_body]
pub(crate) fn rng_bool(rng: &mut StdRng) -> bool {
    rand::Rng::gen(rng)
}

} // verus!
