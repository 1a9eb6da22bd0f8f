use vstd::prelude::*;

verus! {

#[verifier::external_type_specification]
#[verifier::external_body]
pub struct ExStdRng(rand::rngs::StdRng);

/// Relies on rand's `SeedableRng::seed_from_u64` for `StdRng`: builds a
/// generator from a 64-bit seed.  Nothing is assumed of its state.
#[verifier::external_body]
pub(crate) fn rng_from_seed(seed: u64) -> rand::rngs::StdRng {
    <rand::rngs::StdRng as rand::SeedableRng>::seed_from_u64(seed)
}

/// Relies on rand's `Rng::gen_range`, called on the half-open range
/// `[0, max + 1)`, which is never empty, so the call cannot panic and the
/// draw is at most `max`.  Nothing more is assumed of a random result.
#[verifier::external_body]
pub(crate) fn rng_height(rng: &mut rand::rngs::StdRng, max: u8) -> (h: u8)
    ensures
        h <= max,
{
    rand::Rng::gen_range(rng, 0u16, max as u16 + 1) as u8
}

} // verus!
