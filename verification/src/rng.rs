use vstd::prelude::*;

verus! {

/// Declares rand's StdRng so that the deterministic random source can live
/// in a field of the game state.
#[verifier::external_type_specification]
#[verifier::external_body]
pub struct ExStdRng(rand::rngs::StdRng);

/// Relies on rand's SeedableRng::seed_from_u64: builds a generator from the
/// given seed. Nothing is assumed of the stream it will produce.
#[verifier::external_body]
pub(crate) fn rng_from_seed(seed: u64) -> rand::rngs::StdRng {
    <rand::rngs::StdRng as rand::SeedableRng>::seed_from_u64(seed)
}

/// Relies on rand's Rng::gen_range over `0..n`: the sample lies in the
/// half-open range, whatever the generator's state. gen_range panics only on
/// an empty range, which `n > 0` rules out.
#[verifier::external_body]
pub(crate) fn rng_below(rng: &mut rand::rngs::StdRng, n: i32) -> (r: i32)
    requires
        n > 0,
    ensures
        0 <= r < n,
{
    rand::Rng::gen_range(rng, 0..n)
}

} // verus!
