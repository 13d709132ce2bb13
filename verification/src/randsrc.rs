//! The random source of a generation run.
//!
//! One seedable generator is threaded through every sampling call, so a run
//! is reproducible from its seed.  Nothing is assumed of the drawn values
//! beyond their range.

use vstd::prelude::*;

verus! {

#[verifier::external_type_specification]
#[verifier::external_body]
pub struct ExStdRng(rand::rngs::StdRng);

/// Relies on rand's `SeedableRng::seed_from_u64`: builds the generator a
/// whole run threads through its sampling calls, determined by the seed,
/// so that a run is reproducible.  Nothing is claimed of the values it
/// will yield.
#[verifier::external_body]
pub fn rng_from_seed(seed: u64) -> rand::rngs::StdRng {
    <rand::rngs::StdRng as rand::SeedableRng>::seed_from_u64(seed)
}

/// Relies on rand's `Rng::gen_range` over `0..n`, which returns a value of
/// the range and panics only when the range is empty.
#[verifier::external_body]
pub(crate) fn gen_index(rng: &mut rand::rngs::StdRng, n: usize) -> (r: usize)
    requires
        n >= 1,
    ensures
        r < n,
{
    rand::Rng::gen_range(rng, 0..n)
}

/// Relies on rand's `SliceRandom::shuffle`, which permutes the slice in
/// place: the elements afterwards are the elements before, reordered.
#[verifier::external_body]
pub(crate) fn shuffle_indices(rng: &mut rand::rngs::StdRng, v: &mut Vec<usize>)
    ensures
        final(v)@.len() == old(v)@.len(),
        final(v)@.to_multiset() == old(v)@.to_multiset(),
{
    rand::prelude::SliceRandom::shuffle(v.as_mut_slice(), rng)
}

} // verus!
