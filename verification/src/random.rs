//! The random source of the knapsack search, from the `rand` crate.

use vstd::prelude::*;
use rand::rngs::SmallRng;
use rand::{Rng, SeedableRng};

verus! {

/// `rand::rngs::SmallRng`, carried opaquely.
#[verifier::external_type_specification]
#[verifier::external_body]
pub struct ExSmallRng(SmallRng);

/// `SmallRng::from_seed`: a generator seeded by the 32 bytes of `seed`.
/// Nothing is stated of the generator's state.
#[verifier::external_body]
pub(crate) fn small_rng_from_seed(seed: [u8; 32]) -> SmallRng {
    SmallRng::from_seed(seed)
}

/// `Rng::gen_range(0..len)`: a random index below `len`. Its documentation
/// says that it samples the half-open range and panics when the range is
/// empty, which `requires` rules out. Which index comes out is not stated.
#[verifier::external_body]
pub(crate) fn random_index(rng: &mut SmallRng, len: usize) -> (r: usize)
    requires
        len > 0,
    ensures
        r < len,
{
    rng.gen_range(0..len)
}

} // verus!
