//! Seeded random streams for reproducible parallel work.
use vstd::prelude::*;
use rand::{Rng, RngCore, SeedableRng};
use rand_pcg::Mcg128Xsl64;

verus! {

#[verifier::external_type_specification]
#[verifier::external_body]
pub struct ExMcg128Xsl64(Mcg128Xsl64);

/// Relies on rand_pcg's `SeedableRng::from_seed` for `Mcg128Xsl64` (the
/// `Pcg64Mcg` generator): a stream determined by its sixteen-byte seed.
#[verifier::external_body]
pub fn stream_from_seed(seed: [u8; 16]) -> (r: Mcg128Xsl64) {
    Mcg128Xsl64::from_seed(seed)
}

/// Relies on rand_pcg's `RngCore::fill_bytes` for `Mcg128Xsl64`: the next
/// sixteen bytes of the stream, used to seed an independent child stream.
#[verifier::external_body]
pub fn next_seed(rng: &mut Mcg128Xsl64) -> (r: [u8; 16]) {
    let mut seed = [0u8; 16];
    rng.fill_bytes(&mut seed);
    seed
}

/// Relies on rand's `Rng::gen_range` on `0..n`: a value below `n`. It panics
/// on an empty range, which `n > 0` rules out.
#[verifier::external_body]
pub fn index_below(rng: &mut Mcg128Xsl64, n: usize) -> (r: usize)
    requires
        n > 0,
    ensures
        r < n,
{
    rng.gen_range(0..n)
}

/// Relies on rand's `seq::index::sample`: `amount` distinct indices below
/// `length`, in random order. It panics if `amount > length`, which
/// `requires` rules out.
#[verifier::external_body]
pub fn distinct_indices(rng: &mut Mcg128Xsl64, length: usize, amount: usize) -> (r: Vec<usize>)
    requires
        amount <= length,
    ensures
        r@.len() == amount,
        forall|i: int| 0 <= i < r@.len() ==> #[trigger] r@[i] < length,
        forall|i: int, j: int| 0 <= i < r@.len() && 0 <= j < r@.len() && i != j ==> r@[i] != r@[j],
{
    rand::seq::index::sample(rng, length, amount).into_vec()
}

} // verus!
