//! Trusted access to the random generator and the clock. Nothing is
//! assumed about the values drawn beyond their range; every decision
//! taken on them is made by verified code.

use vstd::prelude::*;

verus! {

#[verifier::external_type_specification]
#[verifier::external_body]
pub struct ExStdRng(rand::rngs::StdRng);

#[verifier::external_type_specification]
#[verifier::external_body]
pub struct ExInstant(std::time::Instant);

/// Relies on rand's `SeedableRng::from_seed`: a deterministic generator
/// built from a fixed all-zero seed.
#[verifier::external_body]
pub fn rng_from_seed() -> rand::rngs::StdRng {
    <rand::rngs::StdRng as rand::SeedableRng>::from_seed([0; 32])
}

/// Relies on rand's `Rng::gen_range`: a value in `[lo, hi)`. The range
/// must be non-empty, else the call panics.
#[verifier::external_body]
pub fn gen_range_u64(rng: &mut rand::rngs::StdRng, lo: u64, hi: u64) -> (r: u64)
    requires
        lo < hi,
    ensures
        lo <= r < hi,
{
    rand::Rng::gen_range(rng, lo..hi)
}

/// Relies on rand's `Rng::gen_range`: a value in `[lo, hi)`. The range
/// must be non-empty, else the call panics.
#[verifier::external_body]
pub fn gen_range_i64(rng: &mut rand::rngs::StdRng, lo: i64, hi: i64) -> (r: i64)
    requires
        lo < hi,
    ensures
        lo <= r < hi,
{
    rand::Rng::gen_range(rng, lo..hi)
}

/// Relies on `std::time::Instant::now`.
#[verifier::external_body]
pub fn instant_now() -> std::time::Instant {
    std::time::Instant::now()
}

/// Relies on `Instant::elapsed` and `Duration::as_millis`; the reading
/// depends on the clock, so nothing is promised of it.
#[verifier::external_body]
pub fn elapsed_millis(t: &std::time::Instant) -> u64 {
    t.elapsed().as_millis() as u64
}

} // verus!
