//! The crate's only source of randomness, used for the jitter on hit
//! normals and for camera anti-aliasing.

use vstd::prelude::*;
use nanorand::Rng;

verus! {

/// Relies on nanorand's `tls_rng` and `Rng::generate::<u64>`: draws a
/// machine-random 64-bit value from the thread-local wyrand generator.
/// Nothing is assumed of the value.
#[verifier::external_body]
fn random_u64() -> u64 {
    nanorand::tls_rng().generate::<u64>()
}

/// A random micro-unit sample in `[0, 1)`; every verified caller handles
/// every value in that range.
pub fn rand_micro() -> (r: i128)
    ensures
        0 <= r < 1_000_000,
{
    let x = random_u64();
    (x % 1_000_000u64) as i128
}

} // verus!
