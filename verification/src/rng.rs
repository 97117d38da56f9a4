//! Trusted boundary to the random number generator: the engine's only source
//! of nondeterminism, used to pick the spawn cell and the spawned value.

use vstd::prelude::*;

verus! {

#[verifier::external_type_specification]
#[verifier::external_body]
pub struct ExThreadRng(rand::rngs::ThreadRng);

/// Relies on rand::thread_rng: a handle to the thread-local generator.
/// Nothing is promised of the values it will yield.
#[verifier::external_body]
pub(crate) fn fresh_rng() -> rand::rngs::ThreadRng {
    rand::thread_rng()
}

/// Relies on Rng::gen_range over `0..n`: a uniformly random value below `n`.
/// The call panics on an empty range, so `n` must be positive; its
/// documentation promises a result in the given range, and nothing more
/// can be said of a random draw.
#[verifier::external_body]
pub(crate) fn rand_below(rng: &mut rand::rngs::ThreadRng, n: usize) -> (r: usize)
    requires
        n >= 1,
    ensures
        r < n,
{
    rand::Rng::gen_range(rng, 0..n)
}

/// Relies on Rng::gen_ratio: true with probability `num / den`. The call
/// panics when `den` is zero or `num > den`; either outcome is possible,
/// so nothing is promised of the result.
#[verifier::external_body]
pub(crate) fn rand_ratio(rng: &mut rand::rngs::ThreadRng, num: u32, den: u32) -> bool
    requires
        1 <= den,
        num <= den,
{
    rand::Rng::gen_ratio(rng, num, den)
}

} // verus!
