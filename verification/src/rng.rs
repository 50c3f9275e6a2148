//! Trusted boundary to the pseudo-random generator of the `rand` crate.
//!
//! All randomness of the library flows through the two draws below, on one
//! explicit `StdRng` threaded through every call that needs it, so a run is
//! reproducible from a seed. Nothing is assumed about which value a draw
//! returns, only that it lies below the given bound; every function of the
//! library is verified for each value the generator may hand back.

use vstd::prelude::*;

verus! {

#[verifier::external_type_specification]
#[verifier::external_body]
pub struct ExStdRng(rand::rngs::StdRng);

/// Relies on rand's `Rng::gen_range` over `0..n` on `usize`: the sample lies
/// in the range. It panics only on an empty range, which the precondition
/// rules out.
#[verifier::external_body]
pub(crate) fn rand_index(rng: &mut rand::rngs::StdRng, n: usize) -> (r: usize)
    requires
        n >= 1,
    ensures
        r < n,
{
    rand::Rng::gen_range(rng, 0..n)
}

/// Relies on rand's `Rng::gen_range` over `0..n` on `u64`: the sample lies
/// in the range. It panics only on an empty range, which the precondition
/// rules out.
#[verifier::external_body]
pub(crate) fn rand_u64_below(rng: &mut rand::rngs::StdRng, n: u64) -> (r: u64)
    requires
        n >= 1,
    ensures
        r < n,
{
    rand::Rng::gen_range(rng, 0..n)
}

} // verus!
