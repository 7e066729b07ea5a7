//! The one place the library touches a random number generator. The
//! generator is injected by the caller, so tests can seed it and replay a
//! generation or a relocation deterministically.

use vstd::prelude::*;

verus! {

#[verifier::external_type_specification]
#[verifier::external_body]
pub struct ExStdRng(rand::rngs::StdRng);

/// Relies on rand::Rng::gen_range over `0..bound`: the sampled value lies in
/// that half-open range. The range is non-empty because `bound` is positive,
/// so the call cannot panic.
#[verifier::external_body]
pub(crate) fn rng_below(rng: &mut rand::rngs::StdRng, bound: i32) -> (r: i32)
    requires
        bound >= 1,
    ensures
        0 <= r < bound,
{
    rand::Rng::gen_range(rng, 0..bound)
}

} // verus!
