//! The random-number source used by weighted sampling, behind a trusted
//! boundary: the library only ever assumes that a draw lands inside the
//! requested range, never which value comes out.

use vstd::prelude::*;

verus! {

#[verifier::external_type_specification]
#[verifier::external_body]
pub struct ExThreadRng(rand::rngs::ThreadRng);

/// Relies on rand's `RngExt::random_range` over `0..bound`: the draw lies in
/// that range, which is nonempty because `bound >= 1` (the call panics on an
/// empty range). Nothing is assumed about which value is drawn.
#[verifier::external_body]
pub(crate) fn rand_below(rng: &mut rand::rngs::ThreadRng, bound: u32) -> (r: u32)
    requires
        bound >= 1,
    ensures
        r < bound,
{
    rand::RngExt::random_range(rng, 0..bound)
}

} // verus!
