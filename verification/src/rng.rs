//! The randomness source used for lane-height selection, behind trusted
//! declarations: Verus believes the stated contracts and does not look at
//! the calls into `rand`.

use vstd::prelude::*;
use rand::Rng;

verus! {

#[verifier::external_type_specification]
#[verifier::external_body]
pub struct ExThreadRng(rand::rngs::ThreadRng);

/// Relies on rand::rng: hands out a handle to the thread-local generator.
#[verifier::external_body]
pub(crate) fn fresh_rng() -> rand::rngs::ThreadRng {
    rand::rng()
}

/// Relies on rand's Rng::random_range on `0..bound`: the result is drawn
/// from that range, so it is below `bound`; the call panics only on an
/// empty range, which `bound >= 1` rules out.
#[verifier::external_body]
pub(crate) fn random_below(rng: &mut rand::rngs::ThreadRng, bound: usize) -> (r: usize)
    requires
        bound >= 1,
    ensures
        r < bound,
{
    rng.random_range(0..bound)
}

} // verus!
