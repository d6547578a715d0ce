//! Random draws.

use rand::Rng;
use vstd::prelude::*;

verus! {

/// A draw between zero and `bound`: `rand`'s `Rng::random_range` over the closed
/// range, by the thread's own generator. Which number comes out is chance.
#[verifier::external_body]
pub(crate) fn random_up_to(bound: u64) -> (draw: u64)
    ensures
        draw <= bound,
{
    rand::rng().random_range(0..=bound)
}

/// A number to tell one write from another by: `rand`'s `Rng::random`, by the
/// thread's own generator. Which number comes out is chance, and nothing is stated
/// of it.
#[verifier::external_body]
fn random_number() -> (number: u64) {
    rand::rng().random::<u64>()
}

/// A number to tell one write from another by. Any number may come out.
pub fn fresh_nonce() -> (nonce: u64) {
    random_number()
}

} // verus!
