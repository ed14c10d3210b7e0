//! Source of randomness for the rollout and search policies.
use vstd::prelude::*;

verus! {

/// Relies on rand::random: one machine word drawn from the thread-local
/// generator. Nothing is promised of the value; callers reduce it modulo a
/// list length and prove their claims for every possible draw.
#[verifier::external_body]
pub(crate) fn random_usize() -> usize {
    rand::random::<usize>()
}

} // verus!
