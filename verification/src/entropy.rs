//! Seeds that no caller has chosen.

use rand::Rng;
use vstd::prelude::*;

verus! {

/// A 64-bit value from the generator that the `rand` crate keeps for the
/// calling thread: `rand::thread_rng()`, asked through `rand::Rng::gen`.
/// Nothing is claimed of the value, and two calls may differ.
#[verifier::external_body]
pub(crate) fn random_seed() -> (seed: u64) {
    rand::thread_rng().gen::<u64>()
}

} // verus!
