//! Random draws, taken from the `rand` crate.

use vstd::prelude::*;

use rand::rngs::ThreadRng;

verus! {

/// The thread-local generator of `rand`, carried through as an opaque value.
#[verifier::external_type_specification]
#[verifier::external_body]
pub struct ExThreadRng(rand::rngs::ThreadRng);

/// Relies on `rand::thread_rng`: hands out the generator of the current thread.
#[verifier::external_body]
pub(crate) fn thread_rng() -> (r: ThreadRng) {
    rand::thread_rng()
}

/// Relies on `rand::Rng::gen_range` (rand 0.7): a value drawn from `[low, high)`.
/// It panics unless `low < high`.
#[verifier::external_body]
pub(crate) fn gen_range(rng: &mut ThreadRng, low: u32, high: u32) -> (r: u32)
    requires
        low < high,
    ensures
        low <= r < high,
{
    rand::Rng::gen_range(rng, low, high)
}

/// Relies on `rand::Rng::gen::<bool>`: a coin toss. Nothing is known of the outcome.
#[verifier::external_body]
pub(crate) fn gen_bool(rng: &mut ThreadRng) -> bool {
    rand::Rng::gen::<bool>(rng)
}

} // verus!
