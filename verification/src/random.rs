//! The random source: the thread-local generator of the `rand` crate and
//! its in-place shuffle. Nothing is proved of these items; their contracts
//! say what the crate's source shows.

use vstd::prelude::*;
use rand::seq::SliceRandom;

verus! {

/// The handle of `rand`'s thread-local generator. Its state is opaque.
#[verifier::external_type_specification]
#[verifier::external_body]
pub struct ExThreadRng(rand::rngs::ThreadRng);

/// `rand::thread_rng` hands out the calling thread's generator, seeded by
/// the operating system; it panics only where the system cannot seed it.
/// Nothing is claimed of the handle.
pub assume_specification[ rand::thread_rng ]() -> (rng: rand::rngs::ThreadRng)
;

/// `SliceRandom::shuffle` reorders a slice in place by a series of swaps,
/// so the items afterwards are the items before, each as often as before.
/// Which order comes out is left open.
#[verifier::external_body]
pub(crate) fn shuffle<T>(items: &mut Vec<T>, rng: &mut rand::rngs::ThreadRng)
    ensures
        final(items)@.to_multiset() == old(items)@.to_multiset(),
{
    items.shuffle(rng);
}

} // verus!
