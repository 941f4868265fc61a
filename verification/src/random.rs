//! The random source. Nothing here is proved: each contract states what the
//! `rand` crate documents.

use rand::rngs::ThreadRng;
use rand::seq::SliceRandom;
use rand::Rng;
use vstd::prelude::*;

verus! {

/// `rand::rngs::ThreadRng`, the handle of the thread's generator. Nothing is
/// known of what it holds.
#[verifier::external_type_specification]
#[verifier::external_body]
pub struct ExThreadRng(ThreadRng);

/// `rand::thread_rng` hands out the generator of the calling thread. Nothing
/// is said about the handle.
pub assume_specification[ rand::thread_rng ]() -> (rng: ThreadRng)
;

/// `Rng::gen_range` on the inclusive range `low..=high`. It panics on an
/// empty range, which `requires` rules out, and returns a value of the
/// range; which one is left open.
#[verifier::external_body]
pub(crate) fn random_between(rng: &mut ThreadRng, low: u8, high: u8) -> (drawn: u8)
    requires
        low <= high,
    ensures
        low <= drawn <= high,
{
    rng.gen_range(low..=high)
}

/// `SliceRandom::shuffle` reorders the items in place by swapping pairs of
/// them: the same items come out, each as often as it went in. The order
/// is left open.
#[verifier::external_body]
pub(crate) fn shuffle<T>(items: &mut Vec<T>, rng: &mut ThreadRng)
    ensures
        final(items)@.to_multiset() == old(items)@.to_multiset(),
{
    items.shuffle(rng);
}

} // verus!
