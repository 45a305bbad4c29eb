//! The random choices, drawn from the generator of the `rand` crate.

use vstd::prelude::*;

verus! {

/// `rand::rngs::ThreadRng`, the generator that each thread keeps. Nothing inside it
/// is visible to the contracts.
#[verifier::external_type_specification]
#[verifier::external_body]
pub struct ExThreadRng(rand::rngs::ThreadRng);

/// `rand::thread_rng` hands out the generator of the current thread. Nothing is
/// claimed of it.
pub assume_specification[ rand::thread_rng ]() -> (rng: rand::rngs::ThreadRng)
;

/// `rand::Rng::gen_range` on the inclusive range from `low` to `high`. It is taken on
/// trust that the value drawn lies in that range; an empty range, on which the call
/// panics, is left out.
#[verifier::external_body]
pub(crate) fn random_in_range(rng: &mut rand::rngs::ThreadRng, low: usize, high: usize) -> (drawn:
    usize)
    requires
        low <= high,
    ensures
        low <= drawn <= high,
{
    rand::Rng::gen_range(rng, low..=high)
}

/// `rand::seq::SliceRandom::shuffle` on the items of a vector. It is taken on trust
/// that the call only reorders: the items after it are those before it, each as often
/// as before.
#[verifier::external_body]
pub(crate) fn shuffle(items: &mut Vec<i32>, rng: &mut rand::rngs::ThreadRng)
    ensures
        final(items)@.to_multiset() == old(items)@.to_multiset(),
{
    rand::seq::SliceRandom::shuffle(items.as_mut_slice(), rng)
}

} // verus!
