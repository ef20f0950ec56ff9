//! The calls into the `rand` crate. Nothing here is proved: each contract
//! records what the crate's source shows of the call.
//!
//! All of them draw from the thread's generator, which panics where the
//! system has no entropy to give, at a thread's first draw or at a reseed. No
//! argument decides that, so no contract can leave it out: it stands with
//! running out of memory.

use rand::seq::SliceRandom;
use rand::Rng;
use vstd::prelude::*;

verus! {

/// `rand::seq::SliceRandom::shuffle` on the items, with the thread's generator.
/// The crate's source swaps pairs of elements in place, so the items after the
/// call are the items before it in some order. It panics only where the
/// generator does.
#[verifier::external_body]
pub(crate) fn shuffle<T>(items: &mut Vec<T>)
    ensures
        final(items)@.to_multiset() == old(items)@.to_multiset(),
{
    items.shuffle(&mut rand::thread_rng());
}

/// `rand::Rng::gen_range` on `low..high`, with the thread's generator. The
/// call panics on an empty range, and where the generator does; otherwise the
/// number drawn lies in the range.
#[verifier::external_body]
pub(crate) fn random_in_range(low: usize, high: usize) -> (n: usize)
    requires
        low < high,
    ensures
        low <= n < high,
{
    rand::thread_rng().gen_range(low..high)
}

/// `rand::random` at `u8`: any byte may come back. It panics only where the
/// generator does.
#[verifier::external_body]
pub(crate) fn random_byte() -> u8 {
    rand::random::<u8>()
}

} // verus!
