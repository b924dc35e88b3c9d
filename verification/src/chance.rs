//! The random draws that mine placement needs, taken from `rand`.
//!
//! Nothing here is proved: each contract states what the generator's
//! source shows of every outcome, and no more.

use rand::Rng;
use rand::rngs::ThreadRng;
use rand::seq::SliceRandom;
use vstd::prelude::*;

verus! {

/// `rand::rngs::ThreadRng`, the generator of the calling thread. It is
/// carried through; nothing is known of what it holds.
#[verifier::external_type_specification]
#[verifier::external_body]
pub struct ExThreadRng(ThreadRng);

/// `rand::thread_rng` hands out the generator of the calling thread.
/// Nothing is claimed of it.
pub assume_specification[ rand::thread_rng ]() -> ThreadRng;

/// Calls `Rng::gen_range` with the range `0..n`. The generator refuses
/// an empty range, so `n` must not be zero; the draw lies in the range.
/// Two calls may differ.
#[verifier::external_body]
pub(crate) fn random_below(rng: &mut ThreadRng, n: usize) -> (r: usize)
    requires
        n > 0,
    ensures
        r < n,
{
    rng.gen_range(0..n)
}

/// Calls `SliceRandom::shuffle` on the whole vector. The shuffle only
/// swaps elements, so the vector holds afterwards what it held before,
/// each value as often, in some order.
#[verifier::external_body]
pub(crate) fn shuffle_bytes(v: &mut Vec<u8>, rng: &mut ThreadRng)
    ensures
        final(v)@.to_multiset() == old(v)@.to_multiset(),
{
    v.shuffle(rng)
}

} // verus!
