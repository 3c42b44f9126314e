//! The random sources of the soup, from the `rand` crate.

use vstd::prelude::*;
use rand::rngs::{SmallRng, ThreadRng};
use rand::seq::SliceRandom;
use rand::{Rng, SeedableRng};
use crate::constants::TAPE_SIZE;

verus! {

/// rand's small, fast, non-cryptographic generator.
#[verifier::external_type_specification]
#[verifier::external_body]
pub struct ExSmallRng(SmallRng);

/// rand's lazily seeded generator local to the thread.
#[verifier::external_type_specification]
#[verifier::external_body]
pub struct ExThreadRng(ThreadRng);

/// `SeedableRng::from_entropy` for `SmallRng`: a generator seeded from the
/// operating system. Nothing is claimed of its state.
#[verifier::external_body]
pub(crate) fn small_rng_from_entropy() -> SmallRng {
    SmallRng::from_entropy()
}

/// `rand::thread_rng`: the thread's generator. Nothing is claimed of its
/// state.
#[verifier::external_body]
pub(crate) fn thread_generator() -> ThreadRng {
    rand::thread_rng()
}

/// `Rng::fill` on a tape: a tape of random bytes. Nothing is claimed of the
/// bytes.
#[verifier::external_body]
pub(crate) fn random_tape(rng: &mut SmallRng) -> [u8; TAPE_SIZE] {
    let mut tape = [0u8; TAPE_SIZE];
    rng.fill(&mut tape);
    tape
}

/// `SliceRandom::shuffle`: a random permutation of the tapes. rand's
/// Fisher-Yates shuffle only swaps elements, so the same tapes remain, each
/// as often; which permutation comes out is not claimed.
#[verifier::external_body]
pub(crate) fn shuffle_tapes(tapes: &mut Vec<[u8; TAPE_SIZE]>, rng: &mut SmallRng)
    ensures
        final(tapes)@.len() == old(tapes)@.len(),
        final(tapes)@.to_multiset() == old(tapes)@.to_multiset(),
{
    tapes.shuffle(rng);
}

/// `Rng::gen_range(0..n)`: a random index below `n`. It panics on an empty
/// range, so `n` must be positive. Which index comes out is not claimed.
#[verifier::external_body]
pub(crate) fn random_below(rng: &mut ThreadRng, n: usize) -> (r: usize)
    requires
        n > 0,
    ensures
        r < n,
{
    rng.gen_range(0..n)
}

/// `rand::seq::index::sample`: `amount` distinct random indices below
/// `length`, in no stated order. It panics when `amount > length`. Which
/// indices come out is not claimed.
#[verifier::external_body]
pub(crate) fn sample_indices(rng: &mut ThreadRng, length: usize, amount: usize) -> (r: Vec<usize>)
    requires
        amount <= length,
    ensures
        r@.len() == amount,
        forall|i: int| 0 <= i < r@.len() ==> #[trigger] r@[i] < length,
        r@.no_duplicates(),
{
    rand::seq::index::sample(rng, length, amount).into_vec()
}

} // verus!
