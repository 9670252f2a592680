//! The random choices that place the mines, made by the `rand` and
//! `rand_chacha` crates. Nothing here is proved: each contract states what
//! the crate documents of the call.

use vstd::prelude::*;
use rand::seq::{IteratorRandom, SliceRandom};
use rand::{RngCore, SeedableRng};
use rand_chacha::ChaCha12Rng;

verus! {

/// The ChaCha generator with twelve rounds, of `rand_chacha`. Its state is
/// not modelled.
#[verifier::external_type_specification]
#[verifier::external_body]
pub struct ExChaCha12Rng(ChaCha12Rng);

/// Calls `next_u64` on `rand::thread_rng()`: a number from the generator of
/// the running thread. Nothing is claimed of it.
#[verifier::external_body]
pub(crate) fn random_seed() -> u64 {
    rand::thread_rng().next_u64()
}

/// Calls `ChaCha12Rng::seed_from_u64`: a generator whose stream the seed
/// determines. Nothing is claimed of the stream.
#[verifier::external_body]
pub(crate) fn seeded_generator(seed: u64) -> ChaCha12Rng {
    ChaCha12Rng::seed_from_u64(seed)
}

/// Calls `IteratorRandom::choose_multiple` on the cells: `amount` of them,
/// each taken from a place of its own in the list, in no stated order.
#[verifier::external_body]
pub(crate) fn choose_cells(cells: Vec<(usize, usize)>, rng: &mut ChaCha12Rng, amount: usize) -> (chosen:
    Vec<(usize, usize)>)
    requires
        amount <= cells@.len(),
    ensures
        chosen@.len() == amount,
        chosen@.to_multiset().subset_of(cells@.to_multiset()),
{
    cells.into_iter().choose_multiple(rng, amount)
}

/// Calls `SliceRandom::shuffle` on the cells: the same cells in another
/// order.
#[verifier::external_body]
pub(crate) fn shuffle_cells(cells: &mut Vec<(usize, usize)>, rng: &mut ChaCha12Rng)
    ensures
        final(cells)@.to_multiset() == old(cells)@.to_multiset(),
{
    cells.shuffle(rng)
}

} // verus!
