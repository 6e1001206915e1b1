use vstd::prelude::*;
use rand::seq::{IteratorRandom, SliceRandom};
use crate::position::Position;

verus! {

/// Relies on rand's `IteratorRandom::choose` with the thread-local generator:
/// on a non-empty palette it returns one of its types (picked uniformly).
#[verifier::external_body]
pub(crate) fn random_type(types: &Vec<u32>) -> (r: u32)
    requires
        types@.len() > 0,
    ensures
        types@.contains(r),
{
    *types.iter().choose(&mut rand::thread_rng()).unwrap()
}

/// Relies on rand's `SliceRandom::shuffle` with the thread-local generator:
/// the positions are put in a random order, none added or lost.
#[verifier::external_body]
pub(crate) fn shuffle_positions(v: &mut Vec<Position>)
    ensures
        final(v)@.len() == old(v)@.len(),
        final(v)@.to_multiset() == old(v)@.to_multiset(),
{
    v.shuffle(&mut rand::thread_rng());
}

} // verus!
