//! The colony's dice. Every random choice in the library goes through here.

use vstd::prelude::*;

use rand::seq::{IndexedRandom, SliceRandom};

verus! {

/// One of `items`, picked at random by `rand::seq::IndexedRandom::choose` on
/// the thread-local generator (`rand::rng()`); `None` only for an empty slice.
/// Which one is not stated: it is chance. `rand::rng()` panics if the
/// operating system cannot seed it, which nothing here can rule out.
#[verifier::external_body]
pub(crate) fn pick<T: Copy>(items: &[T]) -> (r: Option<T>)
    ensures
        r is None <==> items@.len() == 0,
        r matches Some(x) ==> items@.contains(x),
{
    items.choose(&mut rand::rng()).copied()
}

/// `items` in a random order, by `rand::seq::SliceRandom::shuffle` on the
/// thread-local generator: the same items, each as often as before. Which
/// order is not stated: it is chance.
#[verifier::external_body]
pub(crate) fn shuffle<T>(items: &mut Vec<T>)
    ensures
        final(items)@.len() == old(items)@.len(),
        final(items)@.to_multiset() == old(items)@.to_multiset(),
{
    items.shuffle(&mut rand::rng())
}

} // verus!
