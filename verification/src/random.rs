//! The two places where chance enters: shuffling and picking one of several.
//!
//! Both draw from the thread-local generator of the `rand` crate, which seeds
//! itself from the operating system and aborts the thread if that source is
//! unavailable. Nothing is proved about either; their contracts state only
//! what holds of every outcome.

use rand::seq::SliceRandom;
use rand::thread_rng;
use vstd::prelude::*;

verus! {

/// Reorders `items` at random, by `rand::seq::SliceRandom::shuffle`.
///
/// Trusted: the shuffle only swaps elements of the slice, so the items
/// afterwards are the items before, each as often as before.
#[verifier::external_body]
pub(crate) fn shuffle<T>(items: &mut Vec<T>)
    ensures
        final(items)@.to_multiset() == old(items)@.to_multiset(),
{
    items.shuffle(&mut thread_rng());
}

/// Picks one element of `items` at random, by
/// `rand::seq::SliceRandom::choose`.
///
/// Trusted: the result is `None` exactly for an empty list, and otherwise an
/// element of the list.
#[verifier::external_body]
pub(crate) fn choose_one(items: &Vec<usize>) -> (picked: Option<usize>)
    ensures
        items@.len() == 0 <==> picked is None,
        picked matches Some(item) ==> items@.contains(item),
{
    items.choose(&mut thread_rng()).copied()
}

} // verus!
