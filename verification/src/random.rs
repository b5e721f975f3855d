//! The random choices the game makes, through the `rand` crate.

use vstd::prelude::*;

verus! {

/// Shuffles `v` in place, calling `rand::seq::SliceRandom::shuffle` with
/// `rand::thread_rng()`. Claimed: the same elements come back, in some
/// order. Not claimed: which order (it is random). `thread_rng` panics only
/// where the operating system's random source cannot be read, which no
/// argument controls.
#[verifier::external_body]
pub(crate) fn shuffle<T>(v: &mut Vec<T>)
    ensures
        final(v)@.to_multiset() == old(v)@.to_multiset(),
        final(v)@.len() == old(v)@.len(),
{
    rand::seq::SliceRandom::shuffle(&mut v[..], &mut rand::thread_rng());
}

/// A random `bool`, from `rand::Rng::gen` on `rand::thread_rng()`. Nothing
/// is claimed of the value.
#[verifier::external_body]
pub(crate) fn random_bool() -> bool {
    rand::Rng::gen::<bool>(&mut rand::thread_rng())
}

/// A random index below `n`, from `rand::Rng::gen_range(0..n)` on
/// `rand::thread_rng()`, which panics on an empty range (hence `n > 0`).
/// Claimed: the value is below `n`.
#[verifier::external_body]
pub(crate) fn random_below(n: usize) -> (res: usize)
    requires
        n > 0,
    ensures
        res < n,
{
    rand::Rng::gen_range(&mut rand::thread_rng(), 0..n)
}

/// Picks up to `amount` of `items` at random, calling
/// `rand::seq::IteratorRandom::choose_multiple` on their iterator with
/// `rand::thread_rng()`. Claimed, as its documentation and source show:
/// `amount` of them come back, or all where there are fewer, each picked at
/// most once. Not claimed: which ones, or in what order.
#[verifier::external_body]
pub(crate) fn choose_multiple<T>(items: Vec<T>, amount: usize) -> (res: Vec<T>)
    ensures
        res@.len() == if items@.len() < amount { items@.len() } else { amount as nat },
        res@.to_multiset().subset_of(items@.to_multiset()),
{
    rand::seq::IteratorRandom::choose_multiple(items.into_iter(), &mut rand::thread_rng(), amount)
}

} // verus!
