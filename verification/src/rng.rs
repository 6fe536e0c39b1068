use rand::rngs::StdRng;
use rand::seq::SliceRandom;
use vstd::prelude::*;

verus! {

/// The seedable generator of `rand`, carried through unopened.
#[verifier::external_type_specification]
#[verifier::external_body]
pub struct ExStdRng(StdRng);

/// Shuffles the items in place with `SliceRandom::shuffle` and the generator of
/// `rand::thread_rng`. That shuffle only swaps items (Fisher-Yates), so the items
/// are a permutation of what they were; which permutation is left unsaid, as it
/// rests on chance.
#[verifier::external_body]
pub(crate) fn shuffle_with_thread_rng<T>(items: &mut Vec<T>)
    ensures
        final(items)@.len() == old(items)@.len(),
        final(items)@.to_multiset() == old(items)@.to_multiset(),
{
    items.shuffle(&mut rand::thread_rng());
}

/// Shuffles the items in place with `SliceRandom::shuffle` and the given
/// generator. That shuffle only swaps items (Fisher-Yates), so the items are a
/// permutation of what they were; which permutation, and the generator's new
/// state, are left unsaid.
#[verifier::external_body]
pub(crate) fn shuffle_with_rng<T>(items: &mut Vec<T>, rng: &mut StdRng)
    ensures
        final(items)@.len() == old(items)@.len(),
        final(items)@.to_multiset() == old(items)@.to_multiset(),
{
    items.shuffle(rng);
}

} // verus!
