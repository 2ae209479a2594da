use vstd::prelude::*;
use crate::cards::Card;

verus! {

/// rand's standard generator, carried through the library as an opaque
/// value so that every draw is explicit and hands stay reproducible.
#[verifier::external_type_specification]
#[verifier::external_body]
pub struct ExStdRng(rand::rngs::StdRng);

/// Relies on rand's `SeedableRng::from_seed` for `StdRng`: builds a
/// generator from a 32-byte seed. Nothing is promised of what it yields.
#[verifier::external_body]
pub fn rng_from_seed(seed: [u8; 32]) -> (r: rand::rngs::StdRng) {
    <rand::rngs::StdRng as rand::SeedableRng>::from_seed(seed)
}

/// Relies on rand's `Rng::gen` and `SeedableRng::from_seed`: derives a
/// fresh generator from one 32-byte draw of the given one.
#[verifier::external_body]
pub fn rseed(rng: &mut rand::rngs::StdRng) -> (r: rand::rngs::StdRng) {
    let seed: [u8; 32] = rand::Rng::gen(rng);
    <rand::rngs::StdRng as rand::SeedableRng>::from_seed(seed)
}

/// Relies on rand's `SliceRandom::shuffle`: permutes the cards in place,
/// keeping exactly the same multiset of cards.
#[verifier::external_body]
pub fn shuffle_cards(rng: &mut rand::rngs::StdRng, cards: &mut Vec<Card>)
    ensures
        final(cards)@.to_multiset() == old(cards)@.to_multiset(),
        final(cards)@.len() == old(cards)@.len(),
{
    rand::seq::SliceRandom::shuffle(cards.as_mut_slice(), rng)
}

/// Relies on rand's `SliceRandom::shuffle`: permutes the items in place,
/// keeping exactly the same multiset of items.
#[verifier::external_body]
pub fn shuffle_items<T>(rng: &mut rand::rngs::StdRng, items: &mut Vec<T>)
    ensures
        final(items)@.to_multiset() == old(items)@.to_multiset(),
        final(items)@.len() == old(items)@.len(),
{
    rand::seq::SliceRandom::shuffle(items.as_mut_slice(), rng)
}

/// Relies on rand's `Rng::gen_range`: a uniformly drawn index below `n`.
#[verifier::external_body]
pub fn pick_index(rng: &mut rand::rngs::StdRng, n: usize) -> (r: usize)
    requires
        n >= 1,
    ensures
        r < n,
{
    rand::Rng::gen_range(rng, 0..n)
}

/// Relies on rand's `IteratorRandom::choose_multiple`: draws `amount`
/// distinct positions' items from the list, a sub-multiset of it.
#[verifier::external_body]
pub fn choose_multiple<T>(rng: &mut rand::rngs::StdRng, items: Vec<T>, amount: usize) -> (r: Vec<
    T,
>)
    requires
        amount <= items@.len(),
    ensures
        r@.len() == amount,
        r@.to_multiset().subset_of(items@.to_multiset()),
{
    rand::seq::IteratorRandom::choose_multiple(items.into_iter(), rng, amount)
}

} // verus!
