//! Random draws, by the seeded generator of the `rand` crate.
//!
//! Nothing is claimed of which values come, only what holds of every outcome.
use rand::rngs::StdRng;
use rand::seq::SliceRandom;
use rand::{Rng, SeedableRng};
use vstd::prelude::*;

verus! {

/// The generator, `rand::rngs::StdRng`; nothing is claimed of its state.
#[verifier::external_type_specification]
#[verifier::external_body]
pub struct ExStdRng(StdRng);

/// `StdRng::seed_from_u64`: a generator started from `seed`.
#[verifier::external_body]
pub(crate) fn seeded(seed: u64) -> (rng: StdRng) {
    StdRng::seed_from_u64(seed)
}

/// `Rng::gen_range` on `0..n`: some position below `n`. It panics on an empty range.
#[verifier::external_body]
pub(crate) fn draw_below(rng: &mut StdRng, n: usize) -> (drawn: usize)
    requires
        n > 0,
    ensures
        drawn < n,
{
    rng.gen_range(0..n)
}

/// `SliceRandom::shuffle`: the same items, in some order.
#[verifier::external_body]
pub(crate) fn shuffle(rng: &mut StdRng, items: &mut Vec<usize>)
    ensures
        final(items)@.to_multiset() == old(items)@.to_multiset(),
{
    items.shuffle(rng);
}

/// `SliceRandom::choose_multiple`: the items of `amount` different places of the slice, or of all
/// of them where it is shorter, in some order. Of a slice with more than `u32::MAX` items it can
/// only take a part: asked for all of them, it fails a debug assertion.
#[verifier::external_body]
pub(crate) fn choose_multiple(rng: &mut StdRng, items: &[usize], amount: usize) -> (chosen: Vec<
    usize,
>)
    requires
        amount < items@.len() || items@.len() <= u32::MAX,
    ensures
        chosen@.len() == (if amount <= items@.len() {
            amount as int
        } else {
            items@.len() as int
        }),
        chosen@.to_multiset().subset_of(items@.to_multiset()),
{
    items.choose_multiple(rng, amount).copied().collect()
}

} // verus!
