//! The random choices the generators make, drawn from a seeded `StdRng`.
//! Each function here is a thin shell over one call into `rand`; the
//! contracts say only what holds of every outcome.

use rand::rngs::StdRng;
use rand::seq::{IndexedRandom, SliceRandom};
use rand::RngExt;
use vstd::prelude::*;

verus! {

/// The generator every maze is drawn from. Opaque: nothing is known of its
/// state, so two draws with the same arguments may differ.
#[verifier::external_type_specification]
#[verifier::external_body]
pub struct ExStdRng(StdRng);

/// `RngExt::random_range` over `low..high`: a number in that range.
/// The source asserts the range is non-empty, so `requires` does too.
#[verifier::external_body]
pub(crate) fn random_range(rng: &mut StdRng, low: usize, high: usize) -> (r: usize)
    requires
        low < high,
    ensures
        low <= r < high,
{
    rng.random_range(low..high)
}

/// `RngExt::random_ratio`: true with probability `numerator / denominator`.
/// Its documentation promises `true` when the two are equal and `false`
/// when the numerator is zero; it panics on a zero denominator or a
/// numerator above the denominator, which `requires` leaves out.
#[verifier::external_body]
pub(crate) fn random_ratio(rng: &mut StdRng, numerator: u32, denominator: u32) -> (r: bool)
    requires
        0 < denominator,
        numerator <= denominator,
    ensures
        numerator == 0 ==> !r,
        numerator == denominator ==> r,
{
    rng.random_ratio(numerator, denominator)
}

/// `IndexedRandom::choose` on a slice, copied out: `None` exactly when the
/// slice is empty, otherwise one of its elements. Which one is left open.
#[verifier::external_body]
pub(crate) fn pick<T: Copy>(items: &[T], rng: &mut StdRng) -> (r: Option<T>)
    ensures
        r is None <==> items@.len() == 0,
        r matches Some(v) ==> items@.contains(v),
{
    items.choose(rng).copied()
}

/// `SliceRandom::shuffle`: the source only swaps elements, so the result is
/// a permutation of the input. The order it picks is left open.
#[verifier::external_body]
pub(crate) fn shuffle<T>(items: &mut Vec<T>, rng: &mut StdRng)
    ensures
        final(items)@.len() == old(items)@.len(),
        final(items)@.to_multiset() == old(items)@.to_multiset(),
{
    items.as_mut_slice().shuffle(rng)
}

} // verus!
