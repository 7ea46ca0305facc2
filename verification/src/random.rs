//! The random source that the simulation draws from.
//!
//! The generator is handed in by the caller, so that a seeded one makes a run
//! repeatable. Nothing is known of a draw but its range.

use rand::rngs::StdRng;
use rand::seq::SliceRandom;
use rand::Rng;
use vstd::prelude::*;

verus! {

/// The seedable generator of the `rand` crate, carried through as an opaque
/// value.
#[verifier::external_type_specification]
#[verifier::external_body]
pub struct ExStdRng(rand::rngs::StdRng);

/// A number drawn from `0..bound`.
///
/// Trusted: states of `Rng::random_range`, called on the half-open range
/// `0..bound`, that the number it returns lies in that range. The call
/// panics on an empty range, which `requires` leaves out.
#[verifier::external_body]
pub(crate) fn random_below(rng: &mut StdRng, bound: u32) -> (r: u32)
    requires
        bound > 0,
    ensures
        r < bound,
{
    rng.random_range(0..bound)
}

/// Reorders `items` at random, in place.
///
/// Trusted: states of `SliceRandom::shuffle` that the slice afterwards holds
/// the items it held before, each as often as before.
#[verifier::external_body]
pub(crate) fn shuffle_indices(rng: &mut StdRng, items: &mut Vec<usize>)
    ensures
        final(items)@.to_multiset() == old(items)@.to_multiset(),
{
    items.shuffle(rng);
}

} // verus!
