//! Trusted access to the process random source.
//!
//! Randomness (secret choice, tie-breaks, color assignment) comes from the
//! `rand` crate. Nothing is assumed of the distribution; each wrapper states
//! only what holds of every possible outcome.

use vstd::prelude::*;

use rand::seq::SliceRandom;

verus! {

/// Relies on rand::random_range over `0..n`: the result lies in the range.
/// The precondition keeps the range non-empty, on which the call would panic.
#[verifier::external_body]
pub(crate) fn random_index(n: usize) -> (r: usize)
    requires
        n >= 1,
    ensures
        r < n,
{
    rand::random_range(0..n)
}

/// Relies on rand's SliceRandom::shuffle: it permutes the slice in place,
/// so the multiset of values (and the length) is unchanged.
#[verifier::external_body]
pub(crate) fn shuffle_values(v: &mut Vec<u8>)
    ensures
        final(v)@.to_multiset() == old(v)@.to_multiset(),
        final(v)@.len() == old(v)@.len(),
{
    v.shuffle(&mut rand::rng());
}

} // verus!
