//! The one source of randomness: drawing a card picks a uniformly random
//! position among the cards that remain in the pile.

use vstd::prelude::*;

verus! {

/// Relies on rand::random_range over `0..n`: the sampled value lies in the
/// range, and the call panics only on an empty range, which the precondition
/// rules out. Nothing more can be promised of a random value.
#[verifier::external_body]
pub(crate) fn random_index(n: usize) -> (r: usize)
    requires
        n > 0,
    ensures
        r < n,
{
    rand::random_range(0..n)
}

} // verus!
