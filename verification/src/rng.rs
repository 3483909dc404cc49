use vstd::prelude::*;

use crate::bytes::views_of;
use rand::seq::SliceRandom;

verus! {

/// Relies on rand::seq::SliceRandom::shuffle: a Fisher-Yates pass over the
/// slice that rearranges its elements in place by swaps, so afterwards the
/// vector holds exactly the elements it held before, in some order.
#[verifier::external_body]
pub(crate) fn shuffle_names(v: &mut Vec<Vec<u8>>)
    ensures
        final(v)@.len() == old(v)@.len(),
        views_of(final(v)@).to_multiset() == views_of(old(v)@).to_multiset(),
{
    v.shuffle(&mut rand::thread_rng());
}

/// Relies on rand::random: an arbitrary value drawn from the thread-local
/// generator. Nothing is promised of the result.
#[verifier::external_body]
pub(crate) fn random_u64() -> u64 {
    rand::random::<u64>()
}

} // verus!
