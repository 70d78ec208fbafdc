//! The keyed hash that turns an item into its 64-bit primary hash.

use vstd::prelude::*;

verus! {

/// The 64-bit hash that `ahash` gives the string `item` under the four
/// seeds `k0`, `k1`, `k2`, `k3`.
pub uninterp spec fn keyed_hash(k0: u64, k1: u64, k2: u64, k3: u64, item: Seq<char>) -> u64;

/// Calls `ahash::RandomState::with_seeds` on the four seeds and then
/// `ahash::RandomState::hash_one` on the item. Not proved: that the result is
/// a function of the seeds and of the item's characters alone, which is what
/// `ahash` documents of a state built from explicit seeds. Nothing is claimed
/// of the value itself.
#[verifier::external_body]
pub(crate) fn hash_item(k0: u64, k1: u64, k2: u64, k3: u64, item: &str) -> (h: u64)
    ensures
        h == keyed_hash(k0, k1, k2, k3, item@),
{
    ahash::RandomState::with_seeds(k0, k1, k2, k3).hash_one(item)
}

} // verus!
