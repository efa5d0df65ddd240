//! Tilesort: an adaptive, run-exploiting in-memory sort.
//!
//! A single left-to-right scan detects maximal monotonic runs ("tiles") of the
//! input; each tile is inserted, as soon as it closes, into a key-ordered tile
//! index that splits tiles on demand to resolve overlapping key ranges; the
//! output is the concatenation of the tiles in index order.

use vstd::prelude::*;

pub mod key_extractor;
pub mod sorter;
pub mod tile_index;

verus! {

use crate::key_extractor::KeyExtractor;
use crate::sorter::{key_seq, sorted_in_dir, tilesort_impl, tilesort_impl_with_key};
use crate::tile_index::distinct_seq;

/// Sort `data` in place with the identity key, ascending when `reverse` is
/// false and descending when it is true.
///
/// The result is always a permutation of the input; when the input values
/// are pairwise distinct it is fully ordered in the requested direction; an
/// input already ordered in the requested direction, and any input of length
/// at most one, comes back unchanged.
pub fn sort(data: &mut Vec<u64>, reverse: bool)
    ensures
        final(data)@.to_multiset() == old(data)@.to_multiset(),
        final(data)@.len() == old(data)@.len(),
        distinct_seq(old(data)@) ==> sorted_in_dir(final(data)@, reverse),
        sorted_in_dir(old(data)@, reverse) ==> final(data)@ == old(data)@,
        old(data)@.len() <= 1 ==> final(data)@ == old(data)@,
{
    tilesort_impl(data, reverse)
}

/// Sort `data` in place by the keys that `key_extractor` assigns, ascending
/// when `reverse` is false and descending when it is true.
///
/// The result is always a permutation of the input; when the extracted keys
/// are pairwise distinct it is ordered by key in the requested direction; an
/// input whose keys are already ordered in the requested direction, and any
/// input of length at most one, comes back unchanged.
pub fn sort_by_key<E: KeyExtractor>(data: &mut Vec<u64>, key_extractor: &E, reverse: bool)
    ensures
        final(data)@.to_multiset() == old(data)@.to_multiset(),
        final(data)@.len() == old(data)@.len(),
        distinct_seq(key_seq(key_extractor, old(data)@)) ==> sorted_in_dir(
            key_seq(key_extractor, final(data)@),
            reverse,
        ),
        sorted_in_dir(key_seq(key_extractor, old(data)@), reverse) ==> final(data)@ == old(
            data,
        )@,
        old(data)@.len() <= 1 ==> final(data)@ == old(data)@,
{
    tilesort_impl_with_key(data, key_extractor, reverse)
}

} // verus!
