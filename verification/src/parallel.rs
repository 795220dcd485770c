use vstd::prelude::*;

use rayon::iter::{IntoParallelIterator, ParallelIterator};
use rayon::slice::ParallelSliceMut;

use crate::codec::{digest_of_index, range_digests};
use crate::digest::{cmp_desc, sorted_desc, views, Digest};

verus! {

/// Relies on rayon's parallel iterator over an inclusive integer range,
/// collected into a vector: one digest per index, each computed by the
/// verified `digest_of_index`. The collection order is not relied upon, only
/// that every index contributes exactly one digest.
#[verifier::external_body]
pub(crate) fn par_generate(start: u64, end: u64) -> (r: Vec<Digest>)
    requires
        start <= end,
        end - start < usize::MAX,
    ensures
        r@.len() == end - start + 1,
        views(r@).to_multiset() == range_digests(start, end).to_multiset(),
{
    (start..=end).into_par_iter().map(|i| digest_of_index(i)).collect()
}

/// Relies on rayon's par_sort_unstable_by: the slice afterwards is a
/// permutation of its old contents, ordered by the given comparator — here
/// the verified `cmp_desc`, so descending by comparison key.
#[verifier::external_body]
pub(crate) fn par_sort_desc(v: &mut Vec<Digest>)
    ensures
        final(v)@.len() == old(v)@.len(),
        views(final(v)@).to_multiset() == views(old(v)@).to_multiset(),
        sorted_desc(views(final(v)@)),
{
    v.par_sort_unstable_by(|a, b| cmp_desc(a, b));
}

} // verus!
