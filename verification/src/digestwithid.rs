use vstd::prelude::*;

use crate::digest::{key_val, Digest};

verus! {

/// A transient pairing of a source (a block or a worker, by index) with its
/// current smallest digest; an absent digest means the source is exhausted.
pub struct DigestWithID {
    pub id: usize,
    pub digest: Option<Digest>,
}

impl DigestWithID {
    pub fn new(id: usize, digest: Option<Digest>) -> (e: DigestWithID)
        ensures
            e.id == id,
            e.digest == digest,
    {
        DigestWithID { id, digest }
    }
}

/// The selection order of the merge queues: entries with digests compare by
/// key, and an exhausted source counts as strictly greater than any live
/// one, so it is never selected while real data remains.
pub open spec fn entry_le(a: DigestWithID, b: DigestWithID) -> bool {
    match (a.digest, b.digest) {
        (Some(x), Some(y)) => key_val(x@) <= key_val(y@),
        (Some(x), None) => true,
        (None, Some(y)) => false,
        (None, None) => true,
    }
}

pub fn entry_le_exec(a: &DigestWithID, b: &DigestWithID) -> (r: bool)
    ensures
        r == entry_le(*a, *b),
{
    match (&a.digest, &b.digest) {
        (Some(x), Some(y)) => x.key() <= y.key(),
        (Some(_), None) => true,
        (None, Some(_)) => false,
        (None, None) => true,
    }
}

/// The position of a minimal entry of the queue under the selection order,
/// or nothing if the queue is empty.
pub fn find_min_index(queue: &Vec<DigestWithID>) -> (r: Option<usize>)
    ensures
        r is None <==> queue@.len() == 0,
        r matches Some(m) ==> m < queue@.len() && forall|j: int|
            0 <= j < queue@.len() ==> entry_le(queue@[m as int], #[trigger] queue@[j]),
{
    if queue.len() == 0 {
        return None;
    }
    let mut best: usize = 0;
    let mut k: usize = 1;
    while k < queue.len()
        invariant
            best < k <= queue@.len(),
            forall|j: int| 0 <= j < k ==> entry_le(queue@[best as int], #[trigger] queue@[j]),
        decreases queue@.len() - k,
    {
        if !entry_le_exec(&queue[best], &queue[k]) {
            best = k;
        }
        k = k + 1;
    }
    Some(best)
}

} // verus!
