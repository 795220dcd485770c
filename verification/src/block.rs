use vstd::prelude::*;

use crate::codec::range_digests;
use crate::digest::{sorted_asc, sorted_desc, views, Digest};
use crate::error::{ThesisError, ThesisResult};
use crate::parallel::{par_generate, par_sort_desc};

verus! {

/// One contiguous range of indices and the file that holds its digests.
///
/// The backing file is modelled as an owned byte buffer: `file` holds
/// exactly the bytes the on-disk file would hold, and deleting the file
/// clears the buffer and `file_exists`. A deployment that keeps the bytes
/// on disk mirrors this buffer there and performs the same reads and
/// truncations.
pub struct Block {
    pub id: u64,
    pub start: u64,
    pub end: u64,
    /// The hot set: digests currently held in memory.
    pub hashes: Vec<Digest>,
    /// The bytes of the block's backing file.
    pub file: Vec<u8>,
    pub file_exists: bool,
    /// Bytes to page in per read during the merge phase; a multiple of the
    /// digest size.
    pub merge_buffer_size: u64,
    /// Whether `init_merge` has run: before that, `pop` yields nothing.
    pub merging: bool,
}

impl Block {
    /// The digests stored in the backing file, in file order.
    pub open spec fn file_digests(self) -> Seq<Seq<u8>> {
        Seq::new(
            (self.file@.len() as int / 16) as nat,
            |k: int| self.file@.subrange(16 * k, 16 * k + 16),
        )
    }

    /// Everything this block has still to yield, in the order `pop` will
    /// yield it: first the hot set from its back, then the file from its
    /// tail.
    pub open spec fn pending(self) -> Seq<Seq<u8>> {
        views(self.hashes@).reverse() + self.file_digests().reverse()
    }

    /// How many indices this block covers.
    pub open spec fn range_len(self) -> int {
        self.end - self.start + 1
    }

    pub open spec fn wf(self) -> bool {
        &&& self.start <= self.end
        &&& self.file@.len() % 16 == 0
        &&& (!self.file_exists ==> self.file@.len() == 0)
        &&& (self.merging ==> 16 <= self.merge_buffer_size && self.merge_buffer_size % 16
            == 0)
        &&& (self.merging ==> sorted_asc(self.pending()))
    }

    /// A fresh block covering `[start, end]`; rejects an empty range.
    pub fn new(id: u64, start: u64, end: u64) -> (r: ThesisResult<Block>)
        ensures
            r is Err <==> end < start,
            r matches Err(e) ==> e is CreateError,
            r matches Ok(b) ==> {
                &&& b.wf()
                &&& b.id == id
                &&& b.start == start
                &&& b.end == end
                &&& b.hashes@.len() == 0
                &&& b.file@.len() == 0
                &&& !b.file_exists
                &&& !b.merging
                &&& b.merge_buffer_size == 0
            },
    {
        if end < start {
            return Err(ThesisError::CreateError("Bad start and end argument: end < start".to_owned()));
        }
        Ok(Block {
            id,
            start,
            end,
            hashes: Vec::new(),
            file: Vec::new(),
            file_exists: false,
            merge_buffer_size: 0,
            merging: false,
        })
    }

    /// Fills the hot set with one digest per index in the range; the order
    /// of the collection is unspecified.
    pub fn generate(&mut self)
        requires
            old(self).wf(),
            !old(self).merging,
            old(self).end - old(self).start < usize::MAX,
        ensures
            final(self).wf(),
            final(self).id == old(self).id,
            final(self).start == old(self).start,
            final(self).end == old(self).end,
            final(self).file == old(self).file,
            final(self).file_exists == old(self).file_exists,
            final(self).merge_buffer_size == old(self).merge_buffer_size,
            !final(self).merging,
            final(self).hashes@.len() == old(self).range_len(),
            views(final(self).hashes@).to_multiset() == range_digests(
                old(self).start,
                old(self).end,
            ).to_multiset(),
    {
        self.hashes = par_generate(self.start, self.end);
    }

    /// Sorts the hot set descending by comparison key.
    pub fn sort(&mut self)
        requires
            old(self).wf(),
            !old(self).merging,
        ensures
            final(self).wf(),
            final(self).id == old(self).id,
            final(self).start == old(self).start,
            final(self).end == old(self).end,
            final(self).file == old(self).file,
            final(self).file_exists == old(self).file_exists,
            final(self).merge_buffer_size == old(self).merge_buffer_size,
            !final(self).merging,
            final(self).hashes@.len() == old(self).hashes@.len(),
            views(final(self).hashes@).to_multiset() == views(old(self).hashes@).to_multiset(),
            sorted_desc(views(final(self).hashes@)),
    {
        par_sort_desc(&mut self.hashes);
    }

    /// Writes the hot set, in its current order, to a freshly created
    /// backing file.
    pub fn write_to_file(&mut self)
        requires
            old(self).wf(),
            !old(self).merging,
            old(self).hashes@.len() * 16 <= usize::MAX,
        ensures
            final(self).wf(),
            final(self).id == old(self).id,
            final(self).start == old(self).start,
            final(self).end == old(self).end,
            final(self).hashes == old(self).hashes,
            final(self).merge_buffer_size == old(self).merge_buffer_size,
            !final(self).merging,
            final(self).file_exists,
            final(self).file@.len() == 16 * old(self).hashes@.len(),
            final(self).file_digests() == views(old(self).hashes@),
    {
        let mut file: Vec<u8> = Vec::new();
        let mut i: usize = 0;
        while i < self.hashes.len()
            invariant
                i <= self.hashes@.len(),
                self.hashes@.len() * 16 <= usize::MAX,
                file@.len() == 16 * i,
                forall|k: int|
                    0 <= k < i ==> #[trigger] file@.subrange(16 * k, 16 * k + 16)
                        == self.hashes@[k]@,
            decreases self.hashes@.len() - i,
        {
            let d = self.hashes[i];
            let ghost prev = file@;
            file.extend_from_slice(d.0.as_slice());
            proof {
                assert(file@ == prev + self.hashes@[i as int]@);
                assert forall|k: int| 0 <= k < i + 1 implies #[trigger] file@.subrange(
                    16 * k,
                    16 * k + 16,
                ) == self.hashes@[k]@ by {
                    if k < i {
                        assert(file@.subrange(16 * k, 16 * k + 16) =~= prev.subrange(
                            16 * k,
                            16 * k + 16,
                        ));
                    } else {
                        assert(file@.subrange(16 * k, 16 * k + 16) =~= self.hashes@[k]@);
                    }
                }
            }
            i = i + 1;
        }
        self.file = file;
        self.file_exists = true;
        proof {
            assert(self.file_digests() =~= views(old(self).hashes@));
        }
    }

    /// Frees the hot set without touching the backing file.
    pub fn drop_hashes(&mut self)
        requires
            old(self).wf(),
        ensures
            final(self).wf(),
            final(self).id == old(self).id,
            final(self).start == old(self).start,
            final(self).end == old(self).end,
            final(self).file == old(self).file,
            final(self).file_exists == old(self).file_exists,
            final(self).merge_buffer_size == old(self).merge_buffer_size,
            final(self).merging == old(self).merging,
            final(self).hashes@.len() == 0,
            final(self).pending() == old(self).file_digests().reverse(),
    {
        self.hashes = Vec::new();
        proof {
            assert(self.pending() =~= self.file_digests().reverse());
            if self.merging {
                lemma_suffix_sorted(*old(self), *self);
            }
        }
    }

    /// Remembers the merge window (floored to whole digests, rejecting a
    /// window smaller than one digest) and pages in the first window.
    pub fn init_merge(&mut self, merge_buffer_size: u64) -> (r: ThesisResult<()>)
        requires
            old(self).wf(),
            !old(self).merging,
            old(self).file_exists,
            old(self).hashes@.len() == 0,
            sorted_desc(old(self).file_digests()),
        ensures
            r is Err <==> merge_buffer_size < 16,
            r matches Err(e) ==> e is MergeError && *final(self) == *old(self),
            r is Ok ==> {
                &&& final(self).wf()
                &&& final(self).id == old(self).id
                &&& final(self).start == old(self).start
                &&& final(self).end == old(self).end
                &&& final(self).merging
                &&& final(self).merge_buffer_size == merge_buffer_size - merge_buffer_size
                    % 16
                &&& final(self).pending() == old(self).file_digests().reverse()
            },
    {
        let floored: u64 = merge_buffer_size - merge_buffer_size % 16;
        if floored == 0 {
            return Err(ThesisError::MergeError("Merge buffer size too small, expected at least one digest".to_owned()));
        }
        self.merge_buffer_size = floored;
        self.merging = true;
        proof {
            // the freshly initialised state is well-formed: the hot set is
            // empty, so what is pending is the reversed file, which is
            // ascending because the file is descending
            assert(self.pending() =~= self.file_digests().reverse());
            crate::digest::lemma_reverse_sorted(self.file_digests());
        }
        let ghost before = *self;
        self.read();
        proof {
            assert(self.pending() == before.file_digests().reverse());
            assert(before.file_digests() =~= old(self).file_digests());
        }
        Ok(())
    }

    /// Pages the tail of the backing file into the hot set and truncates the
    /// file by the same amount; an empty file is deleted instead.
    pub fn read(&mut self)
        requires
            old(self).wf(),
            old(self).merging,
            old(self).file_exists,
        ensures
            final(self).wf(),
            final(self).id == old(self).id,
            final(self).start == old(self).start,
            final(self).end == old(self).end,
            final(self).merge_buffer_size == old(self).merge_buffer_size,
            final(self).merging,
            final(self).pending() == old(self).file_digests().reverse(),
            old(self).file@.len() == 0 ==> !final(self).file_exists && final(self).file@.len()
                == 0 && final(self).hashes@.len() == 0,
            old(self).file@.len() > 0 ==> {
                let flen = old(self).file@.len() as int;
                let seek = if old(self).merge_buffer_size > flen {
                    0
                } else {
                    flen - old(self).merge_buffer_size
                };
                &&& final(self).file_exists
                &&& final(self).file@ == old(self).file@.subrange(0, seek)
                &&& views(final(self).hashes@) == old(self).file_digests().subrange(
                    seek / 16,
                    flen / 16,
                )
            },
    {
        self.hashes = Vec::new();
        let file_length: usize = self.file.len();
        if file_length == 0 {
            self.file_exists = false;
            proof {
                assert(self.pending() =~= old(self).file_digests().reverse());
                lemma_suffix_sorted(*old(self), *self);
            }
            return;
        }
        let seek_start: usize = if self.merge_buffer_size > file_length as u64 {
            0
        } else {
            file_length - self.merge_buffer_size as usize
        };
        let count: usize = (file_length - seek_start) / 16;
        proof {
            assert(seek_start % 16 == 0);
            assert(seek_start + 16 * count == file_length);
        }
        let mut hashes: Vec<Digest> = Vec::new();
        let mut k: usize = 0;
        while k < count
            invariant
                k <= count,
                seek_start + 16 * count == file_length,
                file_length == self.file@.len(),
                hashes@.len() == k,
                forall|j: int|
                    0 <= j < k ==> #[trigger] hashes@[j]@ == self.file@.subrange(
                        seek_start + 16 * j,
                        seek_start + 16 * j + 16,
                    ),
            decreases count - k,
        {
            let mut bytes: [u8; 16] = [0u8; 16];
            let base: usize = seek_start + 16 * k;
            let mut j: usize = 0;
            while j < 16
                invariant
                    j <= 16,
                    base == seek_start + 16 * k,
                    k < count,
                    seek_start + 16 * count == file_length,
                    file_length == self.file@.len(),
                    bytes@.len() == 16,
                    forall|m: int| 0 <= m < j ==> bytes@[m] == self.file@[base + m],
                decreases 16 - j,
            {
                bytes[j] = self.file[base + j];
                j = j + 1;
            }
            proof {
                assert(bytes@ =~= self.file@.subrange(
                    seek_start + 16 * (k as int),
                    seek_start + 16 * (k as int) + 16,
                ));
            }
            hashes.push(Digest(bytes));
            k = k + 1;
        }
        self.file.truncate(seek_start);
        self.hashes = hashes;
        proof {
            self.lemma_read_post(*old(self), seek_start as int, count as int);
        }
    }

    /// Removes and returns the next pending digest, paging in more of the
    /// file when the hot set runs dry; yields nothing before `init_merge`
    /// and nothing after the block is exhausted.
    pub fn pop(&mut self) -> (r: Option<Digest>)
        requires
            old(self).wf(),
        ensures
            final(self).wf(),
            final(self).id == old(self).id,
            final(self).start == old(self).start,
            final(self).end == old(self).end,
            final(self).merge_buffer_size == old(self).merge_buffer_size,
            final(self).merging == old(self).merging,
            !old(self).merging ==> *final(self) == *old(self) && r is None,
            old(self).merging ==> {
                if old(self).pending().len() > 0 {
                    &&& r matches Some(d) && d@ == old(self).pending()[0]
                    &&& final(self).pending() == old(self).pending().drop_first()
                } else {
                    &&& r is None
                    &&& final(self).pending().len() == 0
                }
            },
    {
        if !self.merging {
            return None;
        }
        if self.hashes.len() == 0 {
            if !self.file_exists {
                proof {
                    assert(self.pending().len() == 0);
                }
                return None;
            }
            let ghost before = *self;
            self.read();
            proof {
                assert(before.pending() =~= before.file_digests().reverse());
                assert(old(self).pending() == self.pending());
            }
        }
        let ghost cur = *self;
        let r = self.hashes.pop();
        proof {
            lemma_pop_hot(cur, *self, r);
            assert(cur.pending() == old(self).pending());
        }
        r
    }
}

/// Dropping the hot set keeps a merging block well-formed: what remains
/// pending is a suffix of what was pending, so it is still sorted.
proof fn lemma_suffix_sorted(before: Block, after: Block)
    requires
        before.wf(),
        before.merging,
        after.pending() == before.file_digests().reverse(),
    ensures
        sorted_asc(after.pending()),
{
    let hl = views(before.hashes@).reverse().len() as int;
    assert forall|i: int, j: int|
        0 <= i <= j < after.pending().len() implies crate::digest::key_val(
        after.pending()[i],
    ) <= crate::digest::key_val(after.pending()[j]) by {
        assert(before.pending()[hl + i] == after.pending()[i]);
        assert(before.pending()[hl + j] == after.pending()[j]);
    }
}

impl Block {
    /// After a page-in, the block holds the old file's tail in its hot set
    /// and the rest in the file; nothing pending changed and it stays
    /// sorted.
    proof fn lemma_read_post(self, before: Block, seek: int, count: int)
        requires
            before.wf(),
            before.merging,
            before.file@.len() > 0,
            0 <= seek,
            seek % 16 == 0,
            seek + 16 * count == before.file@.len(),
            count > 0,
            self.file@ == before.file@.subrange(0, seek),
            self.hashes@.len() == count,
            forall|j: int|
                0 <= j < count ==> #[trigger] self.hashes@[j]@ == before.file@.subrange(
                    seek + 16 * j,
                    seek + 16 * j + 16,
                ),
            self.start == before.start,
            self.end == before.end,
            self.file_exists == before.file_exists,
            self.merging == before.merging,
            self.merge_buffer_size == before.merge_buffer_size,
        ensures
            self.wf(),
            self.pending() == before.file_digests().reverse(),
            views(self.hashes@) == before.file_digests().subrange(
                seek / 16,
                before.file@.len() as int / 16,
            ),
    {
        let n = before.file@.len() as int / 16;
        let s = seek / 16;
        assert(16 * s == seek);
        assert(n == s + count);
        assert(self.file@.len() == seek);
        assert(self.file@.len() % 16 == 0);
        assert(self.file_digests().len() == s);
        assert forall|k: int| 0 <= k < s implies #[trigger] self.file_digests()[k]
            == before.file_digests()[k] by {
            assert(self.file_digests()[k] =~= before.file_digests()[k]);
        }
        assert forall|j: int| 0 <= j < count implies #[trigger] views(self.hashes@)[j]
            == before.file_digests()[s + j] by {
            assert(views(self.hashes@)[j] == self.hashes@[j]@);
            assert(before.file_digests()[s + j] == before.file@.subrange(
                16 * (s + j),
                16 * (s + j) + 16,
            ));
            assert(16 * (s + j) == seek + 16 * j);
        }
        assert(views(self.hashes@) =~= before.file_digests().subrange(s, n));
        assert forall|i: int| 0 <= i < n implies #[trigger] self.pending()[i]
            == before.file_digests().reverse()[i] by {
            assert(before.file_digests().reverse()[i] == before.file_digests()[n - 1 - i]);
            if i < count {
                assert(self.pending()[i] == views(self.hashes@).reverse()[i]);
                assert(views(self.hashes@).reverse()[i] == views(self.hashes@)[count - 1 - i]);
                assert(views(self.hashes@)[count - 1 - i] == before.file_digests()[s + count - 1
                    - i]);
            } else {
                assert(self.pending()[i] == self.file_digests().reverse()[i - count]);
                assert(self.file_digests().reverse()[i - count] == self.file_digests()[s - 1 - (i
                    - count)]);
            }
        }
        assert(self.pending() =~= before.file_digests().reverse());
        lemma_suffix_sorted(before, self);
    }
}

/// Popping the last element of the hot set removes the head of what is
/// pending.
proof fn lemma_pop_hot(before: Block, after: Block, r: Option<Digest>)
    requires
        before.wf(),
        before.merging,
        after.file == before.file,
        after.file_exists == before.file_exists,
        after.merging == before.merging,
        after.merge_buffer_size == before.merge_buffer_size,
        after.start == before.start,
        after.end == before.end,
        before.hashes@.len() == 0 ==> r is None && after.hashes@ == before.hashes@,
        before.hashes@.len() > 0 ==> r == Some(before.hashes@.last()) && after.hashes@
            == before.hashes@.drop_last(),
        before.hashes@.len() == 0 ==> before.pending().len() == 0 || !before.file_exists,
    ensures
        after.wf(),
        before.pending().len() > 0 ==> {
            &&& r matches Some(d) && d@ == before.pending()[0]
            &&& after.pending() == before.pending().drop_first()
        },
        before.pending().len() == 0 ==> r is None && after.pending().len() == 0,
{
    if before.hashes@.len() > 0 {
        let hl = before.hashes@.len() as int;
        assert(before.pending()[0] == views(before.hashes@).reverse()[0]);
        assert(views(before.hashes@).reverse()[0] == views(before.hashes@)[hl - 1]);
        assert forall|i: int| 0 <= i < after.pending().len() implies #[trigger] after.pending()[i]
            == before.pending()[i + 1] by {
            if i < hl - 1 {
                assert(after.pending()[i] == views(after.hashes@).reverse()[i]);
                assert(views(after.hashes@).reverse()[i] == views(after.hashes@)[hl - 2 - i]);
                assert(views(after.hashes@)[hl - 2 - i] == views(before.hashes@)[hl - 2 - i]);
                assert(before.pending()[i + 1] == views(before.hashes@).reverse()[i + 1]);
            } else {
                assert(after.pending()[i] == after.file_digests().reverse()[i - (hl - 1)]);
                assert(after.file_digests() =~= before.file_digests());
                assert(before.pending()[i + 1] == before.file_digests().reverse()[i + 1 - hl]);
            }
        }
        assert(after.pending() =~= before.pending().drop_first());
        assert(sorted_asc(after.pending()));
    } else {
        if before.pending().len() == 0 {
            assert(after.pending() =~= before.pending());
        } else {
            assert(!before.file_exists);
            assert(before.file@.len() == 0);
            assert(before.pending().len() == 0);
        }
    }
}

} // verus!
