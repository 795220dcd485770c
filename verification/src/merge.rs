use vstd::prelude::*;

use vstd::assert_multisets_equal;
use vstd::multiset::Multiset;
use vstd::std_specs::vec::vec_index_mut;

use crate::block::Block;
use crate::create::Arguments;
use crate::digest::{key_val, sorted_asc, views, Digest};
use crate::digestwithid::{entry_le, find_min_index, DigestWithID};
use crate::error::{ThesisError, ThesisResult};

verus! {

broadcast use {vstd::multiset::group_multiset_axioms, vstd::seq_lib::group_to_multiset_ensures};

/// A source of pending digests: what it has still to yield, as a multiset
/// of digest views.
pub trait PendingSource {
    spec fn pend(self) -> Multiset<Seq<u8>>;
}

impl PendingSource for DigestWithID {
    /// A queue entry holds its digest, if it has one.
    open spec fn pend(self) -> Multiset<Seq<u8>> {
        match self.digest {
            Some(d) => Multiset::empty().insert(d@),
            None => Multiset::empty(),
        }
    }
}

impl PendingSource for Block {
    /// A block holds whatever its `pop` has still to yield.
    open spec fn pend(self) -> Multiset<Seq<u8>> {
        self.pending().to_multiset()
    }
}

/// Everything a run of sources has still to yield, taken together.
pub open spec fn sum_ms<T: PendingSource>(s: Seq<T>) -> Multiset<Seq<u8>>
    decreases s.len(),
{
    if s.len() == 0 {
        Multiset::empty()
    } else {
        s[0].pend().add(sum_ms(s.drop_first()))
    }
}

pub proof fn lemma_sum_ms_push<T: PendingSource>(s: Seq<T>, x: T)
    ensures
        sum_ms(s.push(x)) == sum_ms(s).add(x.pend()),
    decreases s.len(),
{
    if s.len() == 0 {
        assert(s.push(x).drop_first() =~= s);
        assert(sum_ms(s.push(x)) =~= sum_ms(s).add(x.pend()));
    } else {
        assert(s.push(x).drop_first() =~= s.drop_first().push(x));
        lemma_sum_ms_push(s.drop_first(), x);
        assert(sum_ms(s.push(x)) =~= sum_ms(s).add(x.pend()));
    }
}

pub proof fn lemma_sum_ms_remove<T: PendingSource>(s: Seq<T>, i: int)
    requires
        0 <= i < s.len(),
    ensures
        sum_ms(s) == sum_ms(s.remove(i)).add(s[i].pend()),
    decreases s.len(),
{
    if i == 0 {
        assert(s.remove(0) =~= s.drop_first());
    } else {
        assert(s.remove(i).drop_first() =~= s.drop_first().remove(i - 1));
        assert(s.drop_first()[i - 1] == s[i]);
        lemma_sum_ms_remove(s.drop_first(), i - 1);
        assert(sum_ms(s) =~= sum_ms(s.remove(i)).add(s[i].pend()));
    }
}

pub proof fn lemma_sum_ms_update<T: PendingSource>(s: Seq<T>, i: int, x: T)
    requires
        0 <= i < s.len(),
    ensures
        sum_ms(s.update(i, x)).add(s[i].pend()) == sum_ms(s).add(x.pend()),
    decreases s.len(),
{
    if i == 0 {
        assert(s.update(0, x).drop_first() =~= s.drop_first());
        assert(s.update(0, x)[0] == x);
        assert(sum_ms(s.update(0, x)).add(s[0].pend()) =~= sum_ms(s).add(x.pend()));
    } else {
        let sd = s.drop_first();
        let su = s.update(i, x);
        assert(su[0] == s[0]);
        assert(su.drop_first() =~= sd.update(i - 1, x));
        assert(sd[i - 1] == s[i]);
        lemma_sum_ms_update(sd, i - 1, x);
        assert(sum_ms(su) == su[0].pend().add(sum_ms(su.drop_first())));
        assert(sum_ms(s) == s[0].pend().add(sum_ms(sd)));
        assert(sum_ms(su.drop_first()) == sum_ms(sd.update(i - 1, x)));
        assert_multisets_equal!(sum_ms(su).add(s[i].pend()), sum_ms(s).add(x.pend()), v => {
            assert(sum_ms(sd.update(i - 1, x)).add(sd[i - 1].pend()).count(v) == sum_ms(
                sd,
            ).add(x.pend()).count(v));
        });
    }
}

/// Whatever the sum holds, some source holds it.
pub proof fn lemma_sum_ms_member<T: PendingSource>(s: Seq<T>, x: Seq<u8>)
    requires
        sum_ms(s).count(x) > 0,
    ensures
        exists|i: int| 0 <= i < s.len() && (#[trigger] s[i]).pend().count(x) > 0,
    decreases s.len(),
{
    if s.len() == 0 {
    } else if s[0].pend().count(x) > 0 {
        assert(0 <= 0 < s.len() && s[0].pend().count(x) > 0);
    } else {
        lemma_sum_ms_member(s.drop_first(), x);
        let j = choose|j: int|
            0 <= j < s.drop_first().len() && (#[trigger] s.drop_first()[j]).pend().count(x) > 0;
        assert(s[j + 1].pend().count(x) > 0);
    }
}

/// If every source is drained, the sum is empty.
pub proof fn lemma_sum_ms_empty<T: PendingSource>(s: Seq<T>)
    requires
        forall|i: int| 0 <= i < s.len() ==> (#[trigger] s[i]).pend().len() == 0,
    ensures
        sum_ms(s).len() == 0,
    decreases s.len(),
{
    if s.len() > 0 {
        assert(s[0].pend().len() == 0);
        lemma_sum_ms_empty(s.drop_first());
    }
}

/// Splitting the head off a sorted pending run: the multiset loses exactly
/// the head, and the head is no larger than anything left.
proof fn lemma_pending_head(p: Seq<Seq<u8>>)
    requires
        p.len() > 0,
    ensures
        p.to_multiset().count(p[0]) > 0,
        p.drop_first().to_multiset() == p.to_multiset().remove(p[0]),
{
    assert(p.contains(p[0]));
    assert(p.remove(0) =~= p.drop_first());
    assert(p.remove(0).to_multiset() =~= p.to_multiset().remove(p[0]));
}

/// A local k-way merge over a disjoint run of merge-initialised blocks:
/// repeatedly yields the smallest digest any of them has still to yield.
pub struct WorkerMerge {
    pub blocks: Vec<Block>,
    pub queue: Vec<DigestWithID>,
}

impl WorkerMerge {
    /// Everything this worker has still to yield.
    pub open spec fn pending_ms(self) -> Multiset<Seq<u8>> {
        sum_ms(self.queue@).add(sum_ms(self.blocks@))
    }

    /// The entry points at a block, its digest is the least that block has
    /// still to yield, and an absent digest marks a drained block.
    pub open spec fn entry_ok(self, i: int) -> bool {
        let e = self.queue@[i];
        &&& e.id < self.blocks@.len()
        &&& (e.digest matches Some(d) ==> forall|j: int|
            0 <= j < self.blocks@[e.id as int].pending().len() ==> key_val(d@) <= key_val(
                #[trigger] self.blocks@[e.id as int].pending()[j],
            ))
        &&& (e.digest is None ==> self.blocks@[e.id as int].pending().len() == 0)
    }

    /// Some entry points at block `b`.
    pub open spec fn covered(self, b: int) -> bool {
        exists|i: int| 0 <= i < self.queue@.len() && (#[trigger] self.queue@[i]).id == b
    }

    pub open spec fn wf(self) -> bool {
        &&& forall|i: int| 0 <= i < self.queue@.len() ==> #[trigger] self.entry_ok(i)
        &&& forall|i: int, j: int|
            0 <= i < j < self.queue@.len() ==> (#[trigger] self.queue@[i]).id != (
            #[trigger] self.queue@[j]).id
        &&& forall|i: int|
            0 <= i < self.blocks@.len() ==> (#[trigger] self.blocks@[i]).wf()
                && self.blocks@[i].merging
        &&& forall|b: int|
            0 <= b < self.blocks@.len() && !self.covered(b) ==> (
            #[trigger] self.blocks@[b]).pending().len() == 0
    }

    /// Takes ownership of a run of blocks and seeds the queue with one
    /// entry per block: its first `pop`, which may already be absent.
    pub fn new(blocks: Vec<Block>) -> (w: WorkerMerge)
        requires
            forall|i: int|
                0 <= i < blocks@.len() ==> (#[trigger] blocks@[i]).wf() && blocks@[i].merging,
        ensures
            w.wf(),
            w.pending_ms() == sum_ms(blocks@),
            w.blocks@.len() == blocks@.len(),
    {
        let ghost orig = blocks@;
        let n: usize = blocks.len();
        let mut w = WorkerMerge { blocks, queue: Vec::new() };
        let mut i: usize = 0;
        while i < n
            invariant
                n == w.blocks@.len(),
                i <= n,
                w.queue@.len() == i,
                forall|k: int| 0 <= k < i ==> (#[trigger] w.queue@[k]).id == k,
                forall|k: int|
                    0 <= k < n ==> (#[trigger] w.blocks@[k]).wf() && w.blocks@[k].merging,
                forall|k: int| 0 <= k < i ==> #[trigger] w.entry_ok(k),
                sum_ms(w.queue@).add(sum_ms(w.blocks@)) == sum_ms(orig),
            decreases n - i,
        {
            let ghost wprev = w;
            let ghost qs = w.queue@;
            let ghost bs = w.blocks@;
            let d = vec_index_mut(&mut w.blocks, i).pop();
            let e = DigestWithID::new(i, d);
            w.queue.push(e);
            proof {
                let bi = bs[i as int];
                let nb = w.blocks@[i as int];
                assert(w.blocks@ =~= bs.update(i as int, nb));
                lemma_sum_ms_update(bs, i as int, nb);
                lemma_sum_ms_push(qs, e);
                if bi.pending().len() > 0 {
                    lemma_pending_head(bi.pending());
                    assert(e.pend().add(nb.pend()) =~= bi.pend());
                } else {
                    assert(e.pend().add(nb.pend()) =~= bi.pend());
                }
                assert_multisets_equal!(sum_ms(w.queue@).add(sum_ms(w.blocks@)), sum_ms(orig), v => {
                    assert(sum_ms(qs).add(sum_ms(bs)).count(v) == sum_ms(orig).count(v));
                    assert(sum_ms(w.queue@).count(v) == sum_ms(qs).add(e.pend()).count(v));
                    assert(sum_ms(w.blocks@).add(bi.pend()).count(v) == sum_ms(bs).add(
                        nb.pend(),
                    ).count(v));
                    assert(e.pend().add(nb.pend()).count(v) == bi.pend().count(v));
                });
                assert forall|k: int| 0 <= k < i + 1 implies #[trigger] w.entry_ok(k) by {
                    if k < i {
                        assert(wprev.entry_ok(k));
                        assert(w.queue@[k] == qs[k]);
                        assert(qs[k].id == k);
                        assert(w.blocks@[k] == bs[k]);
                    } else {
                        assert(w.queue@[k] == e);
                        match e.digest {
                            Some(dd) => {
                                assert forall|j: int|
                                    0 <= j < nb.pending().len() implies key_val(dd@) <= key_val(
                                    nb.pending()[j],
                                ) by {
                                    assert(nb.pending()[j] == bi.pending()[j + 1]);
                                }
                            },
                            None => {
                                assert(nb.pending().len() == 0);
                            },
                        }
                    }
                }
            }
            i = i + 1;
        }
        proof {
            assert forall|b: int|
                0 <= b < w.blocks@.len() && !w.covered(b) implies (
            #[trigger] w.blocks@[b]).pending().len() == 0 by {
                assert(w.queue@[b].id == b);
                assert(w.covered(b));
            }
        }
        w
    }

    /// Yields the least digest still pending anywhere among this worker's
    /// blocks, or nothing once everything is drained.
    pub fn next(&mut self) -> (r: Option<Digest>)
        requires
            old(self).wf(),
        ensures
            final(self).wf(),
            final(self).blocks@.len() == old(self).blocks@.len(),
            old(self).pending_ms().len() > 0 ==> {
                &&& r matches Some(d)
                &&& old(self).pending_ms().count(d@) > 0
                &&& final(self).pending_ms() == old(self).pending_ms().remove(d@)
                &&& forall|x: Seq<u8>|
                    #[trigger] final(self).pending_ms().count(x) > 0 ==> key_val(d@) <= key_val(x)
            },
            old(self).pending_ms().len() == 0 ==> r is None && final(self).pending_ms()
                == old(self).pending_ms(),
    {
        let ghost base = *self;
        loop
            invariant
                self.wf(),
                self.pending_ms() == base.pending_ms(),
                self.blocks@.len() == base.blocks@.len(),
                base == *old(self),
            decreases self.queue@.len(),
        {
            let m: usize = match find_min_index(&self.queue) {
                None => {
                    proof {
                        assert forall|b: int|
                            0 <= b < self.blocks@.len() implies (
                        #[trigger] self.blocks@[b]).pend().len() == 0 by {
                            assert(!self.covered(b));
                        }
                        lemma_sum_ms_empty(self.blocks@);
                        assert(self.pending_ms().len() == 0);
                    }
                    return None;
                },
                Some(m) => m,
            };
            let ghost wt = *self;
            let entry = self.queue.remove(m);
            proof {
                lemma_sum_ms_remove(wt.queue@, m as int);
                assert(wt.entry_ok(m as int));
            }
            match entry.digest {
                None => {
                    proof {
                        self.lemma_discard_wf(wt, m as int);
                        assert(self.pending_ms() =~= wt.pending_ms());
                    }
                },
                Some(d) => {
                    let id: usize = entry.id;
                    let ghost bi = wt.blocks@[id as int];
                    let nxt = vec_index_mut(&mut self.blocks, id).pop();
                    let ghost nb = self.blocks@[id as int];
                    proof {
                        assert(self.blocks@ =~= wt.blocks@.update(id as int, nb));
                        lemma_sum_ms_update(wt.blocks@, id as int, nb);
                        if bi.pending().len() > 0 {
                            lemma_pending_head(bi.pending());
                        }
                    }
                    let ghost qs2 = self.queue@;
                    match nxt {
                        Some(nd) => {
                            let fresh = DigestWithID::new(id, Some(nd));
                            self.queue.push(fresh);
                            proof {
                                lemma_sum_ms_push(qs2, fresh);
                            }
                        },
                        None => {},
                    }
                    proof {
                        self.lemma_emit(wt, base, m as int, d, bi, nb, nxt);
                    }
                    return Some(d);
                },
            }
        }
    }

    /// Discarding an absent-digest entry keeps the worker well-formed and
    /// leaves its pending work unchanged.
    proof fn lemma_discard_wf(self, wt: WorkerMerge, m: int)
        requires
            wt.wf(),
            0 <= m < wt.queue@.len(),
            wt.queue@[m].digest is None,
            self.blocks == wt.blocks,
            self.queue@ == wt.queue@.remove(m),
        ensures
            self.wf(),
    {
        assert forall|i: int| 0 <= i < self.queue@.len() implies #[trigger] self.entry_ok(i) by {
            if i < m {
                assert(self.queue@[i] == wt.queue@[i]);
                assert(wt.entry_ok(i));
            } else {
                assert(self.queue@[i] == wt.queue@[i + 1]);
                assert(wt.entry_ok(i + 1));
            }
        }
        assert forall|i: int, j: int|
            0 <= i < j < self.queue@.len() implies (#[trigger] self.queue@[i]).id != (
        #[trigger] self.queue@[j]).id by {
            let i0 = if i < m {
                i
            } else {
                i + 1
            };
            let j0 = if j < m {
                j
            } else {
                j + 1
            };
            assert(self.queue@[i] == wt.queue@[i0]);
            assert(self.queue@[j] == wt.queue@[j0]);
        }
        assert forall|b: int|
            0 <= b < self.blocks@.len() && !self.covered(b) implies (
        #[trigger] self.blocks@[b]).pending().len() == 0 by {
            if wt.covered(b) {
                let iw = choose|iw: int|
                    0 <= iw < wt.queue@.len() && (#[trigger] wt.queue@[iw]).id == b;
                if iw == m {
                    assert(wt.entry_ok(m));
                } else {
                    let ni = if iw < m {
                        iw
                    } else {
                        iw - 1
                    };
                    assert(self.queue@[ni] == wt.queue@[iw]);
                    assert(self.covered(b));
                }
            }
        }
    }

    /// Emitting the selected least entry: the worker stays well-formed, its
    /// pending work loses exactly that digest, and the digest is no larger
    /// than anything still pending.
    #[verifier::rlimit(60)]
    proof fn lemma_emit(
        self,
        wt: WorkerMerge,
        base: WorkerMerge,
        m: int,
        d: Digest,
        bi: Block,
        nb: Block,
        nxt: Option<Digest>,
    )
        requires
            wt.wf(),
            0 <= m < wt.queue@.len(),
            wt.queue@[m].digest == Some(d),
            wt.queue@[m].id < wt.blocks@.len(),
            forall|j: int|
                0 <= j < wt.queue@.len() ==> entry_le(wt.queue@[m], #[trigger] wt.queue@[j]),
            bi == wt.blocks@[wt.queue@[m].id as int],
            self.blocks@ == wt.blocks@.update(wt.queue@[m].id as int, nb),
            nb.wf(),
            nb.merging,
            bi.pending().len() > 0 ==> (nxt matches Some(h) && h@ == bi.pending()[0]
                && nb.pending() == bi.pending().drop_first()),
            bi.pending().len() == 0 ==> nxt is None && nb.pending().len() == 0,
            nxt matches Some(h) ==> self.queue@ == wt.queue@.remove(m).push(
                (DigestWithID { id: wt.queue@[m].id, digest: Some(h) }),
            ),
            nxt is None ==> self.queue@ == wt.queue@.remove(m),
            base.pending_ms() == wt.pending_ms(),
        ensures
            self.wf(),
            base.pending_ms().count(d@) > 0,
            self.pending_ms() == base.pending_ms().remove(d@),
            forall|x: Seq<u8>|
                #[trigger] self.pending_ms().count(x) > 0 ==> key_val(d@) <= key_val(x),
            base.pending_ms().len() > 0,
    {
        let id = wt.queue@[m].id as int;
        let qrem = wt.queue@.remove(m);
        assert(wt.entry_ok(m));
        lemma_sum_ms_remove(wt.queue@, m);
        lemma_sum_ms_update(wt.blocks@, id, nb);
        if bi.pending().len() > 0 {
            lemma_pending_head(bi.pending());
        }

        // the pending multiset loses exactly d
        match nxt {
            Some(h) => {
                let fresh = DigestWithID { id: wt.queue@[m].id, digest: Some(h) };
                lemma_sum_ms_push(qrem, fresh);
                assert_multisets_equal!(self.pending_ms(), wt.pending_ms().remove(d@), v => {
                    assert(sum_ms(wt.queue@).count(v) == sum_ms(qrem).add(
                        wt.queue@[m].pend(),
                    ).count(v));
                    assert(sum_ms(self.queue@).count(v) == sum_ms(qrem).add(
                        fresh.pend(),
                    ).count(v));
                    assert(sum_ms(self.blocks@).add(bi.pend()).count(v) == sum_ms(
                        wt.blocks@,
                    ).add(nb.pend()).count(v));
                    assert(nb.pend().count(v) == bi.pend().remove(h@).count(v));
                    assert(bi.pend().count(h@) > 0);
                });
            },
            None => {
                assert_multisets_equal!(self.pending_ms(), wt.pending_ms().remove(d@), v => {
                    assert(sum_ms(wt.queue@).count(v) == sum_ms(qrem).add(
                        wt.queue@[m].pend(),
                    ).count(v));
                    assert(sum_ms(self.blocks@).add(bi.pend()).count(v) == sum_ms(
                        wt.blocks@,
                    ).add(nb.pend()).count(v));
                    assert(nb.pend().count(v) == bi.pend().count(v));
                });
            },
        }
        assert(wt.pending_ms().count(d@) > 0);

        // the emitted digest is a lower bound on everything still pending
        assert forall|x: Seq<u8>| #[trigger] self.pending_ms().count(x) > 0 implies key_val(d@)
            <= key_val(x) by {
            if sum_ms(self.queue@).count(x) > 0 {
                lemma_sum_ms_member(self.queue@, x);
                let i = choose|i: int|
                    0 <= i < self.queue@.len() && (#[trigger] self.queue@[i]).pend().count(x) > 0;
                let e = self.queue@[i];
                if i < qrem.len() {
                    let i0 = if i < m {
                        i
                    } else {
                        i + 1
                    };
                    assert(e == wt.queue@[i0]);
                    assert(entry_le(wt.queue@[m], wt.queue@[i0]));
                } else {
                    // the freshly pushed entry: its digest came off bi
                    assert(wt.entry_ok(m));
                    assert(bi.pending().len() > 0);
                    assert(e.digest matches Some(h) && h@ == bi.pending()[0]);
                }
            } else {
                assert(sum_ms(self.blocks@).count(x) > 0);
                lemma_sum_ms_member(self.blocks@, x);
                let b = choose|b: int|
                    0 <= b < self.blocks@.len() && (#[trigger] self.blocks@[b]).pend().count(x)
                        > 0;
                let p = self.blocks@[b].pending();
                assert(p.to_multiset().count(x) > 0);
                assert(p.contains(x));
                let j = choose|j: int| 0 <= j < p.len() && p[j] == x;
                if b == id {
                    assert(p[j] == bi.pending()[j + 1]);
                } else {
                    assert(self.blocks@[b] == wt.blocks@[b]);
                    assert(wt.blocks@[b].pending().len() > 0);
                    assert(wt.covered(b));
                    let iw = choose|iw: int|
                        0 <= iw < wt.queue@.len() && (#[trigger] wt.queue@[iw]).id == b;
                    assert(wt.entry_ok(iw));
                    assert(entry_le(wt.queue@[m], wt.queue@[iw]));
                    match wt.queue@[iw].digest {
                        Some(y) => {
                            assert(key_val(y@) <= key_val(p[j]));
                        },
                        None => {
                            assert(wt.blocks@[b].pending().len() == 0);
                        },
                    }
                }
            }
        }

        // well-formedness is restored
        assert forall|i: int| 0 <= i < self.queue@.len() implies #[trigger] self.entry_ok(i) by {
            if i < qrem.len() {
                let i0 = if i < m {
                    i
                } else {
                    i + 1
                };
                assert(self.queue@[i] == wt.queue@[i0]);
                assert(wt.entry_ok(i0));
                if self.queue@[i].id == id {
                    assert(i0 != m);
                    assert(wt.queue@[i0].id == wt.queue@[m].id);
                    assert(false);
                } else {
                    assert(self.blocks@[self.queue@[i].id as int] == wt.blocks@[self.queue@[i].id
                        as int]);
                }
            } else {
                // the freshly pushed entry
                assert(self.queue@[i].id == id);
                assert(self.queue@[i].digest == nxt);
                assert(bi.pending().len() > 0);
                assert(crate::digest::sorted_asc(bi.pending()));
                assert forall|j: int|
                    0 <= j < nb.pending().len() implies key_val(bi.pending()[0]) <= key_val(
                    #[trigger] nb.pending()[j],
                ) by {
                    assert(nb.pending()[j] == bi.pending()[j + 1]);
                }
            }
        }
        assert forall|i: int, j: int|
            0 <= i < j < self.queue@.len() implies (#[trigger] self.queue@[i]).id != (
        #[trigger] self.queue@[j]).id by {
            let i0 = if i < m {
                i
            } else {
                i + 1
            };
            if j < qrem.len() {
                let j0 = if j < m {
                    j
                } else {
                    j + 1
                };
                assert(self.queue@[i] == wt.queue@[i0]);
                assert(self.queue@[j] == wt.queue@[j0]);
            } else {
                assert(self.queue@[j].id == wt.queue@[m].id);
                assert(self.queue@[i] == wt.queue@[i0]);
                assert(i0 != m);
            }
        }
        assert forall|b: int|
            0 <= b < self.blocks@.len() && !self.covered(b) implies (
        #[trigger] self.blocks@[b]).pending().len() == 0 by {
            if b == id {
                match nxt {
                    Some(h) => {
                        let ni = self.queue@.len() - 1;
                        assert(self.queue@[ni].id == b);
                        assert(self.covered(b));
                    },
                    None => {
                        assert(nb.pending().len() == 0);
                    },
                }
            } else {
                if wt.covered(b) {
                    let iw = choose|iw: int|
                        0 <= iw < wt.queue@.len() && (#[trigger] wt.queue@[iw]).id == b;
                    assert(iw != m);
                    let ni = if iw < m {
                        iw
                    } else {
                        iw - 1
                    };
                    assert(self.queue@[ni] == wt.queue@[iw]);
                    assert(self.covered(b));
                } else {
                    assert(self.blocks@[b] == wt.blocks@[b]);
                }
            }
        }
    }
}

impl PendingSource for WorkerMerge {
    /// A worker holds whatever its `next` has still to yield.
    open spec fn pend(self) -> Multiset<Seq<u8>> {
        self.pending_ms()
    }
}

/// Concatenating two runs of sources adds their pending work.
pub proof fn lemma_sum_ms_concat<T: PendingSource>(a: Seq<T>, b: Seq<T>)
    ensures
        sum_ms(a + b) == sum_ms(a).add(sum_ms(b)),
    decreases a.len(),
{
    if a.len() == 0 {
        assert(a + b =~= b);
        assert(sum_ms(a + b) =~= sum_ms(a).add(sum_ms(b)));
    } else {
        assert((a + b)[0] == a[0]);
        assert((a + b).drop_first() =~= a.drop_first() + b);
        lemma_sum_ms_concat(a.drop_first(), b);
        assert(sum_ms(a + b) =~= sum_ms(a).add(sum_ms(b)));
    }
}

/// Everything the backing files of a run of blocks hold.
pub open spec fn files_ms(bs: Seq<Block>) -> Multiset<Seq<u8>>
    decreases bs.len(),
{
    if bs.len() == 0 {
        Multiset::empty()
    } else {
        bs[0].file_digests().to_multiset().add(files_ms(bs.drop_first()))
    }
}

/// Once every block is merge-initialised, the pending work equals the file
/// contents.
proof fn lemma_sum_ms_files(bs: Seq<Block>, orig: Seq<Block>)
    requires
        bs.len() == orig.len(),
        forall|k: int|
            0 <= k < bs.len() ==> (#[trigger] bs[k]).pend() == orig[k].file_digests()
                .to_multiset(),
    ensures
        sum_ms(bs) == files_ms(orig),
    decreases bs.len(),
{
    if bs.len() > 0 {
        assert forall|k: int|
            0 <= k < bs.drop_first().len() implies (#[trigger] bs.drop_first()[k]).pend()
            == orig.drop_first()[k].file_digests().to_multiset() by {
            assert(bs.drop_first()[k] == bs[k + 1]);
            assert(orig.drop_first()[k] == orig[k + 1]);
        }
        lemma_sum_ms_files(bs.drop_first(), orig.drop_first());
        assert(bs[0].pend() == orig[0].file_digests().to_multiset());
    }
}

/// A block as the merge phase expects it from the creation phase: evicted,
/// written to its file in descending key order, not yet merge-initialised.
pub open spec fn merge_ready(b: Block) -> bool {
    &&& b.wf()
    &&& !b.merging
    &&& b.file_exists
    &&& b.hashes@.len() == 0
    &&& crate::digest::sorted_desc(b.file_digests())
}

/// Everything a coordinator state has still to yield.
pub open spec fn coord_pending(ws: Seq<WorkerMerge>, q: Seq<DigestWithID>) -> Multiset<Seq<u8>> {
    sum_ms(q).add(sum_ms(ws))
}

/// The entry points at a worker, its digest is the least that worker has
/// still to yield, and an absent digest marks a drained worker.
pub open spec fn coord_entry_ok(ws: Seq<WorkerMerge>, q: Seq<DigestWithID>, i: int) -> bool {
    let e = q[i];
    &&& e.id < ws.len()
    &&& (e.digest matches Some(d) ==> forall|x: Seq<u8>|
        #[trigger] ws[e.id as int].pending_ms().count(x) > 0 ==> key_val(d@) <= key_val(x))
    &&& (e.digest is None ==> ws[e.id as int].pending_ms().len() == 0)
}

/// Some entry points at worker `b`.
pub open spec fn coord_covered(q: Seq<DigestWithID>, b: int) -> bool {
    exists|i: int| 0 <= i < q.len() && (#[trigger] q[i]).id == b
}

pub open spec fn coord_wf(ws: Seq<WorkerMerge>, q: Seq<DigestWithID>) -> bool {
    &&& forall|i: int| 0 <= i < q.len() ==> #[trigger] coord_entry_ok(ws, q, i)
    &&& forall|i: int, j: int|
        0 <= i < j < q.len() ==> (#[trigger] q[i]).id != (#[trigger] q[j]).id
    &&& forall|i: int| 0 <= i < ws.len() ==> (#[trigger] ws[i]).wf()
    &&& forall|b: int|
        0 <= b < ws.len() && !coord_covered(q, b) ==> (#[trigger] ws[b]).pending_ms().len() == 0
}

/// Discarding an absent-digest entry keeps the coordinator well-formed.
proof fn lemma_coord_discard(ws: Seq<WorkerMerge>, q0: Seq<DigestWithID>, m: int)
    requires
        coord_wf(ws, q0),
        0 <= m < q0.len(),
        q0[m].digest is None,
    ensures
        coord_wf(ws, q0.remove(m)),
        coord_pending(ws, q0.remove(m)) == coord_pending(ws, q0),
{
    let q = q0.remove(m);
    lemma_sum_ms_remove(q0, m);
    assert(coord_pending(ws, q) =~= coord_pending(ws, q0));
    assert forall|i: int| 0 <= i < q.len() implies #[trigger] coord_entry_ok(ws, q, i) by {
        if i < m {
            assert(q[i] == q0[i]);
            assert(coord_entry_ok(ws, q0, i));
        } else {
            assert(q[i] == q0[i + 1]);
            assert(coord_entry_ok(ws, q0, i + 1));
        }
    }
    assert forall|i: int, j: int|
        0 <= i < j < q.len() implies (#[trigger] q[i]).id != (#[trigger] q[j]).id by {
        let i0 = if i < m {
            i
        } else {
            i + 1
        };
        let j0 = if j < m {
            j
        } else {
            j + 1
        };
        assert(q[i] == q0[i0]);
        assert(q[j] == q0[j0]);
    }
    assert forall|b: int|
        0 <= b < ws.len() && !coord_covered(q, b) implies (#[trigger] ws[b]).pending_ms().len()
        == 0 by {
        if coord_covered(q0, b) {
            let iw = choose|iw: int| 0 <= iw < q0.len() && (#[trigger] q0[iw]).id == b;
            if iw == m {
                assert(coord_entry_ok(ws, q0, m));
            } else {
                let ni = if iw < m {
                    iw
                } else {
                    iw - 1
                };
                assert(q[ni] == q0[iw]);
                assert(coord_covered(q, b));
            }
        }
    }
}

/// Emitting the selected least entry at the coordinator level: the state
/// stays well-formed, the pending work loses exactly that digest, and the
/// digest is no larger than anything still pending.
proof fn lemma_coord_emit(
    ws0: Seq<WorkerMerge>,
    ws: Seq<WorkerMerge>,
    q0: Seq<DigestWithID>,
    q: Seq<DigestWithID>,
    m: int,
    d: Digest,
    nxt: Option<Digest>,
)
    requires
        coord_wf(ws0, q0),
        0 <= m < q0.len(),
        q0[m].id < ws0.len(),
        ws.len() == ws0.len(),
        q0[m].digest == Some(d),
        forall|j: int| 0 <= j < q0.len() ==> entry_le(q0[m], #[trigger] q0[j]),
        ws == ws0.update(q0[m].id as int, ws[q0[m].id as int]),
        ws[q0[m].id as int].wf(),
        ws0[q0[m].id as int].pending_ms().len() > 0 ==> {
            &&& nxt matches Some(h)
            &&& ws0[q0[m].id as int].pending_ms().count(h@) > 0
            &&& ws[q0[m].id as int].pending_ms() == ws0[q0[m].id as int].pending_ms().remove(h@)
            &&& forall|x: Seq<u8>|
                #[trigger] ws[q0[m].id as int].pending_ms().count(x) > 0 ==> key_val(h@)
                    <= key_val(x)
        },
        ws0[q0[m].id as int].pending_ms().len() == 0 ==> nxt is None && ws[q0[m].id
            as int].pending_ms() == ws0[q0[m].id as int].pending_ms(),
        nxt matches Some(h) ==> q == q0.remove(m).push(
            (DigestWithID { id: q0[m].id, digest: Some(h) }),
        ),
        nxt is None ==> q == q0.remove(m),
    ensures
        coord_wf(ws, q),
        coord_pending(ws0, q0).count(d@) > 0,
        coord_pending(ws, q) == coord_pending(ws0, q0).remove(d@),
        forall|x: Seq<u8>|
            #[trigger] coord_pending(ws, q).count(x) > 0 ==> key_val(d@) <= key_val(x),
{
    let id = q0[m].id as int;
    let qrem = q0.remove(m);
    assert(coord_entry_ok(ws0, q0, m));
    lemma_sum_ms_remove(q0, m);
    lemma_sum_ms_update(ws0, id, ws[id]);

    // the pending multiset loses exactly d
    match nxt {
        Some(h) => {
            let fresh = DigestWithID { id: q0[m].id, digest: Some(h) };
            lemma_sum_ms_push(qrem, fresh);
            assert_multisets_equal!(coord_pending(ws, q), coord_pending(ws0, q0).remove(d@), v => {
                assert(sum_ms(q0).count(v) == sum_ms(qrem).add(q0[m].pend()).count(v));
                assert(sum_ms(q).count(v) == sum_ms(qrem).add(fresh.pend()).count(v));
                assert(sum_ms(ws).add(ws0[id].pend()).count(v) == sum_ms(ws0).add(
                    ws[id].pend(),
                ).count(v));
                assert(ws[id].pending_ms().count(v) == ws0[id].pending_ms().remove(
                    h@,
                ).count(v));
                assert(ws0[id].pending_ms().count(h@) > 0);
            });
        },
        None => {
            assert_multisets_equal!(coord_pending(ws, q), coord_pending(ws0, q0).remove(d@), v => {
                assert(sum_ms(q0).count(v) == sum_ms(qrem).add(q0[m].pend()).count(v));
                assert(sum_ms(ws).add(ws0[id].pend()).count(v) == sum_ms(ws0).add(
                    ws[id].pend(),
                ).count(v));
                assert(ws[id].pend().count(v) == ws0[id].pend().count(v));
            });
        },
    }
    assert(coord_pending(ws0, q0).count(d@) > 0);

    // the emitted digest is a lower bound on everything still pending
    assert forall|x: Seq<u8>| #[trigger] coord_pending(ws, q).count(x) > 0 implies key_val(d@)
        <= key_val(x) by {
        if sum_ms(q).count(x) > 0 {
            lemma_sum_ms_member(q, x);
            let i = choose|i: int| 0 <= i < q.len() && (#[trigger] q[i]).pend().count(x) > 0;
            if i < qrem.len() {
                let i0 = if i < m {
                    i
                } else {
                    i + 1
                };
                assert(q[i] == q0[i0]);
                assert(entry_le(q0[m], q0[i0]));
            } else {
                assert(ws0[id].pending_ms().len() > 0);
                assert(q[i].digest matches Some(h) && ws0[id].pending_ms().count(h@) > 0);
            }
        } else {
            assert(sum_ms(ws).count(x) > 0);
            lemma_sum_ms_member(ws, x);
            let b = choose|b: int|
                0 <= b < ws.len() && (#[trigger] ws[b]).pend().count(x) > 0;
            if b == id {
                if ws0[id].pending_ms().len() > 0 {
                    assert(ws0[id].pending_ms().count(x) > 0);
                } else {
                    assert(ws[id].pending_ms().len() == 0);
                }
            } else {
                assert(ws[b] == ws0[b]);
                assert(ws0[b].pending_ms().len() > 0);
                assert(coord_covered(q0, b));
                let iw = choose|iw: int| 0 <= iw < q0.len() && (#[trigger] q0[iw]).id == b;
                assert(coord_entry_ok(ws0, q0, iw));
                assert(entry_le(q0[m], q0[iw]));
                match q0[iw].digest {
                    Some(y) => {
                        assert(key_val(y@) <= key_val(x));
                    },
                    None => {
                        assert(ws0[b].pending_ms().len() == 0);
                    },
                }
            }
        }
    }

    // well-formedness is restored
    assert forall|i: int| 0 <= i < q.len() implies #[trigger] coord_entry_ok(ws, q, i) by {
        if i < qrem.len() {
            let i0 = if i < m {
                i
            } else {
                i + 1
            };
            assert(q[i] == q0[i0]);
            assert(coord_entry_ok(ws0, q0, i0));
            if q[i].id == id {
                assert(i0 != m);
                assert(q0[i0].id == q0[m].id);
                assert(false);
            } else {
                assert(ws[q[i].id as int] == ws0[q[i].id as int]);
            }
        } else {
            assert(q[i].id == id);
            assert(ws0[id].pending_ms().len() > 0);
        }
    }
    assert forall|i: int, j: int|
        0 <= i < j < q.len() implies (#[trigger] q[i]).id != (#[trigger] q[j]).id by {
        let i0 = if i < m {
            i
        } else {
            i + 1
        };
        if j < qrem.len() {
            let j0 = if j < m {
                j
            } else {
                j + 1
            };
            assert(q[i] == q0[i0]);
            assert(q[j] == q0[j0]);
        } else {
            assert(q[j].id == q0[m].id);
            assert(q[i] == q0[i0]);
            assert(i0 != m);
        }
    }
    assert forall|b: int|
        0 <= b < ws.len() && !coord_covered(q, b) implies (#[trigger] ws[b]).pending_ms().len()
        == 0 by {
        if b == id {
            match nxt {
                Some(h) => {
                    let ni = q.len() - 1;
                    assert(q[ni].id == b);
                    assert(coord_covered(q, b));
                },
                None => {},
            }
        } else {
            if coord_covered(q0, b) {
                let iw = choose|iw: int| 0 <= iw < q0.len() && (#[trigger] q0[iw]).id == b;
                assert(iw != m);
                let ni = if iw < m {
                    iw
                } else {
                    iw - 1
                };
                assert(q[ni] == q0[iw]);
                assert(coord_covered(q, b));
            } else {
                assert(ws[b] == ws0[b]);
            }
        }
    }
}

/// Merges a set of created blocks into one ascending run of digests.
///
/// Computes a per-block merge window from the byte budget, merge-initialises
/// every block, partitions the blocks as evenly as possible across the
/// requested number of workers (reducing the worker count when blocks are
/// scarce), runs each worker's local merge, and merges the workers' streams
/// into the output through a second priority queue.
pub fn merge_handler(blocks: Vec<Block>, amount_of_threads: usize, buffer_size: u64) -> (r:
    ThesisResult<Vec<Digest>>)
    requires
        blocks@.len() > 0,
        amount_of_threads > 0,
        forall|i: int| 0 <= i < blocks@.len() ==> merge_ready(#[trigger] blocks@[i]),
    ensures
        r is Err <==> (buffer_size as int / blocks@.len() as int) < 16,
        r matches Err(e) ==> e is MergeError,
        r matches Ok(out) ==> {
            &&& sorted_asc(views(out@))
            &&& views(out@).to_multiset() == files_ms(blocks@)
            &&& out@.len() == files_ms(blocks@).len()
        },
{
    let ghost orig = blocks@;
    let mut blocks = blocks;
    let n: usize = blocks.len();
    let buffer_size_per_block: u64 = buffer_size / (n as u64);
    if buffer_size_per_block < 16 {
        return Err(
            ThesisError::MergeError("Merge buffer size too small, expected at least one digest".to_owned()),
        );
    }

    let mut i: usize = 0;
    while i < n
        invariant
            n == blocks@.len(),
            n == orig.len(),
            i <= n,
            buffer_size_per_block == buffer_size as int / n as int,
            forall|k: int| i <= k < n ==> blocks@[k] == orig[k],
            forall|k: int| 0 <= k < n ==> merge_ready(#[trigger] orig[k]),
            forall|k: int|
                0 <= k < i ==> (#[trigger] blocks@[k]).wf() && blocks@[k].merging
                    && blocks@[k].pend() == orig[k].file_digests().to_multiset(),
            buffer_size_per_block >= 16,
        decreases n - i,
    {
        proof {
            assert(blocks@[i as int] == orig[i as int]);
            assert(merge_ready(orig[i as int]));
        }
        match vec_index_mut(&mut blocks, i).init_merge(buffer_size_per_block) {
            Err(e) => {
                return Err(e);
            },
            Ok(()) => {},
        }
        proof {
            orig[i as int].file_digests().lemma_reverse_to_multiset();
        }
        i = i + 1;
    }
    proof {
        lemma_sum_ms_files(blocks@, orig);
    }


    let eff: usize = if n < amount_of_threads {
        n
    } else {
        amount_of_threads
    };
    let per: usize = if n < amount_of_threads {
        1
    } else {
        n / amount_of_threads
    };
    let mut workers: Vec<WorkerMerge> = Vec::new();
    let mut remaining: Vec<Block> = blocks;
    let mut t: usize = 0;
    while t < eff
        invariant
            1 <= eff,
            t <= eff,
            t == workers@.len(),
            forall|k: int| 0 <= k < workers@.len() ==> (#[trigger] workers@[k]).wf(),
            forall|k: int|
                0 <= k < remaining@.len() ==> (#[trigger] remaining@[k]).wf()
                    && remaining@[k].merging,
            sum_ms(workers@).add(sum_ms(remaining@)) == files_ms(orig),
            t == eff ==> remaining@.len() == 0,
        decreases eff - t,
    {
        let take: usize = if t == eff - 1 {
            remaining.len()
        } else if per < remaining.len() {
            per
        } else {
            remaining.len()
        };
        let ghost before_split = remaining@;
        let rest = remaining.split_off(take);
        let ghost group = remaining@;
        let ghost ws_prev = workers@;
        let w = WorkerMerge::new(remaining);
        remaining = rest;
        workers.push(w);
        proof {
            assert(before_split =~= group + remaining@);
            lemma_sum_ms_concat(group, remaining@);
            lemma_sum_ms_push(ws_prev, w);
            assert_multisets_equal!(sum_ms(workers@).add(sum_ms(remaining@)), files_ms(orig), v => {
                assert(sum_ms(workers@).count(v) == sum_ms(ws_prev).add(w.pend()).count(v));
                assert(sum_ms(before_split).count(v) == sum_ms(group).add(
                    sum_ms(remaining@),
                ).count(v));
                assert(sum_ms(ws_prev).add(sum_ms(before_split)).count(v) == files_ms(
                    orig,
                ).count(v));
            });
        }
        t = t + 1;
    }

    let wn: usize = workers.len();
    let mut queue: Vec<DigestWithID> = Vec::new();
    let mut wi: usize = 0;
    while wi < wn
        invariant
            wn == workers@.len(),
            wi <= wn,
            queue@.len() == wi,
            forall|k: int| 0 <= k < wi ==> (#[trigger] queue@[k]).id == k,
            forall|k: int| 0 <= k < wn ==> (#[trigger] workers@[k]).wf(),
            forall|k: int| 0 <= k < wi ==> #[trigger] coord_entry_ok(workers@, queue@, k),
            sum_ms(queue@).add(sum_ms(workers@)) == files_ms(orig),
        decreases wn - wi,
    {
        let ghost qs = queue@;
        let ghost ws = workers@;
        let d = vec_index_mut(&mut workers, wi).next();
        let e = DigestWithID::new(wi, d);
        queue.push(e);
        proof {
            let awi = ws[wi as int];
            let nwi = workers@[wi as int];
            assert(workers@ =~= ws.update(wi as int, nwi));
            lemma_sum_ms_update(ws, wi as int, nwi);
            lemma_sum_ms_push(qs, e);
            assert_multisets_equal!(sum_ms(queue@).add(sum_ms(workers@)), files_ms(orig), v => {
                assert(sum_ms(qs).add(sum_ms(ws)).count(v) == files_ms(orig).count(v));
                assert(sum_ms(queue@).count(v) == sum_ms(qs).add(e.pend()).count(v));
                assert(sum_ms(workers@).add(awi.pend()).count(v) == sum_ms(ws).add(
                    nwi.pend(),
                ).count(v));
                if awi.pending_ms().len() > 0 {
                    assert(nwi.pending_ms().count(v) == awi.pending_ms().remove(
                        e.digest->0@,
                    ).count(v));
                    assert(awi.pending_ms().count(e.digest->0@) > 0);
                } else {
                    assert(nwi.pending_ms().count(v) == awi.pending_ms().count(v));
                }
            });
            assert forall|k: int| 0 <= k < wi + 1 implies #[trigger] coord_entry_ok(
                workers@,
                queue@,
                k,
            ) by {
                if k < wi {
                    assert(coord_entry_ok(ws, qs, k));
                    assert(queue@[k] == qs[k]);
                    assert(qs[k].id == k);
                    assert(workers@[k] == ws[k]);
                } else {
                    assert(queue@[k] == e);
                }
            }
        }
        wi = wi + 1;
    }
    proof {
        assert forall|a: int, b: int|
            0 <= a < b < queue@.len() implies (#[trigger] queue@[a]).id != (
        #[trigger] queue@[b]).id by {
            assert(queue@[a].id == a);
            assert(queue@[b].id == b);
        }
        assert forall|b: int|
            0 <= b < workers@.len() && !coord_covered(queue@, b) implies (
        #[trigger] workers@[b]).pending_ms().len() == 0 by {
            assert(queue@[b].id == b);
            assert(coord_covered(queue@, b));
        }
    }

    let mut out: Vec<Digest> = Vec::new();
    loop
        invariant
            wn == workers@.len(),
            coord_wf(workers@, queue@),
            views(out@).to_multiset().add(coord_pending(workers@, queue@)) == files_ms(orig),
            sorted_asc(views(out@)),
            forall|nn: int, x: Seq<u8>|
                0 <= nn < out@.len() && #[trigger] coord_pending(workers@, queue@).count(x) > 0
                    ==> key_val(#[trigger] views(out@)[nn]) <= key_val(x),
        ensures
            queue@.len() == 0,
            coord_wf(workers@, queue@),
            views(out@).to_multiset().add(coord_pending(workers@, queue@)) == files_ms(orig),
            sorted_asc(views(out@)),
        decreases coord_pending(workers@, queue@).len(), queue@.len(),
    {
        let m: usize = match find_min_index(&queue) {
            None => {
                break;
            },
            Some(m) => m,
        };
        let ghost ws0 = workers@;
        let ghost q0 = queue@;
        let entry = queue.remove(m);
        match entry.digest {
            None => {
                proof {
                    lemma_coord_discard(ws0, q0, m as int);
                }
            },
            Some(d) => {
                let id: usize = entry.id;
                proof {
                    assert(coord_entry_ok(ws0, q0, m as int));
                }
                let nxt = vec_index_mut(&mut workers, id).next();
                let ghost q1 = queue@;
                match nxt {
                    Some(nd) => {
                        queue.push(DigestWithID::new(id, Some(nd)));
                    },
                    None => {},
                }
                let ghost pend0 = coord_pending(ws0, q0);
                proof {
                    assert(workers@ =~= ws0.update(id as int, workers@[id as int]));
                    lemma_coord_emit(ws0, workers@, q0, queue@, m as int, d, nxt);
                }
                let ghost out0 = out@;
                out.push(d);
                proof {
                    assert(views(out@) =~= views(out0).push(d@));
                    assert_multisets_equal!(
                        views(out@).to_multiset().add(coord_pending(workers@, queue@)),
                        files_ms(orig), v => {
                        assert(views(out0).to_multiset().add(pend0).count(v) == files_ms(
                            orig,
                        ).count(v));
                        assert(views(out@).to_multiset().count(v) == views(
                            out0,
                        ).to_multiset().insert(d@).count(v));
                        assert(coord_pending(workers@, queue@).count(v) == pend0.remove(
                            d@,
                        ).count(v));
                        assert(pend0.count(d@) > 0);
                    });
                    assert forall|nn: int, x: Seq<u8>|
                        0 <= nn < out@.len() && #[trigger] coord_pending(
                            workers@,
                            queue@,
                        ).count(x) > 0 implies key_val(#[trigger] views(out@)[nn]) <= key_val(
                        x,
                    ) by {
                        assert(pend0.count(x) > 0);
                        if nn < out0.len() {
                            assert(views(out@)[nn] == views(out0)[nn]);
                            assert(pend0.count(d@) > 0);
                        } else {
                            assert(views(out@)[nn] == d@);
                        }
                    }
                    assert forall|a: int, b: int|
                        0 <= a <= b < views(out@).len() implies key_val(views(out@)[a])
                        <= key_val(views(out@)[b]) by {
                        if b < out0.len() {
                            assert(views(out@)[a] == views(out0)[a]);
                            assert(views(out@)[b] == views(out0)[b]);
                        } else if a < out0.len() {
                            assert(views(out@)[a] == views(out0)[a]);
                            assert(views(out@)[b] == d@);
                            assert(pend0.count(d@) > 0);
                        }
                    }
                }
            },
        }
    }
    proof {
        assert forall|b: int| 0 <= b < workers@.len() implies (
        #[trigger] workers@[b]).pend().len() == 0 by {
            assert(!coord_covered(queue@, b));
        }
        lemma_sum_ms_empty(workers@);
        assert(coord_pending(workers@, queue@).len() == 0);
        assert_multisets_equal!(views(out@).to_multiset(), files_ms(orig), v => {
            assert(views(out@).to_multiset().add(coord_pending(workers@, queue@)).count(v)
                == files_ms(orig).count(v));
            assert(coord_pending(workers@, queue@).count(v) == 0) by {
                if coord_pending(workers@, queue@).count(v) > 0 {
                    assert(coord_pending(workers@, queue@).len() > 0);
                }
            }
        });
        assert(out@.len() == views(out@).to_multiset().len());
    }
    Ok(out)
}

/// Merges the blocks into one globally sorted run of digests, ascending by
/// comparison key; rejects a worker thread count of zero.
pub fn merge_blocks(blocks: Vec<Block>, arguments: &Arguments) -> (r: ThesisResult<Vec<Digest>>)
    requires
        blocks@.len() > 0,
        forall|i: int| 0 <= i < blocks@.len() ==> merge_ready(#[trigger] blocks@[i]),
    ensures
        r is Err <==> (arguments.amount_of_threads == 0 || (arguments.buffer_size as int
            / blocks@.len() as int) < 16),
        r matches Err(e) ==> e is MergeError,
        r matches Ok(out) ==> {
            &&& sorted_asc(views(out@))
            &&& views(out@).to_multiset() == files_ms(blocks@)
            &&& out@.len() == files_ms(blocks@).len()
        },
{
    if arguments.amount_of_threads == 0 {
        return Err(ThesisError::MergeError("Amount of threads set to zero".to_owned()));
    }
    merge_handler(blocks, arguments.amount_of_threads, arguments.buffer_size)
}


/// Runs one worker's local k-way merge to completion: drains a disjoint run
/// of merge-initialised blocks and returns everything they held, ascending
/// by comparison key.
pub fn merge_handler_thread(sub_blocks: Vec<Block>) -> (out: Vec<Digest>)
    requires
        forall|i: int|
            0 <= i < sub_blocks@.len() ==> (#[trigger] sub_blocks@[i]).wf()
                && sub_blocks@[i].merging,
    ensures
        sorted_asc(views(out@)),
        views(out@).to_multiset() == sum_ms(sub_blocks@),
        out@.len() == sum_ms(sub_blocks@).len(),
{
    let ghost total = sum_ms(sub_blocks@);
    let mut worker = WorkerMerge::new(sub_blocks);
    let mut out: Vec<Digest> = Vec::new();
    loop
        invariant
            worker.wf(),
            views(out@).to_multiset().add(worker.pending_ms()) == total,
            sorted_asc(views(out@)),
            forall|nn: int, x: Seq<u8>|
                0 <= nn < out@.len() && #[trigger] worker.pending_ms().count(x) > 0 ==> key_val(
                    #[trigger] views(out@)[nn],
                ) <= key_val(x),
        ensures
            worker.pending_ms().len() == 0,
            views(out@).to_multiset().add(worker.pending_ms()) == total,
            sorted_asc(views(out@)),
        decreases worker.pending_ms().len(),
    {
        let ghost pend0 = worker.pending_ms();
        let ghost out0 = out@;
        match worker.next() {
            None => {
                break;
            },
            Some(d) => {
                out.push(d);
                proof {
                    assert(views(out@) =~= views(out0).push(d@));
                    assert_multisets_equal!(
                        views(out@).to_multiset().add(worker.pending_ms()), total, v => {
                        assert(views(out0).to_multiset().add(pend0).count(v) == total.count(v));
                        assert(views(out@).to_multiset().count(v) == views(
                            out0,
                        ).to_multiset().insert(d@).count(v));
                        assert(worker.pending_ms().count(v) == pend0.remove(d@).count(v));
                        assert(pend0.count(d@) > 0);
                    });
                    assert forall|nn: int, x: Seq<u8>|
                        0 <= nn < out@.len() && #[trigger] worker.pending_ms().count(x) > 0
                            implies key_val(#[trigger] views(out@)[nn]) <= key_val(x) by {
                        assert(pend0.count(x) > 0);
                        if nn < out0.len() {
                            assert(views(out@)[nn] == views(out0)[nn]);
                            assert(pend0.count(d@) > 0);
                        } else {
                            assert(views(out@)[nn] == d@);
                        }
                    }
                    assert forall|a: int, b: int|
                        0 <= a <= b < views(out@).len() implies key_val(views(out@)[a])
                        <= key_val(views(out@)[b]) by {
                        if b < out0.len() {
                            assert(views(out@)[a] == views(out0)[a]);
                            assert(views(out@)[b] == views(out0)[b]);
                        } else if a < out0.len() {
                            assert(views(out@)[a] == views(out0)[a]);
                            assert(views(out@)[b] == d@);
                            assert(pend0.count(d@) > 0);
                        }
                    }
                }
            },
        }
    }
    proof {
        assert_multisets_equal!(views(out@).to_multiset(), total, v => {
            assert(views(out@).to_multiset().add(worker.pending_ms()).count(v) == total.count(
                v,
            ));
            assert(worker.pending_ms().count(v) == 0) by {
                if worker.pending_ms().count(v) > 0 {
                    assert(worker.pending_ms().len() > 0);
                }
            }
        });
        assert(out@.len() == views(out@).to_multiset().len());
    }
    out
}


} // verus!
