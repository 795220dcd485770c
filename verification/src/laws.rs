use vstd::prelude::*;

use vstd::assert_multisets_equal;

use crate::block::Block;
use crate::codec::range_digests;
use crate::create::{block_created, blocks_partition};
use crate::digest::{key_val, sorted_asc};
use crate::merge::files_ms;

verus! {

broadcast use {vstd::multiset::group_multiset_axioms, vstd::seq_lib::group_to_multiset_ensures};

/// No two digests in the run share a comparison key.
pub open spec fn distinct_keys(s: Seq<Seq<u8>>) -> bool {
    forall|i: int, j: int| 0 <= i < j < s.len() ==> key_val(s[i]) != key_val(s[j])
}

/// The merged output is determined by its contents alone: two runs that are
/// sorted ascending by comparison key and hold the same digests are the same
/// sequence, provided no key occurs twice. Since a merge yields a sorted run
/// holding exactly the digests of the input blocks, its output is therefore
/// identical however the blocks were partitioned and however many workers
/// merged them, as long as all their keys differ.
pub proof fn lemma_sorted_unique_by_key(x: Seq<Seq<u8>>, y: Seq<Seq<u8>>)
    requires
        sorted_asc(x),
        sorted_asc(y),
        x.to_multiset() == y.to_multiset(),
        distinct_keys(x),
    ensures
        x == y,
    decreases x.len(),
{
    assert(x.to_multiset().len() == x.len());
    assert(y.to_multiset().len() == y.len());
    if x.len() == 0 {
        assert(y.len() == 0);
        assert(x =~= y);
    } else {
        assert(y.len() > 0);
        assert(x.to_multiset().count(x[0]) > 0) by {
            assert(x.contains(x[0]));
        }
        assert(y.contains(x[0]));
        let iy = choose|iy: int| 0 <= iy < y.len() && y[iy] == x[0];
        assert(key_val(y[0]) <= key_val(y[iy]));
        assert(key_val(y[0]) <= key_val(x[0]));
        assert(y.to_multiset().count(y[0]) > 0) by {
            assert(y.contains(y[0]));
        }
        assert(x.contains(y[0]));
        let ix = choose|ix: int| 0 <= ix < x.len() && x[ix] == y[0];
        assert(key_val(x[0]) <= key_val(y[0]));
        assert(key_val(x[0]) == key_val(y[0]));
        if ix > 0 {
            assert(key_val(x[ix]) != key_val(x[0]));
            assert(false);
        }
        assert(x[0] == y[0]);

        assert(x.remove(0) =~= x.drop_first());
        assert(y.remove(0) =~= y.drop_first());
        assert(x.drop_first().to_multiset() =~= x.to_multiset().remove(x[0]));
        assert(y.drop_first().to_multiset() =~= y.to_multiset().remove(y[0]));
        assert forall|i: int, j: int|
            0 <= i < j < x.drop_first().len() implies key_val(#[trigger] x.drop_first()[i])
            != key_val(#[trigger] x.drop_first()[j]) by {
            assert(x.drop_first()[i] == x[i + 1]);
            assert(x.drop_first()[j] == x[j + 1]);
        }
        lemma_sorted_unique_by_key(x.drop_first(), y.drop_first());
        assert forall|i: int| 0 <= i < x.len() implies x[i] == y[i] by {
            if i > 0 {
                assert(x.drop_first()[i - 1] == x[i]);
                assert(y.drop_first()[i - 1] == y[i]);
            }
        }
        assert(x =~= y);
    }
}

/// The digests of a range are those of a front part and a back part.
proof fn lemma_range_split(s: u64, m: u64, e: u64)
    requires
        s <= m < e,
    ensures
        range_digests(s, e) == range_digests(s, m) + range_digests((m + 1) as u64, e),
{
    let front = range_digests(s, m);
    let back = range_digests((m + 1) as u64, e);
    assert forall|k: int| 0 <= k < e - s + 1 implies (front + back)[k] == range_digests(
        s,
        e,
    )[k] by {
        if k >= front.len() {
            assert((front + back)[k] == back[k - (m - s + 1)]);
        }
    }
    assert(range_digests(s, e) =~= front + back);
}

/// Block end positions grow along a consecutive run.
proof fn lemma_end_le_last(blocks: Seq<Block>, i: int)
    requires
        0 <= i < blocks.len(),
        forall|k: int| 0 <= k < blocks.len() ==> (#[trigger] blocks[k]).start <= blocks[k].end,
        forall|k: int|
            0 <= k < blocks.len() - 1 ==> (#[trigger] blocks[k].end) + 1 == blocks[k + 1].start,
    ensures
        blocks[i].end <= blocks[blocks.len() - 1].end,
    decreases blocks.len() - i,
{
    if i < blocks.len() - 1 {
        assert(blocks[i].end < blocks[i + 1].end);
        lemma_end_le_last(blocks, i + 1);
    }
}

/// Over a consecutive run of created blocks, the backing files taken
/// together hold exactly the digests of the covered range.
proof fn lemma_files_cover(blocks: Seq<Block>, start: u64, end: u64)
    requires
        blocks.len() >= 1,
        blocks[0].start == start,
        blocks[blocks.len() - 1].end == end,
        forall|k: int| 0 <= k < blocks.len() ==> (#[trigger] blocks[k]).start <= blocks[k].end,
        forall|k: int|
            0 <= k < blocks.len() - 1 ==> (#[trigger] blocks[k].end) + 1 == blocks[k + 1].start,
        forall|k: int|
            0 <= k < blocks.len() ==> (#[trigger] blocks[k]).file_digests().to_multiset()
                == range_digests(blocks[k].start, blocks[k].end).to_multiset(),
    ensures
        files_ms(blocks) == range_digests(start, end).to_multiset(),
    decreases blocks.len(),
{
    let rest = blocks.drop_first();
    if blocks.len() == 1 {
        assert(files_ms(rest).len() == 0);
        assert_multisets_equal!(files_ms(blocks), range_digests(start, end).to_multiset(), v => {
            assert(files_ms(blocks).count(v) == blocks[0].file_digests().to_multiset().add(
                files_ms(rest),
            ).count(v));
        });
    } else {
        let m = blocks[0].end;
        assert(blocks[1].end <= end) by {
            assert forall|k: int|
                0 <= k < rest.len() implies (#[trigger] rest[k]).start <= rest[k].end by {
                assert(rest[k] == blocks[k + 1]);
            }
            lemma_end_le_last(blocks, 1);
        }
        assert(start <= m < end);
        lemma_range_split(start, m, end);
        assert forall|k: int| 0 <= k < rest.len() implies (#[trigger] rest[k]).start
            <= rest[k].end by {
            assert(rest[k] == blocks[k + 1]);
        }
        assert forall|k: int|
            0 <= k < rest.len() - 1 implies (#[trigger] rest[k].end) + 1 == rest[k + 1].start by {
            assert(rest[k] == blocks[k + 1]);
            assert(rest[k + 1] == blocks[k + 2]);
        }
        assert forall|k: int|
            0 <= k < rest.len() implies (#[trigger] rest[k]).file_digests().to_multiset()
            == range_digests(rest[k].start, rest[k].end).to_multiset() by {
            assert(rest[k] == blocks[k + 1]);
        }
        lemma_files_cover(rest, (m + 1) as u64, end);
        vstd::seq_lib::lemma_multiset_commutative(
            range_digests(start, m),
            range_digests((m + 1) as u64, end),
        );
        assert_multisets_equal!(files_ms(blocks), range_digests(start, end).to_multiset(), v => {
            assert(files_ms(blocks).count(v) == blocks[0].file_digests().to_multiset().add(
                files_ms(rest),
            ).count(v));
            assert(range_digests(start, end).to_multiset().count(v) == range_digests(
                start,
                m,
            ).to_multiset().add(range_digests((m + 1) as u64, end).to_multiset()).count(v));
        });
    }
}

/// End to end: blocks created over `[start, end]` and then merged yield
/// every digest of the range exactly once, in one non-decreasing run whose
/// length is the size of the range — whatever the block partition and
/// however many workers merged them.
pub proof fn lemma_pipeline_complete(
    blocks: Seq<Block>,
    start: u64,
    end: u64,
    per_block: int,
    out: Seq<Seq<u8>>,
)
    requires
        blocks_partition(blocks, start, end, per_block),
        forall|i: int| 0 <= i < blocks.len() ==> block_created(#[trigger] blocks[i]),
        sorted_asc(out),
        out.to_multiset() == files_ms(blocks),
    ensures
        out.to_multiset() == range_digests(start, end).to_multiset(),
        out.len() == end - start + 1,
{
    assert forall|k: int| 0 <= k < blocks.len() implies (#[trigger] blocks[k]).start
        <= blocks[k].end by {
        assert(block_created(blocks[k]));
    }
    assert forall|k: int|
        0 <= k < blocks.len() implies (#[trigger] blocks[k]).file_digests().to_multiset()
        == range_digests(blocks[k].start, blocks[k].end).to_multiset() by {
        assert(block_created(blocks[k]));
    }
    lemma_files_cover(blocks, start, end);
    assert(out.to_multiset().len() == out.len());
    assert(range_digests(start, end).to_multiset().len() == range_digests(start, end).len());
}


} // verus!
