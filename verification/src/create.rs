use vstd::prelude::*;

use crate::block::Block;
use crate::codec::range_digests;
use crate::digest::sorted_desc;
use crate::error::{ThesisError, ThesisResult};

verus! {

/// The run's configuration: the index range to cover, the byte budget per
/// phase, how often to report progress, the worker thread count and the
/// output path prefix.
pub struct Arguments {
    pub output: String,
    pub start: u64,
    pub end: u64,
    pub buffer_size: u64,
    pub print_amount: u64,
    pub amount_of_threads: usize,
}

/// A block as `create_blocks` leaves it: hot set evicted, backing file
/// written descending and holding exactly the digests of its range.
pub open spec fn block_created(b: Block) -> bool {
    &&& b.wf()
    &&& !b.merging
    &&& b.file_exists
    &&& b.hashes@.len() == 0
    &&& sorted_desc(b.file_digests())
    &&& b.file_digests().len() == b.range_len()
    &&& b.file_digests().to_multiset() == range_digests(b.start, b.end).to_multiset()
}

/// The blocks cover `[start, end]` with consecutive, non-overlapping
/// ranges: each holds at most `per_block` indices and all but the last hold
/// exactly `per_block`.
pub open spec fn blocks_partition(blocks: Seq<Block>, start: u64, end: u64, per_block: int) -> bool {
    &&& blocks.len() >= 1
    &&& blocks[0].start == start
    &&& blocks[blocks.len() - 1].end == end
    &&& forall|i: int|
        0 <= i < blocks.len() - 1 ==> (#[trigger] blocks[i].end) + 1 == blocks[i + 1].start
    &&& forall|i: int|
        0 <= i < blocks.len() ==> (#[trigger] blocks[i].start) == start + i * per_block
    &&& forall|i: int| 0 <= i < blocks.len() ==> (#[trigger] blocks[i].range_len()) <= per_block
    &&& forall|i: int|
        0 <= i < blocks.len() - 1 ==> (#[trigger] blocks[i].range_len()) == per_block
}

/// Partitions the whole range into consecutive blocks sized to the byte
/// budget and drives each one through generate, sort, write and evict, one
/// block at a time.
pub fn create_blocks(arguments: &Arguments) -> (r: ThesisResult<Vec<Block>>)
    requires
        arguments.buffer_size <= usize::MAX as u64,
    ensures
        r is Err <==> (arguments.buffer_size < 16 || arguments.end <= arguments.start),
        r matches Err(e) ==> e is CreateError,
        r matches Ok(blocks) ==> {
            &&& blocks_partition(
                blocks@,
                arguments.start,
                arguments.end,
                arguments.buffer_size as int / 16,
            )
            &&& forall|i: int|
                0 <= i < blocks@.len() ==> block_created(#[trigger] blocks@[i]) && blocks@[i].id
                    == i
        },
{
    let start: u64 = arguments.start;
    let end: u64 = arguments.end;

    let buffer_size: u64 = arguments.buffer_size - arguments.buffer_size % 16;
    if buffer_size == 0 {
        return Err(
            ThesisError::CreateError("Specified buffer size is too small: it must hold at least one digest".to_owned()),
        );
    }
    if end <= start {
        return Err(
            ThesisError::CreateError("Bad start and end argument: end <= start".to_owned()),
        );
    }

    let per_block: u64 = buffer_size / 16;
    let mut blocks: Vec<Block> = Vec::new();
    let mut current_start: u64 = start;
    let mut i: u64 = 0;

    loop
        invariant
            start == arguments.start,
            end == arguments.end,
            start < end,
            buffer_size == arguments.buffer_size - arguments.buffer_size % 16,
            16 <= buffer_size,
            per_block == arguments.buffer_size as int / 16,
            per_block >= 1,
            start <= current_start <= end,
            i == blocks@.len(),
            current_start == start + i * per_block,
            i <= current_start - start,
            buffer_size <= usize::MAX as u64,
            16 * per_block <= buffer_size,
            blocks@.len() == 0 ==> current_start == start,
            blocks@.len() >= 1 ==> blocks@[0].start == start && blocks@[blocks@.len()
                - 1].end + 1 == current_start,
            forall|k: int|
                0 <= k < blocks@.len() - 1 ==> (#[trigger] blocks@[k].end) + 1 == blocks@[k
                    + 1].start,
            forall|k: int|
                0 <= k < blocks@.len() ==> (#[trigger] blocks@[k].start) == start + k
                    * per_block,
            forall|k: int|
                0 <= k < blocks@.len() ==> (#[trigger] blocks@[k].range_len()) == per_block,
            forall|k: int|
                0 <= k < blocks@.len() ==> block_created(#[trigger] blocks@[k]) && blocks@[k].id
                    == k,
        decreases end - current_start,
    {
        let current_end: u64 = if per_block - 1 > end - current_start {
            end
        } else {
            current_start + (per_block - 1)
        };

        let mut block = match Block::new(i, current_start, current_end) {
            Ok(b) => b,
            Err(e) => {
                return Err(e);
            },
        };
        block.generate();
        block.sort();
        proof {
            assert(block.hashes@.len() == current_end - current_start + 1);
            assert(block.hashes@.len() <= per_block);
            assert(block.hashes@.len() * 16 <= usize::MAX);
        }
        block.write_to_file();
        block.drop_hashes();
        proof {
            assert(block.file_digests().to_multiset() == range_digests(
                block.start,
                block.end,
            ).to_multiset()) by {
                block.file_digests().lemma_reverse_to_multiset();
            }
            assert(block_created(block));
        }
        blocks.push(block);

        if current_end == end {
            proof {
                assert(blocks@[blocks@.len() - 1].end == end);
            }
            return Ok(blocks);
        }
        current_start = current_end + 1;
        proof {
            assert((i + 1) * per_block == i * per_block + per_block) by (nonlinear_arith);
        }
        i = i + 1;
    }
}

} // verus!
