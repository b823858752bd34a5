//! Cutting a file into blocks that end where a line ends.

use vstd::prelude::*;
use crate::records::{line_len, line_len_bounds, line_len_unique, NEWLINE};

verus! {

/// The bytes `start..end` of a file.
#[derive(Clone, Copy, Debug, PartialEq, Eq, Structural)]
pub struct Block {
    pub start: usize,
    pub end: usize,
}

impl View for Block {
    type V = (int, int);

    open spec fn view(&self) -> (int, int) {
        (self.start as int, self.end as int)
    }
}

/// Where the block that starts at `start` ends: `target` bytes on, and
/// from there just behind the next line terminator; at the end of the data
/// if that comes first.
pub open spec fn block_end(data: Seq<u8>, start: int, target: int) -> int {
    if target >= data.len() - start {
        data.len() as int
    } else {
        let probe = start + target;
        let terminator = probe + line_len(data.skip(probe));
        if terminator < data.len() {
            terminator + 1
        } else {
            data.len() as int
        }
    }
}

/// The blocks of `data` from `start` on, each as its first offset and the
/// offset behind its last. Every block holds at least one byte.
pub open spec fn blocks_from(data: Seq<u8>, start: int, target: int) -> Seq<(int, int)>
    decreases data.len() - start,
{
    let end = block_end(data, start, target);
    if 0 <= start < end <= data.len() {
        seq![(start, end)] + blocks_from(data, end, target)
    } else {
        Seq::empty()
    }
}

/// The blocks of `data` for a target block size of `target` bytes.
pub open spec fn blocks_of(data: Seq<u8>, target: int) -> Seq<(int, int)> {
    blocks_from(data, 0, target)
}

/// Whether `blocks` cut the bytes `start..` of `data` into pieces without
/// gap or overlap, none of them empty, each but the last ending just behind
/// a line terminator.
pub open spec fn tiles(blocks: Seq<(int, int)>, data: Seq<u8>, start: int) -> bool {
    &&& start < data.len() ==> blocks.len() > 0 && blocks[0].0 == start && blocks.last().1
        == data.len()
    &&& start >= data.len() ==> blocks.len() == 0
    &&& forall|i: int| 0 <= i < blocks.len() ==> 0 <= (#[trigger] blocks[i]).0 < blocks[i].1
        <= data.len()
    &&& forall|i: int| 0 <= i < blocks.len() - 1 ==> (#[trigger] blocks[i]).1 == blocks[i + 1].0
    &&& forall|i: int|
        0 <= i < blocks.len() - 1 ==> data[(#[trigger] blocks[i]).1 - 1] == NEWLINE
}

/// A block ends behind its start, within the data, and just behind a line
/// terminator unless it ends the data.
pub proof fn block_end_bounds(data: Seq<u8>, start: int, target: int)
    requires
        0 <= start < data.len(),
        0 <= target,
    ensures
        start < block_end(data, start, target) <= data.len(),
        block_end(data, start, target) < data.len() ==> data[block_end(data, start, target) - 1]
            == NEWLINE,
{
    if target < data.len() - start {
        let probe = start + target;
        let tail = data.skip(probe);
        line_len_bounds(tail);
        if line_len(tail) < tail.len() {
            assert(tail[line_len(tail)] == data[probe + line_len(tail)]);
        }
    }
}

/// The blocks cover the data from `start` on exactly.
pub proof fn blocks_from_tile(data: Seq<u8>, start: int, target: int)
    requires
        0 <= start,
        0 <= target,
    ensures
        tiles(blocks_from(data, start, target), data, start),
    decreases data.len() - start,
{
    if start < data.len() {
        block_end_bounds(data, start, target);
        let end = block_end(data, start, target);
        let rest = blocks_from(data, end, target);
        blocks_from_tile(data, end, target);
        let all = blocks_from(data, start, target);
        assert(all == seq![(start, end)] + rest);
        assert forall|i: int| 0 <= i < all.len() implies 0 <= (#[trigger] all[i]).0 < all[i].1
            <= data.len() by {
            if i > 0 {
                assert(all[i] == rest[i - 1]);
            }
        }
        assert forall|i: int| 0 <= i < all.len() - 1 implies (#[trigger] all[i]).1 == all[i
            + 1].0 && data[all[i].1 - 1] == NEWLINE by {
            assert(all[i + 1] == rest[i]);
            if i > 0 {
                assert(all[i] == rest[i - 1]);
            }
        }
        if rest.len() > 0 {
            assert(all.last() == rest.last());
        }
    }
}

/// For every file and every target block size, the blocks cover the file
/// exactly: the first starts at offset 0, each next one starts where the one
/// before it ends, the last ends at the end of the file, none is empty, and
/// each but the last ends just behind a line terminator.
pub proof fn partition_complete(data: Seq<u8>, target: int)
    requires
        0 <= target,
    ensures
        tiles(blocks_of(data, target), data, 0),
{
    blocks_from_tile(data, 0, target);
}

/// A file that is not empty and no longer than the target block size is
/// one block.
pub proof fn partition_of_short_file(data: Seq<u8>, target: int)
    requires
        0 < data.len() <= target,
    ensures
        blocks_of(data, target) == seq![(0int, data.len() as int)],
{
    let end = data.len() as int;
    assert(blocks_from(data, end, target) == Seq::<(int, int)>::empty());
    assert(seq![(0int, end)] + Seq::<(int, int)>::empty() =~= seq![(0int, end)]);
}

/// Finds the end of the block that starts at `start`.
pub fn next_block_end(data: &[u8], start: usize, target: usize) -> (end: usize)
    requires
        start < data@.len(),
    ensures
        end == block_end(data@, start as int, target as int),
        start < end <= data@.len(),
{
    let len: usize = data.len();
    proof {
        block_end_bounds(data@, start as int, target as int);
    }
    if target >= len - start {
        return len;
    }
    let probe: usize = start + target;
    let mut at: usize = probe;
    while at < len && data[at] != NEWLINE
        invariant
            probe <= at <= len == data@.len(),
            forall|i: int| probe <= i < at ==> data@[i] != NEWLINE,
        decreases len - at,
    {
        at = at + 1;
    }
    proof {
        line_len_unique(data@.skip(probe as int), at - probe);
    }
    if at < len {
        at + 1
    } else {
        len
    }
}

/// Cuts `data` into blocks of about `target` bytes, each ending where a
/// line ends, so that no record lies across two blocks.
pub fn partition(data: &[u8], target: usize) -> (blocks: Vec<Block>)
    ensures
        blocks@.map_values(|b: Block| b@) == blocks_of(data@, target as int),
        tiles(blocks_of(data@, target as int), data@, 0),
{
    let len: usize = data.len();
    let mut blocks: Vec<Block> = Vec::new();
    let mut start: usize = 0;
    proof {
        partition_complete(data@, target as int);
        assert(blocks@.map_values(|b: Block| b@) + blocks_from(data@, 0, target as int)
            =~= blocks_of(data@, target as int));
    }
    while start < len
        invariant
            start <= len == data@.len(),
            blocks@.map_values(|b: Block| b@) + blocks_from(data@, start as int, target as int)
                == blocks_of(data@, target as int),
        decreases len - start,
    {
        let end: usize = next_block_end(data, start, target);
        let ghost before = blocks@.map_values(|b: Block| b@);
        blocks.push(Block { start, end });
        proof {
            let now = blocks@.map_values(|b: Block| b@);
            assert(now =~= before.push((start as int, end as int)));
            assert(now + blocks_from(data@, end as int, target as int) =~= before + (seq![
                (start as int, end as int),
            ] + blocks_from(data@, end as int, target as int)));
        }
        start = end;
    }
    proof {
        assert(blocks_from(data@, start as int, target as int) == Seq::<(int, int)>::empty());
        assert(blocks@.map_values(|b: Block| b@) + Seq::<(int, int)>::empty()
            =~= blocks@.map_values(|b: Block| b@));
    }
    blocks
}

} // verus!
