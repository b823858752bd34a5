//! From the bytes of a file to the merged table of its stations.

use vstd::prelude::*;
use crate::block::{aggregate, input_block};
use crate::error::{ErrorKind, RecordError};
use crate::model::{
    all_records, block_tables, merge_all, merge_of_blocks, merge_tables, merge_tables_associative,
    tally, tally_concat, tally_consistent, Record, Table,
};
use crate::partition::{partition, tiles, Block};
use crate::records::{scan, scan_concat, scan_len, NEWLINE};
use crate::table::StationTable;

verus! {

/// Reading the block `start..end` of `data` continues the reading of what
/// stands before it, where both ends of the block are ends of lines.
proof fn scan_block(data: Seq<u8>, start: int, end: int, done: Seq<Record>)
    requires
        0 <= start < end <= data.len(),
        start == 0 || data[start - 1] == NEWLINE,
        end == data.len() || data[end - 1] == NEWLINE,
        scan(data.take(start)) == Ok::<Seq<Record>, (ErrorKind, int)>(done),
    ensures
        match scan(data.subrange(start, end)) {
            Ok(read) => scan(data.take(end)) == Ok::<Seq<Record>, (ErrorKind, int)>(done + read)
                && done.len() + read.len() <= end,
            Err((kind, offset)) => scan(data) == Err::<Seq<Record>, (ErrorKind, int)>(
                (kind, start + offset),
            ) && 0 <= offset < end - start,
        },
{
    let x = data.take(start);
    let y = data.subrange(start, end);
    let z = data.skip(end);
    if start > 0 {
        assert(x.last() == data[start - 1]);
    }
    scan_concat(x, y);
    assert(x + y =~= data.take(end));
    scan_len(x + y);
    scan_len(y);
    if end < data.len() {
        assert((x + y).last() == data[end - 1]);
        scan_concat(x + y, z);
        assert((x + y) + z =~= data);
    } else {
        assert(x + y =~= data);
    }
}

/// The bytes of the block `block` of `data`.
pub open spec fn block_bytes(data: Seq<u8>, block: (int, int)) -> Seq<u8> {
    data.subrange(block.0, block.1)
}

/// The records of each of the blocks `blocks` of `data`; of a block that
/// cannot be read, none.
pub open spec fn records_in(data: Seq<u8>, blocks: Seq<(int, int)>) -> Seq<Seq<Record>> {
    blocks.map_values(
        |block: (int, int)|
            match scan(block_bytes(data, block)) {
                Ok(records) => records,
                Err(_) => Seq::empty(),
            },
    )
}

/// Where the first `k` blocks end.
pub open spec fn end_of(blocks: Seq<(int, int)>, k: int) -> int {
    if k == 0 {
        0
    } else {
        blocks[k - 1].1
    }
}

/// What stands before the end of the first `k` blocks holds the records of
/// these blocks, block after block, if each of them can be read.
proof fn scan_of_blocks(data: Seq<u8>, blocks: Seq<(int, int)>, k: int)
    requires
        tiles(blocks, data, 0),
        0 <= k <= blocks.len(),
        forall|j: int| 0 <= j < k ==> scan(block_bytes(data, #[trigger] blocks[j])) is Ok,
    ensures
        scan(data.take(end_of(blocks, k))) == Ok::<Seq<Record>, (ErrorKind, int)>(
            all_records(records_in(data, blocks).take(k)),
        ),
        k < blocks.len() ==> end_of(blocks, k) == blocks[k].0,
        0 <= end_of(blocks, k) <= data.len(),
        end_of(blocks, k) == 0 || end_of(blocks, k) == data.len() || data[end_of(blocks, k) - 1]
            == NEWLINE,
    decreases k,
{
    if k == 0 {
        assert(data.take(0) =~= Seq::<u8>::empty());
        assert(records_in(data, blocks).take(0) =~= Seq::<Seq<Record>>::empty());
    } else {
        scan_of_blocks(data, blocks, k - 1);
        let block = blocks[k - 1];
        let done = all_records(records_in(data, blocks).take(k - 1));
        assert(blocks[k - 1].0 == end_of(blocks, k - 1));
        if k < blocks.len() {
            assert(blocks[k - 1].1 == blocks[k].0);
            assert(data[blocks[k - 1].1 - 1] == NEWLINE);
        } else {
            assert(blocks.last() == blocks[k - 1]);
        }
        scan_block(data, block.0, block.1, done);
        let now = records_in(data, blocks).take(k);
        assert(now.drop_last() =~= records_in(data, blocks).take(k - 1));
        assert(now.last() == scan(block_bytes(data, block))->Ok_0);
    }
}

/// The table of a file is the merge of the tables of its blocks, however
/// the file is cut, as long as every block ends where a line ends. With
/// this, blocks can be aggregated apart from one another, and their tables
/// merged afterwards.
pub proof fn table_of_blocks(data: Seq<u8>, blocks: Seq<(int, int)>)
    requires
        tiles(blocks, data, 0),
        forall|j: int|
            0 <= j < blocks.len() ==> scan(block_bytes(data, #[trigger] blocks[j])) is Ok,
    ensures
        scan(data) == Ok::<Seq<Record>, (ErrorKind, int)>(all_records(records_in(data, blocks))),
        aggregate(data) == Ok::<Table, (ErrorKind, int)>(
            merge_all(block_tables(records_in(data, blocks))),
        ),
{
    let n = blocks.len() as int;
    scan_of_blocks(data, blocks, n);
    assert(records_in(data, blocks).take(n) =~= records_in(data, blocks));
    assert(data.take(end_of(blocks, n)) =~= data);
    merge_of_blocks(records_in(data, blocks));
}

/// The first block that cannot be read fails the file, with the failure
/// of that block at its place in the file.
pub proof fn failure_of_blocks(data: Seq<u8>, blocks: Seq<(int, int)>, i: int)
    requires
        tiles(blocks, data, 0),
        0 <= i < blocks.len(),
        forall|j: int| 0 <= j < i ==> scan(block_bytes(data, #[trigger] blocks[j])) is Ok,
        scan(block_bytes(data, blocks[i])) is Err,
    ensures
        scan(data) == Err::<Seq<Record>, (ErrorKind, int)>(
            (
                scan(block_bytes(data, blocks[i]))->Err_0.0,
                blocks[i].0 + scan(block_bytes(data, blocks[i]))->Err_0.1,
            ),
        ),
{
    scan_of_blocks(data, blocks, i);
    let block = blocks[i];
    if i < blocks.len() - 1 {
        assert(blocks[i].1 == blocks[i + 1].0);
        assert(data[blocks[i].1 - 1] == NEWLINE);
    } else {
        assert(blocks.last() == blocks[i]);
    }
    scan_block(data, block.0, block.1, all_records(records_in(data, blocks).take(i)));
}

/// The counts of a table that was merged from records of a file, and of the
/// table of further records of it, add up within `u64`.
proof fn counts_fit(initial: Table, done: Seq<Record>, read: Seq<Record>, len: nat)
    requires
        done.len() + read.len() <= len <= usize::MAX,
        forall|k: Seq<u8>| #[trigger]
            initial.contains_key(k) ==> initial[k].count >= 1 && initial[k].count + len
                <= u64::MAX,
    ensures
        forall|k: Seq<u8>|
            merge_tables(initial, tally(done)).contains_key(k) && tally(read).contains_key(k)
                ==> merge_tables(initial, tally(done))[k].count + tally(read)[k].count
                <= u64::MAX,
{
    tally_consistent(done);
    tally_consistent(read);
    assert forall|k: Seq<u8>|
        merge_tables(initial, tally(done)).contains_key(k) && tally(read).contains_key(
            k,
        ) implies merge_tables(initial, tally(done))[k].count + tally(read)[k].count
        <= u64::MAX by {
        assert(tally(read)[k].count <= read.len());
        if tally(done).contains_key(k) {
            assert(tally(done)[k].count <= done.len());
        }
        if initial.contains_key(k) {
            assert(initial[k].count + len <= u64::MAX);
        }
    }
}

/// Cuts `data` into blocks of about `block_size` bytes, aggregates each
/// block into a table of its own, and merges these tables into
/// `station_map`. The result is what reading `data` as one block gives,
/// whatever the block size. The first line that holds no record ends the
/// work, and the failure names the offset of that line in `data`.
pub fn input_multithreaded(station_map: StationTable, data: &[u8], block_size: usize) -> (r:
    Result<StationTable, RecordError>)
    requires
        station_map.wf(),
        forall|k: Seq<u8>| #[trigger]
            station_map@.contains_key(k) ==> station_map@[k].count + data@.len() <= u64::MAX,
    ensures
        match r {
            Ok(table) => table.wf() && match aggregate(data@) {
                Ok(read) => table@ == merge_tables(station_map@, read),
                Err(_) => false,
            },
            Err(e) => aggregate(data@) == Err::<Table, (ErrorKind, int)>(
                (e.kind, e.offset as int),
            ),
        },
{
    let len: usize = data.len();
    let ghost initial = station_map@;
    let mut global = station_map;
    let blocks = partition(data, block_size);
    let ghost spans = blocks@.map_values(|b: Block| b@);
    let ghost mut done: Seq<Record> = Seq::empty();
    let mut i: usize = 0;
    proof {
        assert(data@.take(0) =~= Seq::<u8>::empty());
        assert(global@ =~= merge_tables(initial, tally(done)));
    }
    while i < blocks.len()
        invariant
            i <= blocks@.len(),
            len == data@.len(),
            spans == blocks@.map_values(|b: Block| b@),
            tiles(spans, data@, 0),
            forall|k: Seq<u8>| #[trigger]
                initial.contains_key(k) ==> initial[k].count >= 1 && initial[k].count + data@.len()
                    <= u64::MAX,
            global.wf(),
            global@ == merge_tables(initial, tally(done)),
            i < blocks@.len() ==> scan(data@.take(spans[i as int].0)) == Ok::<
                Seq<Record>,
                (ErrorKind, int),
            >(done),
            i == blocks@.len() ==> scan(data@) == Ok::<Seq<Record>, (ErrorKind, int)>(done),
        decreases blocks@.len() - i,
    {
        let block: Block = blocks[i];
        assert(block@ == spans[i as int]);
        let start: usize = block.start;
        let end: usize = block.end;
        let ghost y = data@.subrange(start as int, end as int);
        proof {
            if i > 0 {
                assert(spans[i - 1].1 == spans[i as int].0);
                assert(data@[spans[i - 1].1 - 1] == NEWLINE);
            }
            if (i as int) < blocks@.len() - 1 {
                assert(spans[i as int].1 == spans[i + 1].0);
                assert(data@[spans[i as int].1 - 1] == NEWLINE);
            } else {
                assert(spans.last() == spans[i as int]);
            }
            scan_block(data@, start as int, end as int, done);
        }
        match input_block(vstd::slice::slice_subrange(data, start, end)) {
            Err(e) => {
                return Err(RecordError { kind: e.kind, offset: start + e.offset });
            },
            Ok(table) => {
                let ghost read = scan(y)->Ok_0;
                proof {
                    counts_fit(initial, done, read, data@.len());
                    merge_tables_associative(initial, tally(done), tally(read));
                    tally_concat(done, read);
                }
                global.merge(table);
                proof {
                    done = done + read;
                    if i + 1 == blocks@.len() {
                        assert(data@.take(end as int) =~= data@);
                    }
                }
            },
        }
        i = i + 1;
    }
    proof {
        if blocks@.len() == 0 {
            assert(data@.len() == 0);
        }
    }
    Ok(global)
}

} // verus!
