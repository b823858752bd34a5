//! Aggregating one block of records into a table.

use vstd::prelude::*;
use crate::error::{ErrorKind, RecordError};
use crate::model::{tally, tally_consistent, Record, Table};
use crate::reading::parse_reading;
use crate::records::{
    after, after_first_line, first_line, line_len, line_len_bounds, parse_line, scan,
    RecordSplitter,
};
use crate::table::StationTable;

verus! {

/// The table of the records of `buf`, or the first failure of reading it.
pub open spec fn aggregate(buf: Seq<u8>) -> Result<Table, (ErrorKind, int)> {
    match scan(buf) {
        Ok(records) => Ok(tally(records)),
        Err(failure) => Err(failure),
    }
}

/// Reads the records of one block, line by line, and folds each reading
/// into the statistics of its station. The first line that holds no record
/// ends the work: nothing of the block is returned then, only the failure
/// with the offset of that line in `data`.
pub fn input_block(data: &[u8]) -> (r: Result<StationTable, RecordError>)
    ensures
        match r {
            Ok(table) => table.wf() && aggregate(data@) == Ok::<Table, (ErrorKind, int)>(table@),
            Err(e) => aggregate(data@) == Err::<Table, (ErrorKind, int)>(
                (e.kind, e.offset as int),
            ),
        },
{
    let len: usize = data.len();
    let mut table = StationTable::new();
    let mut splitter = RecordSplitter::new(data);
    let ghost mut done: Seq<Record> = Seq::empty();
    proof {
        assert(splitter.remaining() =~= data@);
        match scan(data@) {
            Ok(records) => {
                assert(done + records =~= records);
            },
            Err(_) => {},
        }
    }
    loop
        invariant
            splitter.wf(),
            splitter.buffer() == data@,
            0 <= splitter.offset() <= data@.len() == len,
            splitter.offset() + splitter.remaining().len() == data@.len(),
            done.len() <= splitter.offset(),
            scan(data@) == after(done, splitter.offset(), scan(splitter.remaining())),
            table.wf(),
            table@ == tally(done),
        decreases data@.len() - splitter.offset(),
    {
        let at: usize = splitter.position();
        let ghost rest = splitter.remaining();
        match splitter.next_record() {
            None => {
                proof {
                    assert(done + Seq::<Record>::empty() =~= done);
                }
                return Ok(table);
            },
            Some(Err(e)) => {
                return Err(e);
            },
            Some(Ok((name, reading))) => {
                match parse_reading(reading) {
                    Err(kind) => {
                        return Err(RecordError { kind, offset: at });
                    },
                    Ok(value) => {
                        proof {
                            tally_consistent(done);
                            line_len_bounds(rest);
                            let record = (name@, value as int);
                            let next = scan(after_first_line(rest));
                            assert(parse_line(first_line(rest)) == Ok::<Record, ErrorKind>(record));
                            assert(scan(rest) == after(seq![record], line_len(rest) + 1, next));
                            match next {
                                Ok(records) => {
                                    assert(done + (seq![record] + records) =~= done.push(record)
                                        + records);
                                },
                                Err(_) => {
                                    assert(after_first_line(rest).len() > 0);
                                },
                            }
                            assert(done.push(record).drop_last() =~= done);
                            assert(done.len() < len);
                            if table@.contains_key(name@) {
                                assert(tally(done).contains_key(name@));
                                assert(table@[name@].count <= done.len());
                            }
                        }
                        table.record(name, value);
                        proof {
                            done = done.push((name@, value as int));
                        }
                    },
                }
            },
        }
    }
}

} // verus!
