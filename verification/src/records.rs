//! Splitting a buffer into lines and lines into records.

use vstd::prelude::*;
use crate::error::{ErrorKind, RecordError};
use crate::model::Record;
use crate::reading::{is_reading, parse_reading, reading_value};

verus! {

/// The line terminator.
pub const NEWLINE: u8 = 10;

/// The field delimiter `;`.
pub const DELIMITER: u8 = 59;

/// The number of bytes before the first line terminator of `buf`, or the
/// length of `buf` if it holds none.
pub open spec fn line_len(buf: Seq<u8>) -> int
    decreases buf.len(),
{
    if buf.len() == 0 || buf[0] == NEWLINE {
        0
    } else {
        1 + line_len(buf.skip(1))
    }
}

/// The first line of `buf`, without its terminator.
pub open spec fn first_line(buf: Seq<u8>) -> Seq<u8> {
    buf.take(line_len(buf))
}

/// What follows the first line of `buf` and its terminator.
pub open spec fn after_first_line(buf: Seq<u8>) -> Seq<u8> {
    if 0 <= line_len(buf) < buf.len() {
        buf.skip(line_len(buf) + 1)
    } else {
        Seq::empty()
    }
}

/// The index of the last field delimiter of `line`, or -1 if it holds none.
pub open spec fn last_delimiter(line: Seq<u8>) -> int
    decreases line.len(),
{
    if line.len() == 0 {
        -1
    } else if line.last() == DELIMITER {
        line.len() - 1
    } else {
        last_delimiter(line.drop_last())
    }
}

/// The two fields of a line: what stands before its last delimiter, and
/// what stands after it. A line without delimiter has no fields.
pub open spec fn split_line(line: Seq<u8>) -> Result<(Seq<u8>, Seq<u8>), ErrorKind> {
    let at = last_delimiter(line);
    if at < 0 {
        Err(ErrorKind::MissingDelimiter)
    } else {
        Ok((line.take(at), line.skip(at + 1)))
    }
}

/// The record that a line holds: its name field, and its reading field
/// read as tenths.
pub open spec fn parse_line(line: Seq<u8>) -> Result<Record, ErrorKind> {
    match split_line(line) {
        Err(kind) => Err(kind),
        Ok((name, reading)) => if is_reading(reading) {
            Ok((name, reading_value(reading)))
        } else {
            Err(ErrorKind::MalformedReading)
        },
    }
}

/// The outcome of reading a buffer: its records, or the first failure as
/// its kind and the offset of the line that it is in.
pub type Scan = Result<Seq<Record>, (ErrorKind, int)>;

/// The outcome `rest` of reading a buffer's tail, seen from the whole
/// buffer: `done` are the records before the tail, which starts at `at`.
pub open spec fn after(done: Seq<Record>, at: int, rest: Scan) -> Scan {
    match rest {
        Ok(records) => Ok(done + records),
        Err((kind, offset)) => Err((kind, at + offset)),
    }
}

/// Reads `buf` line by line. Each line is terminated by `NEWLINE`, but for
/// the last, whose terminator may be missing. The outcome is the records of
/// all lines in order, or the first line that holds no record.
pub open spec fn scan(buf: Seq<u8>) -> Scan
    decreases buf.len(),
{
    if buf.len() == 0 {
        Ok(Seq::empty())
    } else {
        match parse_line(first_line(buf)) {
            Err(kind) => Err((kind, 0)),
            Ok(record) => after(seq![record], line_len(buf) + 1, scan(after_first_line(buf))),
        }
    }
}

/// The first line ends within the buffer, at the first terminator if there
/// is one.
pub proof fn line_len_bounds(buf: Seq<u8>)
    ensures
        0 <= line_len(buf) <= buf.len(),
        line_len(buf) < buf.len() ==> buf[line_len(buf)] == NEWLINE,
        forall|i: int| 0 <= i < line_len(buf) ==> buf[i] != NEWLINE,
    decreases buf.len(),
{
    if buf.len() == 0 || buf[0] == NEWLINE {
    } else {
        let tail = buf.skip(1);
        line_len_bounds(tail);
        assert forall|i: int| 0 <= i < line_len(buf) implies buf[i] != NEWLINE by {
            if i > 0 {
                assert(tail[i - 1] == buf[i]);
            }
        }
    }
}

/// Only the first terminator, or the end of the buffer, ends the first line.
pub proof fn line_len_unique(buf: Seq<u8>, n: int)
    requires
        0 <= n <= buf.len(),
        n < buf.len() ==> buf[n] == NEWLINE,
        forall|i: int| 0 <= i < n ==> buf[i] != NEWLINE,
    ensures
        line_len(buf) == n,
    decreases buf.len(),
{
    if n == 0 {
    } else {
        let tail = buf.skip(1);
        assert forall|i: int| 0 <= i < n - 1 implies tail[i] != NEWLINE by {
            assert(tail[i] == buf[i + 1]);
        }
        line_len_unique(tail, n - 1);
    }
}

/// The last delimiter is a delimiter, and none follows it.
pub proof fn last_delimiter_bounds(line: Seq<u8>)
    ensures
        -1 <= last_delimiter(line) < line.len(),
        last_delimiter(line) >= 0 ==> line[last_delimiter(line)] == DELIMITER,
        forall|i: int| last_delimiter(line) < i < line.len() ==> line[i] != DELIMITER,
    decreases line.len(),
{
    if line.len() == 0 || line.last() == DELIMITER {
    } else {
        let front = line.drop_last();
        last_delimiter_bounds(front);
        assert forall|i: int| last_delimiter(line) < i < line.len() implies line[i]
            != DELIMITER by {
            if i < line.len() - 1 {
                assert(front[i] == line[i]);
            }
        }
    }
}

/// Reading a buffer that continues another, which is empty or ends with a
/// terminator, continues the reading of that other.
pub proof fn scan_concat(x: Seq<u8>, y: Seq<u8>)
    requires
        x.len() == 0 || x.last() == NEWLINE,
    ensures
        scan(x + y) == match scan(x) {
            Err(failure) => Err(failure),
            Ok(records) => after(records, x.len() as int, scan(y)),
        },
    decreases x.len(),
{
    if x.len() == 0 {
        assert(x + y =~= y);
        match scan(y) {
            Ok(records) => {
                assert(Seq::<Record>::empty() + records =~= records);
            },
            Err(_) => {},
        }
    } else {
        let xy = x + y;
        let n = line_len(x);
        line_len_bounds(x);
        assert(n < x.len());
        assert forall|i: int| 0 <= i < n implies xy[i] != NEWLINE by {
            assert(xy[i] == x[i]);
        }
        assert(xy[n] == x[n]);
        line_len_unique(xy, n);
        assert(first_line(xy) =~= first_line(x));
        let rest = after_first_line(x);
        assert(after_first_line(xy) =~= rest + y);
        assert(rest.len() == 0 || rest.last() == NEWLINE) by {
            if rest.len() > 0 {
                assert(rest.last() == x.last());
            }
        }
        scan_concat(rest, y);
        match parse_line(first_line(x)) {
            Err(_) => {},
            Ok(record) => {
                match scan(rest) {
                    Err(_) => {},
                    Ok(records) => {
                        match scan(y) {
                            Err(_) => {},
                            Ok(more) => {
                                assert(seq![record] + (records + more) =~= (seq![record]
                                    + records) + more);
                            },
                        }
                    },
                }
            },
        }
    }
}

/// A line that holds no record fails the reading of every buffer that it
/// stands in: with its own kind of failure and its own offset if the lines
/// before it hold records, and else with the failure of the first of those
/// that does not. Here `before` are the lines before it, and `rest` is
/// empty or starts with the terminator of the line.
pub proof fn bad_line_fails(before: Seq<u8>, line: Seq<u8>, rest: Seq<u8>)
    requires
        before.len() == 0 || before.last() == NEWLINE,
        forall|i: int| 0 <= i < line.len() ==> line[i] != NEWLINE,
        rest.len() == 0 || rest[0] == NEWLINE,
        line.len() + rest.len() > 0,
        parse_line(line) is Err,
    ensures
        scan(before + line + rest) is Err,
        scan(before) is Ok ==> scan(before + line + rest) == Err::<
            Seq<Record>,
            (ErrorKind, int),
        >((parse_line(line)->Err_0, before.len() as int)),
{
    let tail = line + rest;
    assert(before + line + rest =~= before + tail);
    scan_concat(before, tail);
    assert forall|i: int| 0 <= i < line.len() implies tail[i] != NEWLINE by {
        assert(tail[i] == line[i]);
    }
    if rest.len() > 0 {
        assert(tail[line.len() as int] == rest[0]);
    }
    line_len_unique(tail, line.len() as int);
    assert(first_line(tail) =~= line);
}

/// Every record takes at least one byte of the buffer.
pub proof fn scan_len(buf: Seq<u8>)
    ensures
        match scan(buf) {
            Ok(records) => records.len() <= buf.len(),
            Err((_, offset)) => 0 <= offset < buf.len(),
        },
    decreases buf.len(),
{
    if buf.len() > 0 {
        line_len_bounds(buf);
        scan_len(after_first_line(buf));
    }
}

fn find_line_end(data: &[u8], start: usize) -> (end: usize)
    requires
        start <= data@.len(),
    ensures
        start <= end <= data@.len(),
        end - start == line_len(data@.skip(start as int)),
{
    let mut end: usize = start;
    while end < data.len() && data[end] != NEWLINE
        invariant
            start <= end <= data@.len(),
            forall|i: int| start <= i < end ==> data@[i] != NEWLINE,
        decreases data@.len() - end,
    {
        end = end + 1;
    }
    proof {
        line_len_unique(data@.skip(start as int), end - start);
    }
    end
}

fn find_last_delimiter(line: &[u8]) -> (r: Option<usize>)
    ensures
        match r {
            Some(at) => last_delimiter(line@) == at,
            None => last_delimiter(line@) < 0,
        },
{
    let mut i: usize = line.len();
    assert(line@.take(i as int) =~= line@);
    while i > 0
        invariant
            i <= line@.len(),
            last_delimiter(line@) == last_delimiter(line@.take(i as int)),
        decreases i,
    {
        proof {
            let front = line@.take(i as int);
            assert(front.last() == line@[i - 1]);
            assert(front.drop_last() =~= line@.take(i - 1));
        }
        if line[i - 1] == DELIMITER {
            return Some(i - 1);
        }
        i = i - 1;
    }
    None
}

/// Splits a line at its last field delimiter into the bytes of the name and
/// the bytes of the reading. A delimiter inside the name is part of it.
pub fn split_record<'a>(line: &'a [u8]) -> (r: Result<(&'a [u8], &'a [u8]), ErrorKind>)
    ensures
        match r {
            Ok((name, reading)) => split_line(line@) == Ok::<(Seq<u8>, Seq<u8>), ErrorKind>(
                (name@, reading@),
            ),
            Err(kind) => split_line(line@) == Err::<(Seq<u8>, Seq<u8>), ErrorKind>(kind),
        },
{
    match find_last_delimiter(line) {
        None => Err(ErrorKind::MissingDelimiter),
        Some(at) => {
            let len: usize = line.len();
            proof {
                last_delimiter_bounds(line@);
            }
            let name = vstd::slice::slice_subrange(line, 0, at);
            let reading = vstd::slice::slice_subrange(line, at + 1, len);
            Ok((name, reading))
        },
    }
}

/// Reads the record of one line: the bytes of the station name and the
/// reading in tenths.
pub fn parse_record<'a>(line: &'a [u8]) -> (r: Result<(&'a [u8], i16), ErrorKind>)
    ensures
        match r {
            Ok((name, value)) => parse_line(line@) == Ok::<Record, ErrorKind>(
                (name@, value as int),
            ),
            Err(kind) => parse_line(line@) == Err::<Record, ErrorKind>(kind),
        },
{
    match split_record(line) {
        Err(kind) => Err(kind),
        Ok((name, reading)) => match parse_reading(reading) {
            Err(kind) => Err(kind),
            Ok(value) => Ok((name, value)),
        },
    }
}

/// A cursor over the lines of a buffer, which hands out one line's fields
/// at a time.
pub struct RecordSplitter<'a> {
    data: &'a [u8],
    pos: usize,
}

impl<'a> RecordSplitter<'a> {
    /// The cursor stands within its buffer.
    pub closed spec fn wf(&self) -> bool {
        self.pos <= self.data@.len()
    }

    /// The buffer that the cursor walks.
    pub closed spec fn buffer(&self) -> Seq<u8> {
        self.data@
    }

    /// The offset in the buffer of the line that comes next.
    pub closed spec fn offset(&self) -> int {
        self.pos as int
    }

    /// What the cursor has not yet handed out.
    pub open spec fn remaining(&self) -> Seq<u8> {
        self.buffer().skip(self.offset())
    }

    /// A cursor at the start of `data`.
    pub fn new(data: &'a [u8]) -> (s: Self)
        ensures
            s.wf(),
            s.buffer() == data@,
            s.offset() == 0,
    {
        RecordSplitter { data, pos: 0 }
    }

    /// The offset in the buffer of the line that comes next.
    pub fn position(&self) -> (p: usize)
        requires
            self.wf(),
        ensures
            p == self.offset(),
            p <= self.buffer().len(),
    {
        self.pos
    }

    /// Hands out the fields of the next line and steps over it, or `None`
    /// at the end of the buffer. At a line without delimiter it fails, with
    /// the offset of that line, and stays where it is.
    pub fn next_record(&mut self) -> (r: Option<Result<(&'a [u8], &'a [u8]), RecordError>>)
        requires
            old(self).wf(),
        ensures
            final(self).wf(),
            final(self).buffer() == old(self).buffer(),
            match r {
                None => old(self).remaining().len() == 0 && final(self).offset() == old(
                    self,
                ).offset(),
                Some(Ok((name, reading))) => {
                    &&& old(self).remaining().len() > 0
                    &&& split_line(first_line(old(self).remaining())) == Ok::<
                        (Seq<u8>, Seq<u8>),
                        ErrorKind,
                    >((name@, reading@))
                    &&& final(self).remaining() == after_first_line(old(self).remaining())
                    &&& old(self).offset() < final(self).offset()
                    &&& final(self).offset() + final(self).remaining().len() == old(self).offset()
                        + old(self).remaining().len()
                },
                Some(Err(e)) => {
                    &&& old(self).remaining().len() > 0
                    &&& split_line(first_line(old(self).remaining())) == Err::<
                        (Seq<u8>, Seq<u8>),
                        ErrorKind,
                    >(e.kind)
                    &&& e.offset == old(self).offset()
                    &&& final(self).offset() == old(self).offset()
                },
            },
    {
        let data: &'a [u8] = self.data;
        let start: usize = self.pos;
        if start >= data.len() {
            return None;
        }
        let end: usize = find_line_end(data, start);
        let line: &'a [u8] = vstd::slice::slice_subrange(data, start, end);
        proof {
            let rem = data@.skip(start as int);
            assert(line@ =~= first_line(rem));
            last_delimiter_bounds(line@);
        }
        match split_record(line) {
            Err(kind) => Some(Err(RecordError { kind, offset: start })),
            Ok((name, reading)) => {
                let next: usize = if end < data.len() { end + 1 } else { end };
                proof {
                    let rem = data@.skip(start as int);
                    assert(data@.skip(next as int) =~= after_first_line(rem));
                    assert(end > start);
                }
                self.pos = next;
                Some(Ok((name, reading)))
            },
        }
    }
}

} // verus!
