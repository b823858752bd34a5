use station_stats::error::{ErrorKind, RecordError};
use station_stats::records::{parse_record, split_record, RecordSplitter};

fn all_fields(data: &[u8]) -> Result<Vec<(Vec<u8>, Vec<u8>)>, RecordError> {
    let mut splitter = RecordSplitter::new(data);
    let mut out = Vec::new();
    loop {
        match splitter.next_record() {
            None => return Ok(out),
            Some(Err(e)) => return Err(e),
            Some(Ok((name, reading))) => out.push((name.to_vec(), reading.to_vec())),
        }
    }
}

fn pair(name: &str, reading: &str) -> (Vec<u8>, Vec<u8>) {
    (name.as_bytes().to_vec(), reading.as_bytes().to_vec())
}

#[test]
fn splits_at_the_delimiter() {
    assert_eq!(split_record(b"Oslo;-3.4"), Ok((&b"Oslo"[..], &b"-3.4"[..])));
}

#[test]
fn splits_at_the_last_delimiter() {
    assert_eq!(split_record(b"a;b;1.0"), Ok((&b"a;b"[..], &b"1.0"[..])));
    assert_eq!(split_record(b";;"), Ok((&b";"[..], &b""[..])));
}

#[test]
fn split_allows_empty_fields() {
    assert_eq!(split_record(b";1.0"), Ok((&b""[..], &b"1.0"[..])));
    assert_eq!(split_record(b"name;"), Ok((&b"name"[..], &b""[..])));
    assert_eq!(split_record(b";"), Ok((&b""[..], &b""[..])));
}

#[test]
fn split_fails_without_delimiter() {
    assert_eq!(split_record(b"Oslo 3.4"), Err(ErrorKind::MissingDelimiter));
    assert_eq!(split_record(b""), Err(ErrorKind::MissingDelimiter));
}

#[test]
fn parse_record_reads_name_and_value() {
    assert_eq!(parse_record(b"Oslo;-3.4"), Ok((&b"Oslo"[..], -34)));
    assert_eq!(parse_record(b"St. John's;15.2"), Ok((&b"St. John's"[..], 152)));
    assert_eq!(parse_record(b"a;b;1.0"), Ok((&b"a;b"[..], 10)));
}

#[test]
fn parse_record_names_the_failure() {
    assert_eq!(parse_record(b"Oslo"), Err(ErrorKind::MissingDelimiter));
    assert_eq!(parse_record(b"Oslo;"), Err(ErrorKind::MalformedReading));
    assert_eq!(parse_record(b"Oslo;3"), Err(ErrorKind::MalformedReading));
    assert_eq!(parse_record(b"1.0;Oslo"), Err(ErrorKind::MalformedReading));
}

#[test]
fn splitter_yields_every_record() {
    assert_eq!(
        all_fields(b"A;10.0\nA;-5.5\nB;20.0\n"),
        Ok(vec![pair("A", "10.0"), pair("A", "-5.5"), pair("B", "20.0")])
    );
}

#[test]
fn splitter_takes_a_last_line_without_terminator() {
    assert_eq!(
        all_fields(b"A;10.0\nB;20.0"),
        Ok(vec![pair("A", "10.0"), pair("B", "20.0")])
    );
    assert_eq!(all_fields(b"X;0.0"), Ok(vec![pair("X", "0.0")]));
}

#[test]
fn splitter_of_empty_buffer_yields_nothing() {
    assert_eq!(all_fields(b""), Ok(vec![]));
}

#[test]
fn splitter_fails_at_a_line_without_delimiter() {
    assert_eq!(
        all_fields(b"A;10.0\nnothing here\nB;20.0\n"),
        Err(RecordError { kind: ErrorKind::MissingDelimiter, offset: 7 })
    );
}

#[test]
fn splitter_fails_at_an_empty_line() {
    assert_eq!(
        all_fields(b"A;10.0\n\nB;20.0\n"),
        Err(RecordError { kind: ErrorKind::MissingDelimiter, offset: 7 })
    );
    assert_eq!(
        all_fields(b"\n"),
        Err(RecordError { kind: ErrorKind::MissingDelimiter, offset: 0 })
    );
}

#[test]
fn splitter_stays_at_the_failing_line() {
    let data = b"A;1.0\nbad\n";
    let mut splitter = RecordSplitter::new(data);
    assert_eq!(splitter.position(), 0);
    assert!(matches!(splitter.next_record(), Some(Ok(_))));
    assert_eq!(splitter.position(), 6);
    assert!(matches!(splitter.next_record(), Some(Err(_))));
    assert_eq!(splitter.position(), 6);
    assert!(matches!(splitter.next_record(), Some(Err(_))));
}

#[test]
fn splitter_does_not_judge_the_reading() {
    assert_eq!(all_fields(b"A;hot\n"), Ok(vec![pair("A", "hot")]));
}

#[test]
fn splitter_keeps_carriage_returns() {
    assert_eq!(all_fields(b"A;1.0\r\n"), Ok(vec![pair("A", "1.0\r")]));
}
