use station_stats::block::input_block;
use station_stats::error::{ErrorKind, RecordError};
use station_stats::stats::StationStats;
use station_stats::table::StationTable;

fn sorted_entries(table: StationTable) -> Vec<(Vec<u8>, StationStats)> {
    let mut list = table.into_entries();
    list.sort_by(|a, b| a.0.cmp(&b.0));
    list
}

fn failure(data: &[u8]) -> RecordError {
    match input_block(data) {
        Ok(_) => panic!("the block was accepted"),
        Err(e) => e,
    }
}

#[test]
fn aggregates_a_small_block() {
    let table = input_block(b"A;10.0\nA;-5.5\nB;20.0\n").unwrap();
    assert_eq!(
        sorted_entries(table),
        vec![
            (
                b"A".to_vec(),
                StationStats { temperature_sum: 45, entry_count: 2, min: -55, max: 100 }
            ),
            (
                b"B".to_vec(),
                StationStats { temperature_sum: 200, entry_count: 1, min: 200, max: 200 }
            ),
        ]
    );
}

#[test]
fn last_line_needs_no_terminator() {
    let with = sorted_entries(input_block(b"A;1.0\nB;2.0\n").unwrap());
    let without = sorted_entries(input_block(b"A;1.0\nB;2.0").unwrap());
    assert_eq!(with, without);
    assert_eq!(without.len(), 2);
}

#[test]
fn empty_block_gives_empty_table() {
    assert_eq!(input_block(b"").unwrap().len(), 0);
}

#[test]
fn name_may_hold_the_delimiter() {
    let table = input_block(b"a;b;1.5\n").unwrap();
    assert_eq!(table.get(b"a;b").unwrap().temperature_sum, 15);
    assert_eq!(table.len(), 1);
}

#[test]
fn fails_on_a_line_without_delimiter() {
    assert_eq!(
        failure(b"A;1.0\nB 2.0\nC;3.0\n"),
        RecordError { kind: ErrorKind::MissingDelimiter, offset: 6 }
    );
}

#[test]
fn fails_on_a_malformed_reading() {
    assert_eq!(
        failure(b"A;1.0\nB;2\nC;3.0\n"),
        RecordError { kind: ErrorKind::MalformedReading, offset: 6 }
    );
    assert_eq!(
        failure(b"A;1.00"),
        RecordError { kind: ErrorKind::MalformedReading, offset: 0 }
    );
}

#[test]
fn reports_the_first_failure() {
    assert_eq!(
        failure(b"A;1.0\nB;x\nC\n"),
        RecordError { kind: ErrorKind::MalformedReading, offset: 6 }
    );
    assert_eq!(
        failure(b"A;1.0\nC\nB;x\n"),
        RecordError { kind: ErrorKind::MissingDelimiter, offset: 6 }
    );
}

#[test]
fn fails_on_an_empty_line() {
    assert_eq!(
        failure(b"A;1.0\n\n"),
        RecordError { kind: ErrorKind::MissingDelimiter, offset: 6 }
    );
}

#[test]
fn counts_every_record_of_a_station() {
    let mut data = Vec::new();
    for i in 0..1000 {
        data.extend_from_slice(if i % 2 == 0 { b"S;1.0\n" } else { b"S;-1.0\n" });
    }
    let table = input_block(&data).unwrap();
    assert_eq!(
        table.get(b"S"),
        Some(StationStats { temperature_sum: 0, entry_count: 1000, min: -10, max: 10 })
    );
}
