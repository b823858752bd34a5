use station_stats::block::input_block;
use station_stats::error::{ErrorKind, RecordError};
use station_stats::pipeline::input_multithreaded;
use station_stats::report::report;
use station_stats::stats::StationStats;
use station_stats::table::StationTable;

fn sorted_entries(table: StationTable) -> Vec<(Vec<u8>, StationStats)> {
    let mut list = table.into_entries();
    list.sort_by(|a, b| a.0.cmp(&b.0));
    list
}

fn run(data: &[u8], block_size: usize) -> Result<String, RecordError> {
    let table = input_multithreaded(StationTable::new(), data, block_size)?;
    Ok(String::from_utf8(report(&table)).unwrap())
}

const SAMPLE: &[u8] = b"Oslo;-3.4\nRome;21.0\nLima;18.5\nOslo;2.1\nRome;19.9\nOslo;-10.0\nLima;18.6\nAbha;5.0\n";

#[test]
fn aggregate_of_three_records() {
    assert_eq!(
        run(b"A;10.0\nA;-5.5\nB;20.0", 1 << 20),
        Ok("{A=-5.5/2.3/10.0, B=20.0/20.0/20.0}".to_string())
    );
}

#[test]
fn aggregate_of_three_records_with_final_terminator() {
    assert_eq!(
        run(b"A;10.0\nA;-5.5\nB;20.0\n", 1 << 20),
        Ok("{A=-5.5/2.3/10.0, B=20.0/20.0/20.0}".to_string())
    );
}

#[test]
fn single_station_single_record() {
    assert_eq!(run(b"X;0.0", 1 << 20), Ok("{X=0.0/0.0/0.0}".to_string()));
    assert_eq!(run(b"X;0.0", 0), Ok("{X=0.0/0.0/0.0}".to_string()));
}

#[test]
fn empty_input_gives_empty_report() {
    assert_eq!(run(b"", 16), Ok("{}".to_string()));
}

#[test]
fn result_does_not_depend_on_the_block_size() {
    let whole = sorted_entries(input_block(SAMPLE).unwrap());
    for block_size in 0..=SAMPLE.len() + 1 {
        let table = input_multithreaded(StationTable::new(), SAMPLE, block_size).unwrap();
        assert_eq!(sorted_entries(table), whole);
    }
    assert_eq!(
        run(SAMPLE, 7),
        Ok("{Abha=5.0/5.0/5.0, Lima=18.5/18.6/18.6, Oslo=-10.0/-3.8/2.1, Rome=19.9/20.5/21.0}"
            .to_string())
    );
}

#[test]
fn station_order_does_not_depend_on_the_input_order() {
    let forward = run(b"a;1.0\nb;2.0\nc;3.0\nB;4.0\n", 3).unwrap();
    let backward = run(b"B;4.0\nc;3.0\nb;2.0\na;1.0\n", 9).unwrap();
    assert_eq!(forward, backward);
    assert_eq!(forward, "{B=4.0/4.0/4.0, a=1.0/1.0/1.0, b=2.0/2.0/2.0, c=3.0/3.0/3.0}");
}

#[test]
fn merges_into_the_table_that_is_given() {
    let earlier = input_block(b"A;1.0\nC;-2.0\n").unwrap();
    let table = input_multithreaded(earlier, b"A;3.0\nB;4.0\n", 4).unwrap();
    assert_eq!(
        sorted_entries(table),
        vec![
            (b"A".to_vec(), StationStats { temperature_sum: 40, entry_count: 2, min: 10, max: 30 }),
            (b"B".to_vec(), StationStats { temperature_sum: 40, entry_count: 1, min: 40, max: 40 }),
            (
                b"C".to_vec(),
                StationStats { temperature_sum: -20, entry_count: 1, min: -20, max: -20 }
            ),
        ]
    );
}

#[test]
fn line_without_delimiter_fails_the_run() {
    let data = b"A;1.0\nB;2.0\nno delimiter\nC;3.0\n";
    for block_size in 0..=data.len() {
        assert_eq!(
            run(data, block_size),
            Err(RecordError { kind: ErrorKind::MissingDelimiter, offset: 12 })
        );
    }
}

#[test]
fn malformed_reading_fails_the_run() {
    let data = b"A;1.0\nB;2.0\nC;3.0\nD;4.5.6\nE;5.0\n";
    for block_size in 0..=data.len() {
        assert_eq!(
            run(data, block_size),
            Err(RecordError { kind: ErrorKind::MalformedReading, offset: 18 })
        );
    }
}

#[test]
fn first_failure_in_the_file_is_reported() {
    let data = b"A;1.0\nB;warm\nC;3.0\nmissing\nE;5.0\n";
    for block_size in 0..=data.len() {
        assert_eq!(
            run(data, block_size),
            Err(RecordError { kind: ErrorKind::MalformedReading, offset: 6 })
        );
    }
}
