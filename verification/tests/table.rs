use station_stats::stats::StationStats;
use station_stats::table::StationTable;

fn sorted_entries(table: StationTable) -> Vec<(Vec<u8>, StationStats)> {
    let mut list = table.into_entries();
    list.sort_by(|a, b| a.0.cmp(&b.0));
    list
}

fn table_of(records: &[(&str, i16)]) -> StationTable {
    let mut t = StationTable::new();
    for (name, reading) in records {
        t.record(name.as_bytes(), *reading);
    }
    t
}

#[test]
fn new_table_is_empty() {
    let t = StationTable::new();
    assert_eq!(t.len(), 0);
    assert_eq!(t.get(b"A"), None);
    assert!(t.station_names().is_empty());
    assert!(t.into_entries().is_empty());
}

#[test]
fn record_creates_a_station_from_its_first_reading() {
    let mut t = StationTable::new();
    t.record(b"A", -30);
    assert_eq!(t.len(), 1);
    assert_eq!(
        t.get(b"A"),
        Some(StationStats { temperature_sum: -30, entry_count: 1, min: -30, max: -30 })
    );
    assert_eq!(t.get(b"B"), None);
}

#[test]
fn record_updates_a_station_in_place() {
    let t = table_of(&[("A", 100), ("B", 200), ("A", -55)]);
    assert_eq!(t.len(), 2);
    assert_eq!(
        t.get(b"A"),
        Some(StationStats { temperature_sum: 45, entry_count: 2, min: -55, max: 100 })
    );
    assert_eq!(
        t.get(b"B"),
        Some(StationStats { temperature_sum: 200, entry_count: 1, min: 200, max: 200 })
    );
}

#[test]
fn stations_do_not_share_extremes() {
    let t = table_of(&[("cold", -500), ("warm", 400), ("cold", -450), ("warm", 410)]);
    let cold = t.get(b"cold").unwrap();
    let warm = t.get(b"warm").unwrap();
    assert_eq!((cold.min, cold.max), (-500, -450));
    assert_eq!((warm.min, warm.max), (400, 410));
}

#[test]
fn names_are_bytes() {
    let mut t = StationTable::new();
    t.record(&[0xff, 0x00, 0x3b], 10);
    t.record(b"", 20);
    assert_eq!(t.get(&[0xff, 0x00, 0x3b]).unwrap().temperature_sum, 10);
    assert_eq!(t.get(b"").unwrap().temperature_sum, 20);
    assert_eq!(t.len(), 2);
}

#[test]
fn station_names_lists_each_station_once() {
    let t = table_of(&[("B", 1), ("A", 2), ("B", 3), ("C", 4), ("A", 5)]);
    let mut names = t.station_names();
    names.sort();
    assert_eq!(names, vec![b"A".to_vec(), b"B".to_vec(), b"C".to_vec()]);
}

#[test]
fn into_entries_lists_each_station_with_its_statistics() {
    let t = table_of(&[("B", 1), ("A", 2), ("B", 3)]);
    assert_eq!(
        sorted_entries(t),
        vec![
            (b"A".to_vec(), StationStats { temperature_sum: 2, entry_count: 1, min: 2, max: 2 }),
            (b"B".to_vec(), StationStats { temperature_sum: 4, entry_count: 2, min: 1, max: 3 }),
        ]
    );
}

#[test]
fn merge_entry_moves_a_new_station_in() {
    let mut t = table_of(&[("A", 10)]);
    let stats = StationStats { temperature_sum: 7, entry_count: 2, min: 3, max: 4 };
    t.merge_entry(b"B".to_vec(), stats);
    assert_eq!(t.get(b"B"), Some(stats));
    assert_eq!(t.get(b"A").unwrap().entry_count, 1);
    assert_eq!(t.len(), 2);
}

#[test]
fn merge_entry_combines_with_a_station_that_is_there() {
    let mut t = table_of(&[("A", 10), ("A", 30)]);
    t.merge_entry(
        b"A".to_vec(),
        StationStats { temperature_sum: -5, entry_count: 3, min: -20, max: 15 },
    );
    assert_eq!(
        t.get(b"A"),
        Some(StationStats { temperature_sum: 35, entry_count: 5, min: -20, max: 30 })
    );
    assert_eq!(t.len(), 1);
}

#[test]
fn merge_folds_every_station_in() {
    let mut global = table_of(&[("A", 100), ("B", 200)]);
    let block = table_of(&[("A", -55), ("C", 5), ("C", 7)]);
    global.merge(block);
    assert_eq!(
        sorted_entries(global),
        vec![
            (
                b"A".to_vec(),
                StationStats { temperature_sum: 45, entry_count: 2, min: -55, max: 100 }
            ),
            (
                b"B".to_vec(),
                StationStats { temperature_sum: 200, entry_count: 1, min: 200, max: 200 }
            ),
            (b"C".to_vec(), StationStats { temperature_sum: 12, entry_count: 2, min: 5, max: 7 }),
        ]
    );
}

#[test]
fn merge_into_empty_table_gives_the_block() {
    let mut global = StationTable::new();
    global.merge(table_of(&[("A", 1), ("B", 2), ("A", 3)]));
    assert_eq!(sorted_entries(global), sorted_entries(table_of(&[("A", 1), ("B", 2), ("A", 3)])));
}

#[test]
fn merge_of_empty_block_changes_nothing() {
    let mut global = table_of(&[("A", 1), ("B", 2)]);
    global.merge(StationTable::new());
    assert_eq!(sorted_entries(global), sorted_entries(table_of(&[("A", 1), ("B", 2)])));
}

#[test]
fn merge_order_does_not_matter() {
    let blocks: [&[(&str, i16)]; 3] = [
        &[("A", 100), ("B", -30), ("A", 20)],
        &[("B", 999), ("C", 0)],
        &[("A", -999), ("C", 15), ("D", 1)],
    ];
    let orders: [[usize; 3]; 6] =
        [[0, 1, 2], [0, 2, 1], [1, 0, 2], [1, 2, 0], [2, 0, 1], [2, 1, 0]];
    let mut results = Vec::new();
    for order in orders {
        let mut global = StationTable::new();
        for i in order {
            global.merge(table_of(blocks[i]));
        }
        results.push(sorted_entries(global));
    }
    for r in &results {
        assert_eq!(r, &results[0]);
    }
    assert_eq!(
        results[0],
        vec![
            (
                b"A".to_vec(),
                StationStats { temperature_sum: -879, entry_count: 3, min: -999, max: 100 }
            ),
            (
                b"B".to_vec(),
                StationStats { temperature_sum: 969, entry_count: 2, min: -30, max: 999 }
            ),
            (b"C".to_vec(), StationStats { temperature_sum: 15, entry_count: 2, min: 0, max: 15 }),
            (b"D".to_vec(), StationStats { temperature_sum: 1, entry_count: 1, min: 1, max: 1 }),
        ]
    );
}

#[test]
fn merge_grouping_does_not_matter() {
    let a: &[(&str, i16)] = &[("A", 100), ("B", -30)];
    let b: &[(&str, i16)] = &[("B", 999), ("C", 0)];
    let c: &[(&str, i16)] = &[("A", -999), ("C", 15)];
    let mut left = table_of(a);
    left.merge(table_of(b));
    left.merge(table_of(c));
    let mut bc = table_of(b);
    bc.merge(table_of(c));
    let mut right = table_of(a);
    right.merge(bc);
    assert_eq!(sorted_entries(left), sorted_entries(right));
}

#[test]
fn mergeable_tells_whether_counts_fit() {
    let mut full = StationTable::new();
    full.merge_entry(
        b"A".to_vec(),
        StationStats { temperature_sum: 0, entry_count: u64::MAX, min: 0, max: 0 },
    );
    assert!(!full.mergeable(&table_of(&[("A", 1)])));
    assert!(full.mergeable(&table_of(&[("B", 1)])));
    assert!(full.mergeable(&StationTable::new()));
    assert!(table_of(&[("A", 1)]).mergeable(&table_of(&[("A", 1)])));
    let mut nearly = StationTable::new();
    nearly.merge_entry(
        b"A".to_vec(),
        StationStats { temperature_sum: 0, entry_count: u64::MAX - 1, min: 0, max: 0 },
    );
    assert!(nearly.mergeable(&table_of(&[("A", 1)])));
    assert!(!nearly.mergeable(&table_of(&[("A", 1), ("A", 2)])));
}
