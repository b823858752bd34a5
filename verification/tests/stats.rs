use station_stats::stats::StationStats;

fn stats_of(readings: &[i16]) -> StationStats {
    let mut s = StationStats::default();
    for r in readings {
        s.record(*r);
    }
    s
}

#[test]
fn default_holds_no_reading() {
    let s = StationStats::default();
    assert_eq!(s.entry_count, 0);
    assert_eq!(s.temperature_sum, 0);
    assert_eq!(s.min, 0);
    assert_eq!(s.max, 0);
}

#[test]
fn first_reading_sets_both_extremes() {
    let mut s = StationStats::default();
    s.record(250);
    assert_eq!(s, StationStats { temperature_sum: 250, entry_count: 1, min: 250, max: 250 });
    let mut t = StationStats::default();
    t.record(-250);
    assert_eq!(t, StationStats { temperature_sum: -250, entry_count: 1, min: -250, max: -250 });
    assert_eq!(StationStats::first(-250), t);
}

#[test]
fn record_updates_all_four() {
    let s = stats_of(&[100, -55, 30]);
    assert_eq!(s, StationStats { temperature_sum: 75, entry_count: 3, min: -55, max: 100 });
}

#[test]
fn extremes_are_not_clipped_by_a_placeholder() {
    // All readings above zero: the least stays above zero.
    let s = stats_of(&[120, 130]);
    assert_eq!(s.min, 120);
    // All readings below zero: the greatest stays below zero.
    let t = stats_of(&[-120, -130]);
    assert_eq!(t.max, -120);
}

#[test]
fn merge_adds_and_takes_extremes() {
    let mut a = stats_of(&[10, 20]);
    let b = stats_of(&[-5, 40, 7]);
    a.merge(&b);
    assert_eq!(a, StationStats { temperature_sum: 72, entry_count: 5, min: -5, max: 40 });
}

#[test]
fn merge_with_empty_changes_nothing() {
    let mut a = stats_of(&[10, 20]);
    a.merge(&StationStats::default());
    assert_eq!(a, stats_of(&[10, 20]));
    let mut e = StationStats::default();
    e.merge(&stats_of(&[10, 20]));
    assert_eq!(e, stats_of(&[10, 20]));
    let mut z = StationStats::default();
    z.merge(&StationStats::default());
    assert_eq!(z, StationStats::default());
}

#[test]
fn merge_is_commutative_on_values() {
    let a = stats_of(&[10, -20, 35]);
    let b = stats_of(&[-7, 90]);
    let mut ab = a;
    ab.merge(&b);
    let mut ba = b;
    ba.merge(&a);
    assert_eq!(ab, ba);
}

#[test]
fn merge_is_associative_on_values() {
    let a = stats_of(&[10, -20, 35]);
    let b = stats_of(&[-7, 90]);
    let c = stats_of(&[999, -999, 0]);
    let mut left = a;
    left.merge(&b);
    left.merge(&c);
    let mut bc = b;
    bc.merge(&c);
    let mut right = a;
    right.merge(&bc);
    assert_eq!(left, right);
    assert_eq!(left, stats_of(&[10, -20, 35, -7, 90, 999, -999, 0]));
}

#[test]
fn mean_of_one_reading_is_the_reading() {
    assert_eq!(stats_of(&[0]).mean(), 0);
    assert_eq!(stats_of(&[200]).mean(), 200);
    assert_eq!(stats_of(&[-200]).mean(), -200);
}

#[test]
fn mean_rounds_half_towards_positive() {
    // 2.25 degrees
    assert_eq!(stats_of(&[100, -55]).mean(), 23);
    // -2.25 degrees
    assert_eq!(stats_of(&[-100, 55]).mean(), -22);
    // 0.05 degrees
    assert_eq!(stats_of(&[0, 1]).mean(), 1);
    // -0.05 degrees
    assert_eq!(stats_of(&[0, -1]).mean(), 0);
}

#[test]
fn mean_rounds_to_nearest() {
    // 1/3 of a tenth
    assert_eq!(stats_of(&[0, 0, 1]).mean(), 0);
    // 2/3 of a tenth
    assert_eq!(stats_of(&[0, 1, 1]).mean(), 1);
    // -1/3 of a tenth
    assert_eq!(stats_of(&[0, 0, -1]).mean(), 0);
    // -2/3 of a tenth
    assert_eq!(stats_of(&[0, -1, -1]).mean(), -1);
    // -1.75 tenths
    assert_eq!(stats_of(&[-1, -2, -2, -2]).mean(), -2);
    // -1.25 tenths
    assert_eq!(stats_of(&[-1, -1, -1, -2]).mean(), -1);
}

#[test]
fn mean_lies_between_the_extremes() {
    let s = stats_of(&[999, 999, 998]);
    assert_eq!(s.mean(), 999);
    let t = stats_of(&[-999, -999, -998]);
    assert_eq!(t.mean(), -999);
}

#[test]
fn sum_holds_many_extreme_readings() {
    let mut s = StationStats {
        temperature_sum: (i16::MAX as i128) * (u64::MAX as i128 - 1),
        entry_count: u64::MAX - 1,
        min: i16::MAX,
        max: i16::MAX,
    };
    s.record(i16::MAX);
    assert_eq!(s.entry_count, u64::MAX);
    assert_eq!(s.temperature_sum, (i16::MAX as i128) * (u64::MAX as i128));
    assert_eq!(s.mean(), i16::MAX);
    let mut t = StationStats {
        temperature_sum: (i16::MIN as i128) * (u64::MAX as i128 - 1),
        entry_count: u64::MAX - 1,
        min: i16::MIN,
        max: i16::MIN,
    };
    t.record(i16::MIN);
    assert_eq!(t.mean(), i16::MIN);
}
