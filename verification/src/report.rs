//! Ordering the stations and rendering the report.

use vstd::prelude::*;
use crate::error::ErrorKind;
use crate::model::Table;
use crate::reading::{format_tenths, render_tenths};
use crate::stats::{StationStats, Summary};
use crate::table::StationTable;

verus! {

/// The byte `{`, which opens the report.
pub const OPEN: u8 = 123;

/// The byte `}`, which closes the report.
pub const CLOSE: u8 = 125;

/// The byte `=`, between a station's name and its numbers.
pub const EQUALS: u8 = 61;

/// The byte `/`, between a station's numbers.
pub const SLASH: u8 = 47;

/// The byte `,`, which with a space separates stations.
pub const COMMA: u8 = 44;

/// The byte ` `.
pub const SPACE: u8 = 32;

/// Whether `a` and `b` agree on their first `k` bytes, and there `a` ends
/// while `b` goes on, or `a` has the smaller byte.
pub open spec fn precedes_at(a: Seq<u8>, b: Seq<u8>, k: int) -> bool {
    &&& 0 <= k <= a.len()
    &&& k < b.len()
    &&& forall|i: int| 0 <= i < k ==> a[i] == b[i]
    &&& (k == a.len() || a[k] < b[k])
}

/// Whether `a` comes before `b` in byte-lexicographic order.
pub open spec fn bytes_lt(a: Seq<u8>, b: Seq<u8>) -> bool {
    exists|k: int| precedes_at(a, b, k)
}

/// Whether `a` is `b` or comes before it in byte-lexicographic order.
pub open spec fn bytes_le(a: Seq<u8>, b: Seq<u8>) -> bool {
    a == b || bytes_lt(a, b)
}

/// Whether no name of `names` comes after a later one.
pub open spec fn ascending(names: Seq<Seq<u8>>) -> bool {
    forall|i: int, j: int| 0 <= i < j < names.len() ==> bytes_le(names[i], names[j])
}

/// Whether each name of `names` comes before every later one.
pub open spec fn strictly_ascending(names: Seq<Seq<u8>>) -> bool {
    forall|i: int, j: int| 0 <= i < j < names.len() ==> bytes_lt(names[i], names[j])
}

/// The names that `keys` hold, as bytes.
pub open spec fn names_of(keys: Seq<Vec<u8>>) -> Seq<Seq<u8>> {
    keys.map_values(|k: Vec<u8>| k@)
}

/// Whether `names` are the stations of a table with domain `stations`, in
/// ascending byte order.
pub open spec fn is_sorted_listing(names: Seq<Seq<u8>>, stations: Set<Seq<u8>>) -> bool {
    strictly_ascending(names) && names.to_set() == stations
}

/// The stations `stations` in ascending byte order.
pub open spec fn sorted_names(stations: Set<Seq<u8>>) -> Seq<Seq<u8>> {
    choose|names: Seq<Seq<u8>>| is_sorted_listing(names, stations)
}

/// The text of one station: `name=min/mean/max`.
pub open spec fn render_station(name: Seq<u8>, s: Summary) -> Seq<u8> {
    name + seq![EQUALS] + render_tenths(s.min) + seq![SLASH] + render_tenths(s.mean_tenths())
        + seq![SLASH] + render_tenths(s.max)
}

/// The texts of the stations `names` of `table`, in the order given, with
/// a comma and a space between each two.
pub open spec fn render_stations(names: Seq<Seq<u8>>, table: Table) -> Seq<u8>
    decreases names.len(),
{
    if names.len() == 0 {
        Seq::empty()
    } else if names.len() == 1 {
        render_station(names[0], table[names[0]])
    } else {
        render_stations(names.drop_last(), table) + seq![COMMA, SPACE] + render_station(
            names.last(),
            table[names.last()],
        )
    }
}

/// The report of the stations `names` of `table`: their texts in braces.
pub open spec fn render_report(names: Seq<Seq<u8>>, table: Table) -> Seq<u8> {
    seq![OPEN] + render_stations(names, table) + seq![CLOSE]
}

/// The report of a table: all its stations, in ascending byte order.
pub open spec fn report_text(table: Table) -> Seq<u8> {
    render_report(sorted_names(table.dom()), table)
}

/// No name comes before itself, and of two names at most one comes before
/// the other.
pub proof fn bytes_lt_asymmetric(a: Seq<u8>, b: Seq<u8>)
    requires
        bytes_lt(a, b),
    ensures
        !bytes_lt(b, a),
        a != b,
{
    let k1 = choose|k: int| precedes_at(a, b, k);
    if bytes_lt(b, a) {
        let k2 = choose|k: int| precedes_at(b, a, k);
        if k1 < k2 {
            assert(b[k1] == a[k1]);
        } else if k2 < k1 {
            assert(a[k2] == b[k2]);
        }
    }
}

/// The stations of a table can be listed in ascending byte order in one
/// way only: the order of the report does not depend on the order in which
/// the stations were met.
pub proof fn sorted_listing_unique(a: Seq<Seq<u8>>, b: Seq<Seq<u8>>)
    requires
        strictly_ascending(a),
        strictly_ascending(b),
        a.to_set() == b.to_set(),
    ensures
        a == b,
    decreases a.len(),
{
    if a.len() == 0 {
        if b.len() > 0 {
            assert(b.to_set().contains(b[0]));
            assert(a.contains(b[0]));
        }
        assert(a =~= b);
    } else {
        assert(a.to_set().contains(a[0]));
        assert(b.contains(a[0]));
        let j = choose|j: int| 0 <= j < b.len() && b[j] == a[0];
        assert(b.to_set().contains(b[0]));
        assert(a.contains(b[0]));
        let i = choose|i: int| 0 <= i < a.len() && a[i] == b[0];
        if j > 0 {
            // b[0] comes before b[j] == a[0], which is a[i] or comes before it.
            assert(bytes_lt(b[0], b[j]));
            if i > 0 {
                assert(bytes_lt(a[0], a[i]));
            }
            bytes_lt_asymmetric(b[0], b[j]);
        }
        assert(a[0] == b[0]);
        let ta = a.skip(1);
        let tb = b.skip(1);
        assert(strictly_ascending(ta)) by {
            assert forall|x: int, y: int| 0 <= x < y < ta.len() implies bytes_lt(ta[x], ta[y]) by {
                assert(bytes_lt(a[x + 1], a[y + 1]));
            }
        }
        assert(strictly_ascending(tb)) by {
            assert forall|x: int, y: int| 0 <= x < y < tb.len() implies bytes_lt(tb[x], tb[y]) by {
                assert(bytes_lt(b[x + 1], b[y + 1]));
            }
        }
        assert(ta.to_set() =~= tb.to_set()) by {
            assert forall|e: Seq<u8>| ta.to_set().contains(e) implies tb.to_set().contains(e) by {
                let x = choose|x: int| 0 <= x < ta.len() && ta[x] == e;
                assert(a[x + 1] == e);
                assert(bytes_lt(a[0], a[x + 1]));
                bytes_lt_asymmetric(a[0], e);
                assert(a.to_set().contains(e));
                assert(b.contains(e));
                let y = choose|y: int| 0 <= y < b.len() && b[y] == e;
                assert(y > 0);
                assert(tb[y - 1] == e);
            }
            assert forall|e: Seq<u8>| tb.to_set().contains(e) implies ta.to_set().contains(e) by {
                let x = choose|x: int| 0 <= x < tb.len() && tb[x] == e;
                assert(b[x + 1] == e);
                assert(bytes_lt(b[0], b[x + 1]));
                bytes_lt_asymmetric(b[0], e);
                assert(b.to_set().contains(e));
                assert(a.contains(e));
                let y = choose|y: int| 0 <= y < a.len() && a[y] == e;
                assert(y > 0);
                assert(ta[y - 1] == e);
            }
        }
        sorted_listing_unique(ta, tb);
        assert(a =~= seq![a[0]] + ta);
        assert(b =~= seq![b[0]] + tb);
    }
}

/// The sort of std's slices, on station names: afterwards the names stand
/// in ascending byte-lexicographic order, which is how std orders vectors
/// of bytes, and they are the names that stood there before, each as often
/// as before.
#[verifier::external_body]
fn sort_names(names: &mut Vec<Vec<u8>>)
    ensures
        ascending(names_of(final(names)@)),
        names_of(final(names)@).to_multiset() == names_of(old(names)@).to_multiset(),
{
    names.sort();
}

/// The names of the stations of `station_map`, in ascending
/// byte-lexicographic order.
pub fn flatten_and_sort_ref(station_map: &StationTable) -> (keys: Vec<Vec<u8>>)
    ensures
        is_sorted_listing(names_of(keys@), station_map@.dom()),
        names_of(keys@) == sorted_names(station_map@.dom()),
{
    let mut keys = station_map.station_names();
    let ghost listed = keys@;
    let ghost unsorted = names_of(keys@);
    sort_names(&mut keys);
    let ghost sorted = names_of(keys@);
    proof {
        unsorted.to_multiset_ensures();
        sorted.to_multiset_ensures();
        assert(unsorted.no_duplicates()) by {
            assert forall|i: int, j: int|
                0 <= i < unsorted.len() && 0 <= j < unsorted.len() && i != j implies unsorted[i]
                != unsorted[j] by {
                if i < j {
                    assert(listed[i]@ != listed[j]@);
                } else {
                    assert(listed[j]@ != listed[i]@);
                }
            }
        }
        unsorted.lemma_multiset_has_no_duplicates();
        sorted.lemma_multiset_has_no_duplicates_conv();
        assert(strictly_ascending(sorted)) by {
            assert forall|i: int, j: int| 0 <= i < j < sorted.len() implies bytes_lt(
                sorted[i],
                sorted[j],
            ) by {
                assert(bytes_le(sorted[i], sorted[j]));
                assert(sorted[i] != sorted[j]);
            }
        }
        assert(sorted.to_set() =~= station_map@.dom()) by {
            assert forall|e: Seq<u8>| sorted.to_set().contains(e) implies station_map@.dom().contains(
                e,
            ) by {
                assert(sorted.to_multiset().count(e) > 0);
                assert(unsorted.contains(e));
                let i = choose|i: int| 0 <= i < unsorted.len() && unsorted[i] == e;
                assert(listed[i]@ == e);
            }
            assert forall|e: Seq<u8>| station_map@.dom().contains(e) implies sorted.to_set().contains(
                e,
            ) by {
                let i = choose|i: int| 0 <= i < listed.len() && (#[trigger] listed[i])@ == e;
                assert(unsorted[i] == e);
                assert(unsorted.contains(e));
                assert(unsorted.to_multiset().count(e) > 0);
                assert(sorted.contains(e));
            }
        }
        sorted_names_are(sorted, station_map@.dom());
    }
    keys
}

/// A listing in ascending byte order is the one that `sorted_names` picks.
pub proof fn sorted_names_are(names: Seq<Seq<u8>>, stations: Set<Seq<u8>>)
    requires
        is_sorted_listing(names, stations),
    ensures
        sorted_names(stations) == names,
{
    sorted_listing_unique(sorted_names(stations), names);
}

/// Appends the text of one station, `name=min/mean/max`, to `out`.
fn push_station(out: &mut Vec<u8>, name: &[u8], stats: &StationStats)
    requires
        stats.wf(),
        stats.entry_count >= 1,
    ensures
        final(out)@ == old(out)@ + render_station(name@, stats@),
{
    let ghost before = out@;
    out.extend_from_slice(name);
    out.push(EQUALS);
    assert(out@ =~= before + name@ + seq![EQUALS]);
    format_tenths(stats.min, out);
    out.push(SLASH);
    format_tenths(stats.mean(), out);
    out.push(SLASH);
    format_tenths(stats.max, out);
    assert(out@ =~= before + render_station(name@, stats@));
}

/// The text of the first `i + 1` stations is the text of the first `i`,
/// the separator unless these are none, and the text of the next station.
proof fn render_stations_next(names: Seq<Seq<u8>>, table: Table, i: int)
    requires
        0 <= i < names.len(),
    ensures
        render_stations(names.take(i + 1), table) == render_stations(names.take(i), table) + (if i
            > 0 {
            seq![COMMA, SPACE]
        } else {
            Seq::<u8>::empty()
        }) + render_station(names[i], table[names[i]]),
{
    let next = names.take(i + 1);
    assert(next.drop_last() =~= names.take(i));
    assert(next.last() == names[i]);
    if i == 0 {
        assert(render_stations(names.take(0), table) =~= Seq::<u8>::empty());
        assert(Seq::<u8>::empty() + Seq::<u8>::empty() + render_station(names[0], table[names[0]])
            =~= render_station(names[0], table[names[0]]));
    }
}

/// Renders the report of the stations `sorted_keys` of `station_map`, in
/// the order given: `{name=min/mean/max, ...}`, each number with one
/// decimal. A name that the table does not hold is an invariant violation.
pub fn output_ref(station_map: &StationTable, sorted_keys: &Vec<Vec<u8>>) -> (r: Result<
    Vec<u8>,
    ErrorKind,
>)
    requires
        station_map.wf(),
    ensures
        match r {
            Ok(out) => {
                &&& forall|i: int|
                    0 <= i < sorted_keys@.len() ==> station_map@.contains_key(
                        #[trigger] names_of(sorted_keys@)[i],
                    )
                &&& out@ == render_report(names_of(sorted_keys@), station_map@)
            },
            Err(e) => {
                &&& e == ErrorKind::InvariantViolation
                &&& exists|i: int|
                    0 <= i < sorted_keys@.len() && !station_map@.contains_key(
                        #[trigger] names_of(sorted_keys@)[i],
                    )
            },
        },
{
    let ghost names = names_of(sorted_keys@);
    let ghost table = station_map@;
    let mut out: Vec<u8> = Vec::new();
    out.push(OPEN);
    let mut i: usize = 0;
    assert(names.take(0) =~= Seq::<Seq<u8>>::empty());
    assert(out@ =~= seq![OPEN] + render_stations(names.take(0), table));
    while i < sorted_keys.len()
        invariant
            i <= sorted_keys@.len(),
            names == names_of(sorted_keys@),
            table == station_map@,
            station_map.wf(),
            forall|j: int| 0 <= j < i ==> table.contains_key(#[trigger] names[j]),
            out@ == seq![OPEN] + render_stations(names.take(i as int), table),
        decreases sorted_keys@.len() - i,
    {
        let key: &Vec<u8> = &sorted_keys[i];
        assert(key@ == names[i as int]);
        let stats = match station_map.get(key.as_slice()) {
            Some(stats) => stats,
            None => {
                return Err(ErrorKind::InvariantViolation);
            },
        };
        let ghost before = out@;
        if i > 0 {
            out.push(COMMA);
            out.push(SPACE);
        }
        let ghost separator = if i > 0 { seq![COMMA, SPACE] } else { Seq::<u8>::empty() };
        assert(out@ =~= before + separator);
        push_station(&mut out, key.as_slice(), &stats);
        proof {
            render_stations_next(names, table, i as int);
            assert(out@ =~= seq![OPEN] + render_stations(names.take(i + 1), table));
        }
        i = i + 1;
    }
    assert(names.take(i as int) =~= names);
    out.push(CLOSE);
    Ok(out)
}

/// Renders the report of a table: every station, in ascending
/// byte-lexicographic order of the names, as `{name=min/mean/max, ...}`.
pub fn report(station_map: &StationTable) -> (out: Vec<u8>)
    requires
        station_map.wf(),
    ensures
        out@ == report_text(station_map@),
{
    let keys = flatten_and_sort_ref(station_map);
    match output_ref(station_map, &keys) {
        Ok(out) => out,
        Err(_) => {
            proof {
                let names = names_of(keys@);
                let i = choose|i: int|
                    0 <= i < keys@.len() && !station_map@.contains_key(#[trigger] names[i]);
                assert(names.to_set().contains(names[i]));
            }
            Vec::new()
        },
    }
}

} // verus!
