//! The mathematics of aggregation: tables as maps, records as sequences.

use vstd::prelude::*;
use crate::stats::Summary;

verus! {

/// A station table as mathematics sees it: station names, as bytes, mapped
/// to the summaries of their readings.
pub type Table = Map<Seq<u8>, Summary>;

/// A record: a station name and a reading in tenths.
pub type Record = (Seq<u8>, int);

/// The table without stations.
pub open spec fn empty_table() -> Table {
    Map::empty()
}

/// The table `t` after one more reading `r` of station `name`: a station
/// seen for the first time starts from that reading alone.
pub open spec fn add_reading(t: Table, name: Seq<u8>, r: int) -> Table {
    t.insert(
        name,
        if t.contains_key(name) {
            t[name].record(r)
        } else {
            Summary::single(r)
        },
    )
}

/// The table of all stations of `a` and `b`: a station of both has its two
/// summaries merged, a station of one keeps its summary.
pub open spec fn merge_tables(a: Table, b: Table) -> Table {
    Map::new(
        |k: Seq<u8>| a.contains_key(k) || b.contains_key(k),
        |k: Seq<u8>|
            if a.contains_key(k) && b.contains_key(k) {
                a[k].merge(b[k])
            } else if a.contains_key(k) {
                a[k]
            } else {
                b[k]
            },
    )
}

/// The table of a sequence of records, folded in from first to last.
pub open spec fn tally(records: Seq<Record>) -> Table
    decreases records.len(),
{
    if records.len() == 0 {
        empty_table()
    } else {
        add_reading(tally(records.drop_last()), records.last().0, records.last().1)
    }
}

/// A table whose every summary is consistent and holds at least one reading.
pub open spec fn table_consistent(t: Table) -> bool {
    forall|k: Seq<u8>| #[trigger] t.contains_key(k) ==> t[k].consistent() && t[k].count >= 1
}

/// The tables of a sequence of blocks, merged from first to last.
pub open spec fn merge_all(tables: Seq<Table>) -> Table
    decreases tables.len(),
{
    if tables.len() == 0 {
        empty_table()
    } else {
        merge_tables(merge_all(tables.drop_last()), tables.last())
    }
}

/// Merging two tables does not depend on their order.
pub proof fn merge_tables_commutative(a: Table, b: Table)
    ensures
        merge_tables(a, b) == merge_tables(b, a),
{
    assert forall|k: Seq<u8>| a.contains_key(k) && b.contains_key(k) implies a[k].merge(b[k])
        == b[k].merge(a[k]) by {
        Summary::merge_commutative(a[k], b[k]);
    }
    assert(merge_tables(a, b) =~= merge_tables(b, a));
}

/// Merging tables does not depend on how they are grouped.
pub proof fn merge_tables_associative(a: Table, b: Table, c: Table)
    ensures
        merge_tables(merge_tables(a, b), c) == merge_tables(a, merge_tables(b, c)),
{
    assert forall|k: Seq<u8>| a.contains_key(k) && b.contains_key(k) && c.contains_key(k) implies
        a[k].merge(b[k]).merge(c[k]) == a[k].merge(b[k].merge(c[k])) by {
        Summary::merge_associative(a[k], b[k], c[k]);
    }
    assert(merge_tables(merge_tables(a, b), c) =~= merge_tables(a, merge_tables(b, c)));
}

/// The empty table is neutral for merging.
pub proof fn merge_tables_empty(a: Table)
    ensures
        merge_tables(a, empty_table()) == a,
        merge_tables(empty_table(), a) == a,
{
    assert(merge_tables(a, empty_table()) =~= a);
    assert(merge_tables(empty_table(), a) =~= a);
}

/// Merging keeps tables consistent.
pub proof fn merge_tables_consistent(a: Table, b: Table)
    requires
        table_consistent(a),
        table_consistent(b),
    ensures
        table_consistent(merge_tables(a, b)),
{
    assert forall|k: Seq<u8>| #[trigger] merge_tables(a, b).contains_key(k) implies merge_tables(
        a,
        b,
    )[k].consistent() && merge_tables(a, b)[k].count >= 1 by {
        if a.contains_key(k) && b.contains_key(k) {
            Summary::merge_consistent(a[k], b[k]);
        }
    }
}

/// Folding a reading into a table is merging the table of that one record.
pub proof fn add_reading_is_merge(t: Table, name: Seq<u8>, r: int)
    ensures
        add_reading(t, name, r) == merge_tables(t, tally(seq![(name, r)])),
{
    let one = seq![(name, r)];
    assert(one.drop_last() =~= Seq::<Record>::empty());
    assert(tally(one.drop_last()) == empty_table());
    assert(tally(one) =~= empty_table().insert(name, Summary::single(r)));
    assert(add_reading(t, name, r) =~= merge_tables(t, tally(one)));
}

/// Folding a reading into the second of two merged tables is folding it
/// into their merge.
pub proof fn add_reading_after_merge(a: Table, b: Table, name: Seq<u8>, r: int)
    ensures
        add_reading(merge_tables(a, b), name, r) == merge_tables(a, add_reading(b, name, r)),
{
    if a.contains_key(name) && b.contains_key(name) {
        Summary::merge_associative(a[name], b[name], Summary::single(r));
    }
    assert(add_reading(merge_tables(a, b), name, r) =~= merge_tables(
        a,
        add_reading(b, name, r),
    ));
}

/// The table of records in two parts is the merge of the parts' tables:
/// cutting a sequence of records into blocks, at any place, loses nothing.
pub proof fn tally_concat(a: Seq<Record>, b: Seq<Record>)
    ensures
        tally(a + b) == merge_tables(tally(a), tally(b)),
    decreases b.len(),
{
    if b.len() == 0 {
        assert(a + b =~= a);
        merge_tables_empty(tally(a));
    } else {
        assert((a + b).drop_last() =~= a + b.drop_last());
        assert((a + b).last() == b.last());
        tally_concat(a, b.drop_last());
        add_reading_after_merge(tally(a), tally(b.drop_last()), b.last().0, b.last().1);
    }
}

/// A table of records is consistent, holds finitely many stations, and no
/// station has more readings than there are records.
pub proof fn tally_consistent(records: Seq<Record>)
    ensures
        table_consistent(tally(records)),
        tally(records).dom().finite(),
        forall|k: Seq<u8>| #[trigger]
            tally(records).contains_key(k) ==> tally(records)[k].count <= records.len(),
    decreases records.len(),
{
    if records.len() > 0 {
        let before = tally(records.drop_last());
        tally_consistent(records.drop_last());
        let name = records.last().0;
        let r = records.last().1;
        if before.contains_key(name) {
            Summary::merge_consistent(before[name], Summary::single(r));
        }
        assert(tally(records).dom() =~= before.dom().insert(name));
    }
}

/// Folding two readings in does not depend on their order.
pub proof fn add_reading_commutes(t: Table, name1: Seq<u8>, r1: int, name2: Seq<u8>, r2: int)
    ensures
        add_reading(add_reading(t, name1, r1), name2, r2) == add_reading(
            add_reading(t, name2, r2),
            name1,
            r1,
        ),
{
    if name1 == name2 {
        Summary::merge_commutative(Summary::single(r1), Summary::single(r2));
        if t.contains_key(name1) {
            Summary::merge_associative(t[name1], Summary::single(r1), Summary::single(r2));
            Summary::merge_associative(t[name1], Summary::single(r2), Summary::single(r1));
        }
    }
    assert(add_reading(add_reading(t, name1, r1), name2, r2) =~= add_reading(
        add_reading(t, name2, r2),
        name1,
        r1,
    ));
}

/// Folding one more record in, at any place of the sequence, gives what
/// folding it in last gives.
pub proof fn tally_remove(records: Seq<Record>, i: int)
    requires
        0 <= i < records.len(),
    ensures
        tally(records) == add_reading(tally(records.remove(i)), records[i].0, records[i].1),
    decreases records.len(),
{
    if i == records.len() - 1 {
        assert(records.remove(i) =~= records.drop_last());
    } else {
        let front = records.drop_last();
        let last = records.last();
        tally_remove(front, i);
        assert(records.remove(i).drop_last() =~= front.remove(i));
        assert(records.remove(i).last() == last);
        add_reading_commutes(tally(front.remove(i)), records[i].0, records[i].1, last.0, last.1);
    }
}

/// The table of a collection of records does not depend on the order in
/// which they are read: two sequences that hold the same records, each as
/// often as the other, have the same table.
pub proof fn tally_any_order(xs: Seq<Record>, ys: Seq<Record>)
    requires
        xs.to_multiset() == ys.to_multiset(),
    ensures
        tally(xs) == tally(ys),
    decreases xs.len(),
{
    xs.to_multiset_ensures();
    ys.to_multiset_ensures();
    if xs.len() == 0 {
        assert(ys.len() == 0);
    } else {
        let last = xs.last();
        assert(xs.contains(last));
        assert(xs.to_multiset().count(last) > 0);
        assert(ys.contains(last));
        let i = choose|i: int| 0 <= i < ys.len() && ys[i] == last;
        assert(xs.remove(xs.len() - 1) =~= xs.drop_last());
        assert(xs.drop_last().to_multiset() =~= xs.to_multiset().remove(last));
        assert(ys.remove(i).to_multiset() =~= ys.to_multiset().remove(last));
        tally_any_order(xs.drop_last(), ys.remove(i));
        tally_remove(ys, i);
    }
}

/// The records of a sequence of blocks, block after block.
pub open spec fn all_records(blocks: Seq<Seq<Record>>) -> Seq<Record>
    decreases blocks.len(),
{
    if blocks.len() == 0 {
        Seq::empty()
    } else {
        all_records(blocks.drop_last()) + blocks.last()
    }
}

/// The tables of a sequence of blocks, one for each block.
pub open spec fn block_tables(blocks: Seq<Seq<Record>>) -> Seq<Table> {
    blocks.map_values(|block: Seq<Record>| tally(block))
}

/// However the records are cut into blocks, merging the tables of the
/// blocks gives the table of all the records.
pub proof fn merge_of_blocks(blocks: Seq<Seq<Record>>)
    ensures
        merge_all(block_tables(blocks)) == tally(all_records(blocks)),
    decreases blocks.len(),
{
    if blocks.len() > 0 {
        merge_of_blocks(blocks.drop_last());
        assert(block_tables(blocks).drop_last() =~= block_tables(blocks.drop_last()));
        tally_concat(all_records(blocks.drop_last()), blocks.last());
    }
}

/// Merging one more table, at any place of the sequence, gives what merging
/// it last gives.
pub proof fn merge_all_remove(tables: Seq<Table>, i: int)
    requires
        0 <= i < tables.len(),
    ensures
        merge_all(tables) == merge_tables(merge_all(tables.remove(i)), tables[i]),
    decreases tables.len(),
{
    if i == tables.len() - 1 {
        assert(tables.remove(i) =~= tables.drop_last());
    } else {
        let front = tables.drop_last();
        let last = tables.last();
        merge_all_remove(front, i);
        assert(tables.remove(i).drop_last() =~= front.remove(i));
        assert(tables.remove(i).last() == last);
        let rest = merge_all(front.remove(i));
        // (rest + t_i) + last == (rest + last) + t_i
        merge_tables_associative(rest, tables[i], last);
        merge_tables_commutative(tables[i], last);
        merge_tables_associative(rest, last, tables[i]);
    }
}

/// Merging block tables in any order gives the same table: two sequences
/// that hold the same tables, each as often as the other, merge alike.
pub proof fn merge_all_any_order(xs: Seq<Table>, ys: Seq<Table>)
    requires
        xs.to_multiset() == ys.to_multiset(),
    ensures
        merge_all(xs) == merge_all(ys),
    decreases xs.len(),
{
    xs.to_multiset_ensures();
    ys.to_multiset_ensures();
    if xs.len() == 0 {
        assert(ys.len() == 0);
    } else {
        let last = xs.last();
        assert(xs.contains(last));
        assert(xs.to_multiset().count(last) > 0);
        assert(ys.contains(last));
        let i = choose|i: int| 0 <= i < ys.len() && ys[i] == last;
        assert(xs.remove(xs.len() - 1) =~= xs.drop_last());
        assert(xs.drop_last().to_multiset() =~= xs.to_multiset().remove(last));
        assert(ys.remove(i).to_multiset() =~= ys.to_multiset().remove(last));
        merge_all_any_order(xs.drop_last(), ys.remove(i));
        merge_all_remove(ys, i);
    }
}

} // verus!
