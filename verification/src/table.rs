//! The station table: station names mapped to their running statistics.

use vstd::prelude::*;
use hashbrown::HashMap;
use crate::model::{add_reading, empty_table, merge_tables, Table};
use crate::stats::StationStats;

verus! {

/// A table from station name, as bytes, to the statistics of that station.
/// The entries live in a `hashbrown::HashMap`, which the verifier does not
/// look into: the private functions below that reach into it each state
/// what they assume of the method that they call.
#[verifier::external_body]
pub struct StationTable {
    map: HashMap<Vec<u8>, StationStats>,
}

/// The entries of a table: each station name that it holds, with the
/// statistics stored under it.
pub uninterp spec fn table_entries(t: StationTable) -> Map<Seq<u8>, StationStats>;

/// `hashbrown::HashMap::new`: a map without entries.
#[verifier::external_body]
fn entries_new() -> (t: StationTable)
    ensures
        table_entries(t).dom() == Set::<Seq<u8>>::empty(),
{
    StationTable { map: HashMap::new() }
}

/// `hashbrown::HashMap::len`: the number of entries.
#[verifier::external_body]
fn entries_len(t: &StationTable) -> (n: usize)
    ensures
        n == table_entries(*t).dom().len(),
{
    t.map.len()
}

/// `hashbrown::HashMap::get`: the statistics stored under `name`, if any.
#[verifier::external_body]
fn entries_get<'a>(t: &'a StationTable, name: &[u8]) -> (r: Option<&'a StationStats>)
    ensures
        match r {
            Some(v) => table_entries(*t).contains_key(name@) && *v == table_entries(*t)[name@],
            None => !table_entries(*t).contains_key(name@),
        },
{
    t.map.get(name)
}

/// `hashbrown::HashMap::get_mut`: a handle on the statistics stored under
/// `name`, if any. What is written through the handle is what the table
/// holds under `name` afterwards; nothing else changes.
#[verifier::external_body]
fn entries_get_mut<'a>(t: &'a mut StationTable, name: &[u8]) -> (r: Option<&'a mut StationStats>)
    ensures
        match r {
            Some(v) => {
                &&& table_entries(*old(t)).contains_key(name@)
                &&& *v == table_entries(*old(t))[name@]
                &&& table_entries(*final(t)) == table_entries(*old(t)).insert(name@, *final(v))
            },
            None => {
                &&& !table_entries(*old(t)).contains_key(name@)
                &&& table_entries(*final(t)) == table_entries(*old(t))
            },
        },
{
    t.map.get_mut(name)
}

/// `hashbrown::HashMap::insert`: afterwards `name` holds `stats`, whether
/// or not it was present; the other entries are untouched.
#[verifier::external_body]
fn entries_insert(t: &mut StationTable, name: Vec<u8>, stats: StationStats)
    ensures
        table_entries(*final(t)) == table_entries(*old(t)).insert(name@, stats),
{
    t.map.insert(name, stats);
}

/// Whether `list` holds every entry of `entries` once, and nothing else.
pub open spec fn lists_entries(
    list: Seq<(Vec<u8>, StationStats)>,
    entries: Map<Seq<u8>, StationStats>,
) -> bool {
    &&& forall|i: int|
        0 <= i < list.len() ==> entries.contains_key((#[trigger] list[i]).0@) && entries[list[i].0@]
            == list[i].1
    &&& forall|k: Seq<u8>| #[trigger]
        entries.contains_key(k) ==> exists|i: int|
            0 <= i < list.len() && (#[trigger] list[i]).0@ == k
    &&& forall|i: int, j: int|
        0 <= i < j < list.len() ==> (#[trigger] list[i]).0@ != (#[trigger] list[j]).0@
}

/// Whether `keys` holds every name of `names` once, and nothing else.
pub open spec fn lists_names(keys: Seq<Vec<u8>>, names: Set<Seq<u8>>) -> bool {
    &&& forall|i: int| 0 <= i < keys.len() ==> names.contains((#[trigger] keys[i])@)
    &&& forall|k: Seq<u8>| #[trigger]
        names.contains(k) ==> exists|i: int| 0 <= i < keys.len() && (#[trigger] keys[i])@ == k
    &&& forall|i: int, j: int|
        0 <= i < j < keys.len() ==> (#[trigger] keys[i])@ != (#[trigger] keys[j])@
}

/// The names of the entries of `all` from index `from` on.
pub open spec fn taken(all: Seq<(Vec<u8>, StationStats)>, from: int) -> Set<Seq<u8>> {
    Set::new(|k: Seq<u8>| exists|i: int| from <= i < all.len() && (#[trigger] all[i]).0@ == k)
}

/// `hashbrown::HashMap::into_iter`, collected: every entry once, in an
/// order that nothing is assumed of.
#[verifier::external_body]
fn entries_into_vec(t: StationTable) -> (list: Vec<(Vec<u8>, StationStats)>)
    ensures
        lists_entries(list@, table_entries(t)),
{
    t.map.into_iter().collect()
}

/// `hashbrown::HashMap::keys`, cloned and collected: every station name
/// once, in an order that nothing is assumed of.
#[verifier::external_body]
fn entries_keys(t: &StationTable) -> (keys: Vec<Vec<u8>>)
    ensures
        lists_names(keys@, table_entries(*t).dom()),
{
    t.map.keys().cloned().collect()
}

impl View for StationTable {
    type V = Table;

    open spec fn view(&self) -> Table {
        table_entries(*self).map_values(|s: StationStats| s@)
    }
}

impl StationTable {
    /// A table whose every station has well-formed statistics of at least
    /// one reading.
    pub open spec fn wf(&self) -> bool {
        &&& table_entries(*self).dom().finite()
        &&& forall|k: Seq<u8>| #[trigger]
            table_entries(*self).contains_key(k) ==> table_entries(*self)[k].wf()
                && table_entries(*self)[k].entry_count >= 1
    }

    /// The table without stations.
    pub fn new() -> (t: StationTable)
        ensures
            t.wf(),
            t@ == empty_table(),
    {
        let t = entries_new();
        assert(t@ =~= empty_table());
        t
    }

    /// The number of stations.
    pub fn len(&self) -> (n: usize)
        ensures
            n == self@.dom().len(),
    {
        let n = entries_len(self);
        assert(self@.dom() =~= table_entries(*self).dom());
        n
    }

    /// The statistics of station `name`, if the table holds it.
    pub fn get(&self, name: &[u8]) -> (r: Option<StationStats>)
        ensures
            match r {
                Some(s) => self@.contains_key(name@) && s@ == self@[name@] && s
                    == table_entries(*self)[name@],
                None => !self@.contains_key(name@),
            },
    {
        match entries_get(self, name) {
            Some(s) => Some(*s),
            None => None,
        }
    }

    /// The names of the stations, each once, in no particular order.
    pub fn station_names(&self) -> (keys: Vec<Vec<u8>>)
        ensures
            lists_names(keys@, self@.dom()),
    {
        let keys = entries_keys(self);
        assert(self@.dom() =~= table_entries(*self).dom());
        keys
    }

    /// The stations with their statistics, each once, in no particular
    /// order. The names are owned by the result.
    pub fn into_entries(self) -> (list: Vec<(Vec<u8>, StationStats)>)
        ensures
            lists_entries(list@, table_entries(self)),
    {
        entries_into_vec(self)
    }

    /// Folds one reading of station `name` in. A station seen for the
    /// first time starts from this reading alone.
    pub fn record(&mut self, name: &[u8], reading: i16)
        requires
            old(self).wf(),
            old(self)@.contains_key(name@) ==> old(self)@[name@].count < u64::MAX,
        ensures
            final(self).wf(),
            final(self)@ == add_reading(old(self)@, name@, reading as int),
    {
        match entries_get_mut(self, name) {
            Some(stats) => {
                stats.record(reading);
            },
            None => {
                entries_insert(self, vstd::slice::slice_to_vec(name), StationStats::first(reading));
            },
        }
        assert(self@ =~= add_reading(old(self)@, name@, reading as int));
    }

    /// Folds the statistics `stats` of station `name` in: a station that
    /// the table holds has them merged into its own, a new station is moved
    /// in as it is.
    pub fn merge_entry(&mut self, name: Vec<u8>, stats: StationStats)
        requires
            old(self).wf(),
            stats.wf(),
            stats.entry_count >= 1,
            old(self)@.contains_key(name@) ==> old(self)@[name@].count + stats.entry_count
                <= u64::MAX,
        ensures
            final(self).wf(),
            final(self)@ == old(self)@.insert(
                name@,
                if old(self)@.contains_key(name@) {
                    old(self)@[name@].merge(stats@)
                } else {
                    stats@
                },
            ),
    {
        match entries_get_mut(self, name.as_slice()) {
            Some(existing) => {
                existing.merge(&stats);
            },
            None => {
                entries_insert(self, name, stats);
            },
        }
        assert(self@ =~= old(self)@.insert(
            name@,
            if old(self)@.contains_key(name@) {
                old(self)@[name@].merge(stats@)
            } else {
                stats@
            },
        ));
    }

    /// Whether `block` can be merged into this table: whether, for every
    /// station of both, the two counts of readings add up within `u64`.
    pub fn mergeable(&self, block: &StationTable) -> (ok: bool)
        ensures
            ok == forall|k: Seq<u8>|
                self@.contains_key(k) && block@.contains_key(k) ==> self@[k].count
                    + block@[k].count <= u64::MAX,
    {
        let keys = block.station_names();
        let mut i: usize = 0;
        while i < keys.len()
            invariant
                i <= keys@.len(),
                lists_names(keys@, block@.dom()),
                forall|j: int|
                    0 <= j < i && self@.contains_key((#[trigger] keys@[j])@) ==> self@[keys@[j]@].count
                        + block@[keys@[j]@].count <= u64::MAX,
            decreases keys@.len() - i,
        {
            let key: &Vec<u8> = &keys[i];
            match (self.get(key.as_slice()), block.get(key.as_slice())) {
                (Some(mine), Some(theirs)) => {
                    if mine.entry_count > u64::MAX - theirs.entry_count {
                        return false;
                    }
                },
                _ => {},
            }
            i = i + 1;
        }
        proof {
            assert forall|k: Seq<u8>|
                self@.contains_key(k) && block@.contains_key(k) implies self@[k].count
                + block@[k].count <= u64::MAX by {
                let j = choose|j: int| 0 <= j < keys@.len() && (#[trigger] keys@[j])@ == k;
                assert(self@.contains_key(keys@[j]@));
            }
        }
        true
    }

    /// Folds every station of `block` in. Which table is folded into which
    /// makes no difference to the result, nor does the order of several
    /// such calls.
    pub fn merge(&mut self, block: StationTable)
        requires
            old(self).wf(),
            block.wf(),
            forall|k: Seq<u8>|
                old(self)@.contains_key(k) && block@.contains_key(k) ==> old(self)@[k].count
                    + block@[k].count <= u64::MAX,
        ensures
            final(self).wf(),
            final(self)@ == merge_tables(old(self)@, block@),
    {
        let ghost before = self@;
        let ghost incoming = block@;
        let ghost entries = table_entries(block);
        let mut list = block.into_entries();
        let ghost all = list@;
        assert(self@ =~= merge_tables(before, incoming.restrict(taken(all, all.len() as int))));
        while list.len() > 0
            invariant
                self.wf(),
                list@.len() <= all.len(),
                list@ == all.take(list@.len() as int),
                lists_entries(all, entries),
                incoming == entries.map_values(|s: StationStats| s@),
                forall|k: Seq<u8>| #[trigger]
                    entries.contains_key(k) ==> entries[k].wf() && entries[k].entry_count >= 1,
                forall|k: Seq<u8>|
                    before.contains_key(k) && incoming.contains_key(k) ==> before[k].count
                        + incoming[k].count <= u64::MAX,
                self@ == merge_tables(before, incoming.restrict(taken(all, list@.len() as int))),
            decreases list@.len(),
        {
            let ghost n = list@.len() as int;
            let (name, stats) = list.pop().unwrap();
            proof {
                assert(all[n - 1] == (name, stats));
                assert(entries.contains_key(name@));
                assert forall|i: int| n <= i < all.len() implies all[i].0@ != name@ by {
                    assert(all[n - 1].0@ != all[i].0@);
                }
                assert(!taken(all, n).contains(name@));
                assert(taken(all, n - 1) =~= taken(all, n).insert(name@)) by {
                    assert forall|k: Seq<u8>| taken(all, n - 1).contains(k) implies taken(
                        all,
                        n,
                    ).insert(name@).contains(k) by {
                        let i = choose|i: int| n - 1 <= i < all.len() && all[i].0@ == k;
                        if i != n - 1 {
                            assert(n <= i < all.len() && all[i].0@ == k);
                        }
                    }
                    assert(n - 1 <= n - 1 < all.len() && all[n - 1].0@ == name@);
                }
            }
            self.merge_entry(name, stats);
            proof {
                assert(list@ =~= all.take(n - 1));
                assert(self@ =~= merge_tables(before, incoming.restrict(taken(all, n - 1))));
            }
        }
        proof {
            assert(incoming.restrict(taken(all, 0)) =~= incoming) by {
                assert forall|k: Seq<u8>| incoming.contains_key(k) implies taken(
                    all,
                    0,
                ).contains(k) by {
                    assert(entries.contains_key(k));
                    let i = choose|i: int| 0 <= i < all.len() && all[i].0@ == k;
                    assert(0 <= i < all.len() && all[i].0@ == k);
                }
            }
        }
    }
}

} // verus!
