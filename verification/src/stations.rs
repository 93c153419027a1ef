//! Station statistics in 64-bit fields, kept in a list with one entry per name.
use vstd::prelude::*;
use crate::stats::{record_value, stats_add, stats_first, stats_fit, StatsModel};

verus! {

/// Minimum, maximum, count and sum of one station's values.
#[derive(Clone, Copy)]
pub struct StationStats {
    pub min: i64,
    pub max: i64,
    pub count: u32,
    pub sum: i64,
}

/// One station: its name and its statistics.
pub struct Station {
    pub name: Vec<u8>,
    pub stats: StationStats,
}

/// Every station seen, each name once.
pub struct Stations {
    pub entries: Vec<Station>,
}

/// The statistics a `StationStats` holds.
pub open spec fn stats_of(t: StationStats) -> StatsModel {
    StatsModel { min: t.min as int, max: t.max as int, count: t.count as nat, sum: t.sum as int }
}

/// The entries as name and statistics pairs.
pub open spec fn entry_pairs(es: Seq<Station>) -> Seq<(Seq<u8>, StatsModel)> {
    es.map_values(|e: Station| (e.name@, stats_of(e.stats)))
}

/// The map from name to statistics that a list of pairs spells, later pairs winning.
pub open spec fn pairs_map(ps: Seq<(Seq<u8>, StatsModel)>) -> Map<Seq<u8>, StatsModel>
    decreases ps.len(),
{
    if ps.len() == 0 {
        Map::empty()
    } else {
        pairs_map(ps.drop_last()).insert(ps.last().0, ps.last().1)
    }
}

/// No name occurs twice.
pub open spec fn names_distinct(ps: Seq<(Seq<u8>, StatsModel)>) -> bool {
    forall|i: int, j: int| 0 <= i < j < ps.len() ==> (#[trigger] ps[i]).0 != (#[trigger] ps[j]).0
}

/// Whether one more value `v` keeps a station's count within `u32` and its sum within
/// `i64`; a new station always fits.
pub open spec fn fits_i64(cur: Option<StatsModel>, v: int) -> bool {
    match cur {
        Some(t) => t.count < u32::MAX && i64::MIN <= t.sum + v <= i64::MAX,
        None => true,
    }
}

/// A pair of the list is what the map holds under its name.
pub proof fn lemma_pairs_index(ps: Seq<(Seq<u8>, StatsModel)>, i: int)
    requires
        names_distinct(ps),
        0 <= i < ps.len(),
    ensures
        pairs_map(ps).contains_key(ps[i].0),
        pairs_map(ps)[ps[i].0] == ps[i].1,
    decreases ps.len(),
{
    if i < ps.len() - 1 {
        assert(ps.drop_last()[i] == ps[i]);
        assert(ps[i].0 != ps[ps.len() - 1].0);
        lemma_pairs_index(ps.drop_last(), i);
    }
}

/// A name no pair carries is not in the map.
pub proof fn lemma_pairs_absent(ps: Seq<(Seq<u8>, StatsModel)>, k: Seq<u8>)
    requires
        forall|i: int| 0 <= i < ps.len() ==> (#[trigger] ps[i]).0 != k,
    ensures
        !pairs_map(ps).contains_key(k),
    decreases ps.len(),
{
    if ps.len() > 0 {
        assert forall|i: int| 0 <= i < ps.drop_last().len() implies (#[trigger] ps.drop_last()[i]).0 != k by {
            assert(ps.drop_last()[i] == ps[i]);
        }
        lemma_pairs_absent(ps.drop_last(), k);
        assert(ps[ps.len() - 1].0 != k);
    }
}

/// Replacing the statistics of pair `i` replaces them in the map.
pub proof fn lemma_pairs_update(ps: Seq<(Seq<u8>, StatsModel)>, i: int, x: StatsModel)
    requires
        names_distinct(ps),
        0 <= i < ps.len(),
    ensures
        pairs_map(ps.update(i, (ps[i].0, x))) == pairs_map(ps).insert(ps[i].0, x),
    decreases ps.len(),
{
    let qs = ps.update(i, (ps[i].0, x));
    let k = ps[i].0;
    if i == ps.len() - 1 {
        assert(qs.drop_last() =~= ps.drop_last());
        assert(pairs_map(qs) =~= pairs_map(ps).insert(k, x));
    } else {
        assert(qs.drop_last() =~= ps.drop_last().update(i, (k, x)));
        assert(ps.drop_last()[i] == ps[i]);
        assert forall|a: int, b: int| 0 <= a < b < ps.drop_last().len() implies (#[trigger] ps.drop_last()[a]).0 != (
        #[trigger] ps.drop_last()[b]).0 by {
            assert(ps.drop_last()[a] == ps[a] && ps.drop_last()[b] == ps[b]);
        }
        lemma_pairs_update(ps.drop_last(), i, x);
        assert(k != ps[ps.len() - 1].0);
        assert(pairs_map(qs) =~= pairs_map(ps).insert(k, x));
    }
}

/// Whether two byte strings are equal.
pub fn same_bytes(a: &[u8], b: &[u8]) -> (r: bool)
    ensures
        r == (a@ == b@),
{
    if a.len() != b.len() {
        return false;
    }
    let mut i: usize = 0;
    while i < a.len()
        invariant
            i <= a@.len(),
            a@.len() == b@.len(),
            forall|j: int| 0 <= j < i ==> a@[j] == b@[j],
        decreases a@.len() - i,
    {
        if a[i] != b[i] {
            return false;
        }
        i += 1;
    }
    assert(a@ =~= b@);
    true
}

impl Stations {
    /// The statistics of every station, by name.
    pub open spec fn view(&self) -> Map<Seq<u8>, StatsModel> {
        pairs_map(entry_pairs(self.entries@))
    }

    /// No name occurs twice.
    pub open spec fn wf(&self) -> bool {
        names_distinct(entry_pairs(self.entries@))
    }

    /// No station yet.
    pub fn new() -> (r: Stations)
        ensures
            r.wf(),
            r.view() == Map::<Seq<u8>, StatsModel>::empty(),
    {
        let r = Stations { entries: Vec::new() };
        assert(entry_pairs(r.entries@) =~= Seq::<(Seq<u8>, StatsModel)>::empty());
        r
    }

    /// Records `value` for station `name`: its count grows by one, its sum by `value`,
    /// its minimum and maximum take `value` in; a new station starts from `value` alone.
    /// False, with nothing changed, when the count would leave `u32` or the sum `i64`.
    pub fn record(&mut self, name: &[u8], value: i64) -> (ok: bool)
        requires
            old(self).wf(),
        ensures
            final(self).wf(),
            ok == fits_i64(old(self).view().get(name@), value as int),
            ok ==> final(self)@ == record_value(old(self)@, name@, value as int),
            !ok ==> final(self)@ == old(self)@,
    {
        let ghost ps = entry_pairs(self.entries@);
        let mut i: usize = 0;
        while i < self.entries.len()
            invariant
                i <= self.entries@.len(),
                ps == entry_pairs(self.entries@),
                names_distinct(ps),
                self.entries@ == old(self).entries@,
                forall|j: int| 0 <= j < i ==> (#[trigger] ps[j]).0 != name@,
            decreases self.entries@.len() - i,
        {
            if same_bytes(self.entries[i].name.as_slice(), name) {
                proof {
                    lemma_pairs_index(ps, i as int);
                    assert(ps[i as int].0 == name@);
                }
                let st = self.entries[i].stats;
                if st.count == u32::MAX {
                    return false;
                }
                let sum = match st.sum.checked_add(value) {
                    Some(sum) => sum,
                    None => return false,
                };
                let nst = StationStats {
                    min: if value < st.min { value } else { st.min },
                    max: if value > st.max { value } else { st.max },
                    count: st.count + 1,
                    sum,
                };
                self.entries[i].stats = nst;
                proof {
                    assert(entry_pairs(self.entries@) =~= ps.update(i as int, (ps[i as int].0, stats_of(nst))));
                    lemma_pairs_update(ps, i as int, stats_of(nst));
                    assert(stats_of(nst) == stats_add(ps[i as int].1, value as int));
                    let qs = entry_pairs(self.entries@);
                    assert forall|a: int, b: int| 0 <= a < b < qs.len() implies (#[trigger] qs[a]).0 != (#[trigger] qs[b]).0 by {
                        assert(qs[a].0 == ps[a].0 && qs[b].0 == ps[b].0);
                    }
                }
                return true;
            }
            i += 1;
        }
        proof {
            lemma_pairs_absent(ps, name@);
        }
        let st = StationStats { min: value, max: value, count: 1, sum: value };
        self.entries.push(Station { name: vstd::slice::slice_to_vec(name), stats: st });
        proof {
            let qs = entry_pairs(self.entries@);
            assert(qs =~= ps.push((name@, stats_of(st))));
            assert(qs.drop_last() =~= ps);
            assert(stats_of(st) == stats_first(value as int));
            assert forall|a: int, b: int| 0 <= a < b < qs.len() implies (#[trigger] qs[a]).0 != (#[trigger] qs[b]).0 by {
                if b < ps.len() {
                    assert(qs[a] == ps[a] && qs[b] == ps[b]);
                } else {
                    assert(qs[a] == ps[a]);
                }
            }
        }
        true
    }
}

/// For statistics that fit `i64` sums and `u32` counts, recording `v` keeps them fitting
/// exactly when the station's own count and sum still fit.
pub proof fn lemma_fit_i64(agg: Map<Seq<u8>, StatsModel>, name: Seq<u8>, v: int)
    requires
        stats_fit(agg, i64::MIN as int, i64::MAX as int),
        i64::MIN <= v <= i64::MAX,
    ensures
        stats_fit(record_value(agg, name, v), i64::MIN as int, i64::MAX as int) == fits_i64(agg.get(name), v),
{
    let a2 = record_value(agg, name, v);
    assert(a2.contains_key(name));
    if fits_i64(agg.get(name), v) {
        assert forall|k: Seq<u8>| #[trigger] a2.contains_key(k) implies a2[k].count <= u32::MAX && i64::MIN <= a2[k].sum
            <= i64::MAX by {
            if k != name {
                assert(agg.contains_key(k));
            }
        }
    }
}

} // verus!
