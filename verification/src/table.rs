//! The open-addressing table the block-scanning variants keep their statistics in:
//! 2^20 home slots plus 1024 overflow slots; a key is looked for from its home slot on,
//! over at most 1024 slots, and taken by the first slot that holds it or is empty.
use vstd::prelude::*;
use crate::format::rec_name;
use crate::stats::{aggregate_rec, record_value, stats_add, stats_first, stats_fit, StatsModel};

verus! {

/// Number of home slots: slot codes are below this.
pub const HOME_SLOTS: usize = 1048576;

/// Number of slots a key is looked for in, from its home slot on.
pub const PROBE_SLOTS: usize = 1024;

/// Number of slots of a table.
pub const TABLE_SLOTS: usize = 1049600;

/// Minimum, maximum, count and sum of the values recorded for one station.
#[derive(Clone, Copy)]
pub struct Aggregation {
    pub min: i32,
    pub max: i32,
    pub count: u32,
    pub sum: i32,
}

/// One slot: the packed key of the station it holds, its statistics, and its name; the
/// slot is empty while the name is.
pub struct HashEntry {
    pub key_hash: (u64, u64),
    pub data: Aggregation,
    pub key: Vec<u8>,
}

/// A slot as a value: key, statistics and name bytes.
pub struct EntryModel {
    pub key_hash: (u64, u64),
    pub data: Aggregation,
    pub key: Seq<u8>,
}

/// The value of a slot.
pub open spec fn entry_model(e: HashEntry) -> EntryModel {
    EntryModel { key_hash: e.key_hash, data: e.data, key: e.key@ }
}

/// The values of the slots of a table.
pub open spec fn slots(t: Seq<HashEntry>) -> Seq<EntryModel> {
    t.map_values(|e: HashEntry| entry_model(e))
}

/// A probe ends at a slot that holds the key or is empty.
pub open spec fn stops(e: EntryModel, h: (u64, u64)) -> bool {
    e.key_hash == h || e.key.len() == 0
}

/// The first slot from `i` on, below `from + 1024`, where a probe for `h` ends, or -1.
pub open spec fn first_stop(m: Seq<EntryModel>, h: (u64, u64), from: int, i: int) -> int
    decreases from + 1024 - i,
{
    if 0 <= i < m.len() && i < from + 1024 {
        if stops(m[i], h) {
            i
        } else {
            first_stop(m, h, from, i + 1)
        }
    } else {
        -1
    }
}

/// Whether one more value `v` keeps the count within `u32` and the sum within `i32`.
pub open spec fn agg_fits(d: Aggregation, v: int) -> bool {
    d.count < u32::MAX && i32::MIN <= d.sum + v <= i32::MAX
}

/// The statistics after one more value.
pub open spec fn agg_add(d: Aggregation, v: i32) -> Aggregation {
    Aggregation {
        min: if v < d.min { v } else { d.min },
        max: if v > d.max { v } else { d.max },
        count: (d.count + 1) as u32,
        sum: (d.sum + v) as i32,
    }
}

/// The statistics of a single value.
pub open spec fn agg_first(v: i32) -> Aggregation {
    Aggregation { min: v, max: v, count: 1, sum: v }
}

/// The slot after recording `v` for key `h` and name `key` in it: a slot holding `h`
/// takes the value in, any other slot is taken over by the station.
pub open spec fn stored(e: EntryModel, key: Seq<u8>, h: (u64, u64), v: i32) -> EntryModel {
    if e.key_hash == h {
        EntryModel { key_hash: e.key_hash, data: agg_add(e.data, v), key: e.key }
    } else {
        EntryModel { key_hash: h, data: agg_first(v), key: key }
    }
}

/// The slots after recording `v` for key `h` and name `key`, probing from slot `from`;
/// `None` when no slot of the probe ends it, or when the count or sum of the slot that
/// holds the key would overflow.
pub open spec fn save_slots(m: Seq<EntryModel>, from: int, key: Seq<u8>, h: (u64, u64), v: i32) -> Option<
    Seq<EntryModel>,
> {
    let i = first_stop(m, h, from, from);
    if i < 0 {
        None
    } else if m[i].key_hash == h && !agg_fits(m[i].data, v as int) {
        None
    } else {
        Some(m.update(i, stored(m[i], key, h, v)))
    }
}

/// `first_stop` returns the first slot from `i` on where the probe ends.
pub proof fn lemma_first_stop(m: Seq<EntryModel>, h: (u64, u64), from: int, i: int)
    requires
        from <= i,
        0 <= from,
        from + 1024 <= m.len(),
    ensures
        first_stop(m, h, from, i) == -1 ==> forall|j: int| i <= j < from + 1024 ==> !stops(m[j], h),
        first_stop(m, h, from, i) != -1 ==> i <= first_stop(m, h, from, i) < from + 1024 && stops(
            m[first_stop(m, h, from, i)],
            h,
        ) && forall|j: int| i <= j < first_stop(m, h, from, i) ==> !stops(m[j], h),
    decreases from + 1024 - i,
{
    if i < from + 1024 && !stops(m[i], h) {
        lemma_first_stop(m, h, from, i + 1);
    }
}

/// Records `value` for the station with key `hash` and name `key`, probing from slot
/// `from`: the first slot that holds the key takes the value in, or else the first
/// empty slot takes the station with this value alone. Returns false, and changes
/// nothing, when the 1024 slots hold neither, or when the count would leave `u32` or
/// the sum `i32`.
pub fn save_from(table: &mut Vec<HashEntry>, from: usize, key: &[u8], hash: (u64, u64), value: i32) -> (ok: bool)
    requires
        from + 1024 <= old(table)@.len(),
    ensures
        ok == save_slots(slots(old(table)@), from as int, key@, hash, value) is Some,
        ok ==> slots(final(table)@) == save_slots(slots(old(table)@), from as int, key@, hash, value)->0,
        !ok ==> final(table)@ == old(table)@,
        final(table)@.len() == old(table)@.len(),
{
    let ghost m = slots(table@);
    let len = table.len();
    assert(from + 1024 <= len);
    let end = from + PROBE_SLOTS;
    let mut i = from;
    proof {
        lemma_first_stop(m, hash, from as int, from as int);
    }
    while i < end
        invariant
            from <= i <= end,
            end == from + 1024,
            end <= table@.len(),
            table@ == old(table)@,
            m == slots(table@),
            first_stop(m, hash, from as int, from as int) == first_stop(m, hash, from as int, i as int),
        decreases end - i,
    {
        let matches = table[i].key_hash.0 == hash.0 && table[i].key_hash.1 == hash.1;
        proof {
            assert(m[i as int] == entry_model(table@[i as int]));
        }
        if matches {
            let d = table[i].data;
            if d.count == u32::MAX {
                return false;
            }
            let sum = match d.sum.checked_add(value) {
                Some(sum) => sum,
                None => return false,
            };
            let min = if value < d.min { value } else { d.min };
            let max = if value > d.max { value } else { d.max };
            table[i].data = Aggregation { min, max, count: d.count + 1, sum };
            proof {
                assert(slots(table@) =~= m.update(i as int, stored(m[i as int], key@, hash, value)));
            }
            return true;
        } else if table[i].key.len() == 0 {
            table[i].key_hash = hash;
            table[i].key = vstd::slice::slice_to_vec(key);
            table[i].data = Aggregation { min: value, max: value, count: 1, sum: value };
            proof {
                assert(slots(table@) =~= m.update(i as int, stored(m[i as int], key@, hash, value)));
            }
            return true;
        }
        i += 1;
    }
    false
}


/// A slot holds a station while its name is not empty.
pub open spec fn occupied(e: EntryModel) -> bool {
    e.key.len() > 0
}

/// The statistics a slot holds.
pub open spec fn agg_model(d: Aggregation) -> StatsModel {
    StatsModel { min: d.min as int, max: d.max as int, count: d.count as nat, sum: d.sum as int }
}

/// A table of empty slots, each with the zero key and statistics `init`.
pub open spec fn fresh_slots(m: Seq<EntryModel>, init: Aggregation) -> bool {
    &&& m.len() == TABLE_SLOTS
    &&& forall|i: int|
        0 <= i < m.len() ==> (#[trigger] m[i]).key.len() == 0 && m[i].key_hash == (0u64, 0u64)
            && m[i].data == init
}

/// The table invariant for slot codes `code` and keys `key_of`: empty slots are as new,
/// an occupied slot's key is the key of its name, no key is held twice, and a station
/// lies within 1024 slots of its home slot with only occupied slots between them.
pub open spec fn wf_slots(
    m: Seq<EntryModel>,
    code: spec_fn((u64, u64)) -> int,
    key_of: spec_fn(Seq<u8>) -> (u64, u64),
    init: Aggregation,
) -> bool {
    &&& m.len() == TABLE_SLOTS
    &&& forall|i: int|
        0 <= i < m.len() && !occupied(#[trigger] m[i]) ==> m[i].key_hash == (0u64, 0u64) && m[i].data
            == init
    &&& forall|i: int| 0 <= i < m.len() && occupied(#[trigger] m[i]) ==> m[i].key_hash == key_of(m[i].key)
    &&& forall|i: int, j: int|
        0 <= i < m.len() && 0 <= j < m.len() && i != j && occupied(#[trigger] m[i]) && occupied(
            #[trigger] m[j],
        ) ==> m[i].key_hash != m[j].key_hash
    &&& forall|i: int|
        0 <= i < m.len() && occupied(#[trigger] m[i]) ==> {
            let c = code(m[i].key_hash);
            &&& 0 <= c < HOME_SLOTS
            &&& c <= i < c + 1024
            &&& forall|j: int| c <= j < i ==> occupied(#[trigger] m[j])
        }
}

/// The occupied slots hold exactly the stations of `agg`, each with its statistics.
pub open spec fn slots_hold(m: Seq<EntryModel>, agg: Map<Seq<u8>, StatsModel>) -> bool {
    &&& forall|i: int|
        0 <= i < m.len() && occupied(#[trigger] m[i]) ==> agg.contains_key(m[i].key) && agg_model(
            m[i].data,
        ) == agg[m[i].key]
    &&& forall|n: Seq<u8>|
        #[trigger] agg.contains_key(n) ==> exists|i: int|
            0 <= i < m.len() && occupied(#[trigger] m[i]) && m[i].key == n
}

/// A fresh table is well formed and holds no station.
pub proof fn lemma_fresh(
    m: Seq<EntryModel>,
    code: spec_fn((u64, u64)) -> int,
    key_of: spec_fn(Seq<u8>) -> (u64, u64),
    init: Aggregation,
)
    requires
        fresh_slots(m, init),
    ensures
        wf_slots(m, code, key_of, init),
        slots_hold(m, Map::empty()),
{
}

/// Recording a value in a well-formed table that holds `agg` gives a well-formed table
/// that holds `agg` with the value recorded, as long as the name is not empty, its key
/// is not zero, its home slot is a home slot, no other station of `agg` shares its
/// key, and the recording succeeds.
pub proof fn lemma_save_holds(
    m: Seq<EntryModel>,
    agg: Map<Seq<u8>, StatsModel>,
    code: spec_fn((u64, u64)) -> int,
    key_of: spec_fn(Seq<u8>) -> (u64, u64),
    init: Aggregation,
    name: Seq<u8>,
    v: i32,
)
    requires
        wf_slots(m, code, key_of, init),
        slots_hold(m, agg),
        name.len() > 0,
        key_of(name) != (0u64, 0u64),
        0 <= code(key_of(name)) < HOME_SLOTS,
        forall|n: Seq<u8>| #[trigger] agg.contains_key(n) && key_of(n) == key_of(name) ==> n == name,
        save_slots(m, code(key_of(name)), name, key_of(name), v) is Some,
    ensures
        wf_slots(save_slots(m, code(key_of(name)), name, key_of(name), v)->0, code, key_of, init),
        slots_hold(
            save_slots(m, code(key_of(name)), name, key_of(name), v)->0,
            record_value(agg, name, v as int),
        ),
{
    let h = key_of(name);
    let c = code(h);
    let i = first_stop(m, h, c, c);
    lemma_first_stop(m, h, c, c);
    let m2 = save_slots(m, c, name, h, v)->0;
    let agg2 = record_value(agg, name, v as int);
    assert(m2 == m.update(i, stored(m[i], name, h, v)));
    if m[i].key_hash == h {
        // The slot already holds the station.
        assert(occupied(m[i]));
        assert(m[i].key == name) by {
            assert(agg.contains_key(m[i].key));
        }
        assert(agg.contains_key(name));
        assert(agg_model(m2[i].data) == stats_add(agg[name], v as int));
        assert forall|k: int| 0 <= k < m2.len() && occupied(#[trigger] m2[k]) implies agg2.contains_key(
            m2[k].key,
        ) && agg_model(m2[k].data) == agg2[m2[k].key] by {
            if k != i {
                assert(m2[k] == m[k]);
                if m[k].key == name {
                    assert(m[k].key_hash == m[i].key_hash);
                }
            }
        }
        assert forall|n: Seq<u8>| #[trigger] agg2.contains_key(n) implies exists|k: int|
            0 <= k < m2.len() && occupied(#[trigger] m2[k]) && m2[k].key == n by {
            if n == name {
                assert(occupied(m2[i]) && m2[i].key == n);
            } else {
                let k = choose|k: int| 0 <= k < m.len() && occupied(#[trigger] m[k]) && m[k].key == n;
                assert(k != i);
                assert(m2[k] == m[k]);
            }
        }
    } else {
        // The slot is empty, and no slot holds the key.
        assert(!occupied(m[i]));
        assert(!agg.contains_key(name)) by {
            if agg.contains_key(name) {
                let k = choose|k: int| 0 <= k < m.len() && occupied(#[trigger] m[k]) && m[k].key == name;
                assert(m[k].key_hash == h);
                let ck = code(m[k].key_hash);
                assert(ck == c);
                if k < i {
                    assert(!stops(m[k], h));
                } else {
                    assert(occupied(m[i]));
                }
            }
        }
        assert(agg_model(m2[i].data) == stats_first(v as int));
        assert forall|k: int| 0 <= k < m.len() && occupied(#[trigger] m[k]) implies m[k].key_hash != h by {
            assert(agg.contains_key(m[k].key));
            if m[k].key_hash == h {
                assert(key_of(m[k].key) == key_of(name));
            }
        }
        assert forall|k: int| 0 <= k < m2.len() && occupied(#[trigger] m2[k]) implies agg2.contains_key(
            m2[k].key,
        ) && agg_model(m2[k].data) == agg2[m2[k].key] by {
            if k != i {
                assert(m2[k] == m[k]);
            }
        }
        assert forall|n: Seq<u8>| #[trigger] agg2.contains_key(n) implies exists|k: int|
            0 <= k < m2.len() && occupied(#[trigger] m2[k]) && m2[k].key == n by {
            if n == name {
                assert(occupied(m2[i]) && m2[i].key == n);
            } else {
                let k = choose|k: int| 0 <= k < m.len() && occupied(#[trigger] m[k]) && m[k].key == n;
                assert(k != i);
                assert(m2[k] == m[k]);
            }
        }
        assert forall|k: int|
            0 <= k < m2.len() && occupied(#[trigger] m2[k]) implies {
            let ck = code(m2[k].key_hash);
            &&& 0 <= ck < HOME_SLOTS
            &&& ck <= k < ck + 1024
            &&& forall|j: int| ck <= j < k ==> occupied(#[trigger] m2[j])
        } by {
            if k == i {
                assert forall|j: int| c <= j < i implies occupied(#[trigger] m2[j]) by {
                    assert(!stops(m[j], h));
                    assert(m2[j] == m[j]);
                }
            } else {
                assert(m2[k] == m[k]);
                let ck = code(m[k].key_hash);
                assert forall|j: int| ck <= j < k implies occupied(#[trigger] m2[j]) by {
                    assert(occupied(m[j]));
                    if j == i {
                    } else {
                        assert(m2[j] == m[j]);
                    }
                }
            }
        }
    }
}


/// The slots after recording the records `recs` of `s` one by one from slots `m0`:
/// each name is keyed by `key_of`, probed for from slot `code` of its key, and its
/// value read by `rval`; `None` once a recording fails.
pub open spec fn fold_save(
    m0: Seq<EntryModel>,
    s: Seq<u8>,
    recs: Seq<(int, int, int)>,
    rval: spec_fn(Seq<u8>, (int, int, int)) -> int,
    code: spec_fn((u64, u64)) -> int,
    key_of: spec_fn(Seq<u8>) -> (u64, u64),
) -> Option<Seq<EntryModel>>
    decreases recs.len(),
{
    if recs.len() == 0 {
        Some(m0)
    } else {
        match fold_save(m0, s, recs.drop_last(), rval, code, key_of) {
            None => None,
            Some(m) => {
                let r = recs.last();
                let n = rec_name(s, r);
                save_slots(m, code(key_of(n)), n, key_of(n), rval(s, r) as i32)
            },
        }
    }
}

/// Every name of `recs` is not empty, has a non-zero key, a home slot below 2^20, and
/// a value `rval` reads within `i32`.
pub open spec fn names_ok(
    s: Seq<u8>,
    recs: Seq<(int, int, int)>,
    rval: spec_fn(Seq<u8>, (int, int, int)) -> int,
    code: spec_fn((u64, u64)) -> int,
    key_of: spec_fn(Seq<u8>) -> (u64, u64),
) -> bool {
    forall|i: int|
        0 <= i < recs.len() ==> {
            let n = rec_name(s, #[trigger] recs[i]);
            &&& n.len() > 0
            &&& key_of(n) != (0u64, 0u64)
            &&& 0 <= code(key_of(n)) < HOME_SLOTS
            &&& i32::MIN <= rval(s, recs[i]) <= i32::MAX
        }
}

/// Distinct names of `recs` have distinct keys.
pub open spec fn keys_distinct(
    s: Seq<u8>,
    recs: Seq<(int, int, int)>,
    key_of: spec_fn(Seq<u8>) -> (u64, u64),
) -> bool {
    forall|i: int, j: int|
        0 <= i < recs.len() && 0 <= j < recs.len() && key_of(rec_name(s, #[trigger] recs[i]))
            == key_of(rec_name(s, #[trigger] recs[j])) ==> rec_name(s, recs[i]) == rec_name(s, recs[j])
}

/// Every station of the statistics is the name of one of the records.
pub proof fn lemma_aggregate_names(
    s: Seq<u8>,
    recs: Seq<(int, int, int)>,
    rval: spec_fn(Seq<u8>, (int, int, int)) -> int,
    n: Seq<u8>,
)
    requires
        aggregate_rec(s, recs, rval).contains_key(n),
    ensures
        exists|i: int| 0 <= i < recs.len() && rec_name(s, #[trigger] recs[i]) == n,
    decreases recs.len(),
{
    let r = recs.last();
    if rec_name(s, r) == n {
        assert(rec_name(s, recs[recs.len() - 1]) == n);
    } else {
        lemma_aggregate_names(s, recs.drop_last(), rval, n);
        let i = choose|i: int| 0 <= i < recs.drop_last().len() && rec_name(s, #[trigger] recs.drop_last()[i]) == n;
        assert(recs[i] == recs.drop_last()[i]);
    }
}

/// Recording the records one by one into a fresh table, when every recording
/// succeeds, leaves a well-formed table that holds exactly the statistics of every
/// station of the records, provided the names are not empty, have non-zero keys and
/// home slots below 2^20, their values read within `i32`, and distinct names have
/// distinct keys.
pub proof fn lemma_fold_holds(
    m0: Seq<EntryModel>,
    init: Aggregation,
    s: Seq<u8>,
    recs: Seq<(int, int, int)>,
    rval: spec_fn(Seq<u8>, (int, int, int)) -> int,
    code: spec_fn((u64, u64)) -> int,
    key_of: spec_fn(Seq<u8>) -> (u64, u64),
)
    requires
        fresh_slots(m0, init),
        names_ok(s, recs, rval, code, key_of),
        keys_distinct(s, recs, key_of),
        fold_save(m0, s, recs, rval, code, key_of) is Some,
    ensures
        wf_slots(fold_save(m0, s, recs, rval, code, key_of)->0, code, key_of, init),
        slots_hold(fold_save(m0, s, recs, rval, code, key_of)->0, aggregate_rec(s, recs, rval)),
    decreases recs.len(),
{
    if recs.len() == 0 {
        lemma_fresh(m0, code, key_of, init);
    } else {
        let prev = recs.drop_last();
        assert(names_ok(s, prev, rval, code, key_of)) by {
            assert forall|i: int| 0 <= i < prev.len() implies {
                let n = rec_name(s, #[trigger] prev[i]);
                &&& n.len() > 0
                &&& key_of(n) != (0u64, 0u64)
                &&& 0 <= code(key_of(n)) < HOME_SLOTS
                &&& i32::MIN <= rval(s, prev[i]) <= i32::MAX
            } by {
                assert(prev[i] == recs[i]);
            }
        }
        assert(keys_distinct(s, prev, key_of)) by {
            assert forall|i: int, j: int|
                0 <= i < prev.len() && 0 <= j < prev.len() && key_of(rec_name(s, #[trigger] prev[i]))
                    == key_of(rec_name(s, #[trigger] prev[j])) implies rec_name(s, prev[i]) == rec_name(
                s,
                prev[j],
            ) by {
                assert(prev[i] == recs[i]);
                assert(prev[j] == recs[j]);
            }
        }
        lemma_fold_holds(m0, init, s, prev, rval, code, key_of);
        let m = fold_save(m0, s, prev, rval, code, key_of)->0;
        let agg = aggregate_rec(s, prev, rval);
        let last = recs.len() - 1;
        let r = recs[last];
        let n = rec_name(s, r);
        let v = rval(s, r);
        assert forall|n2: Seq<u8>| #[trigger] agg.contains_key(n2) && key_of(n2) == key_of(n) implies n2
            == n by {
            lemma_aggregate_names(s, prev, rval, n2);
            let i = choose|i: int| 0 <= i < prev.len() && rec_name(s, #[trigger] prev[i]) == n2;
            assert(prev[i] == recs[i]);
            assert(key_of(rec_name(s, recs[i])) == key_of(rec_name(s, recs[last])));
        }
        lemma_save_holds(m, agg, code, key_of, init, n, v as i32);
    }
}

/// Statistics that any value lowers and raises: minimum `i32::MAX`, maximum `i32::MIN`,
/// no values.
pub open spec fn agg_extremes() -> Aggregation {
    Aggregation { min: i32::MAX, max: i32::MIN, count: 0, sum: 0 }
}

/// Statistics of nothing, all zero.
pub open spec fn agg_zero() -> Aggregation {
    Aggregation { min: 0, max: 0, count: 0, sum: 0 }
}

impl Aggregation {
    /// The statistics an empty slot starts with: minimum `i32::MAX`, maximum
    /// `i32::MIN`, count and sum zero.
    pub fn new() -> (r: Aggregation)
        ensures
            r == agg_extremes(),
    {
        Aggregation { min: i32::MAX, max: i32::MIN, count: 0, sum: 0 }
    }
}

/// An empty slot with the zero key and statistics `init`.
pub fn empty_entry(init: Aggregation) -> (e: HashEntry)
    ensures
        entry_model(e) == (EntryModel { key_hash: (0u64, 0u64), data: init, key: Seq::empty() }),
{
    HashEntry { key_hash: (0, 0), data: init, key: Vec::new() }
}

/// A table of `TABLE_SLOTS` empty slots, each with statistics `init`.
pub fn fresh_table(init: Aggregation) -> (t: Vec<HashEntry>)
    ensures
        fresh_slots(slots(t@), init),
{
    let mut t: Vec<HashEntry> = Vec::new();
    let mut i: usize = 0;
    while i < TABLE_SLOTS
        invariant
            i <= TABLE_SLOTS,
            t@.len() == i,
            forall|k: int|
                0 <= k < i ==> (#[trigger] t@[k]).key@.len() == 0 && t@[k].key_hash == (0u64, 0u64)
                    && t@[k].data == init,
        decreases TABLE_SLOTS - i,
    {
        t.push(empty_entry(init));
        i += 1;
    }
    proof {
        let m = slots(t@);
        assert forall|k: int| 0 <= k < m.len() implies (#[trigger] m[k]).key.len() == 0 && m[k].key_hash
            == (0u64, 0u64) && m[k].data == init by {
            assert(m[k] == entry_model(t@[k]));
        }
    }
    t
}

/// Once a recording fails, recording more records does not succeed either.
pub proof fn lemma_fold_none_extends(
    m0: Seq<EntryModel>,
    s: Seq<u8>,
    recs: Seq<(int, int, int)>,
    k: int,
    rval: spec_fn(Seq<u8>, (int, int, int)) -> int,
    code: spec_fn((u64, u64)) -> int,
    key_of: spec_fn(Seq<u8>) -> (u64, u64),
)
    requires
        0 <= k <= recs.len(),
        fold_save(m0, s, recs.take(k), rval, code, key_of) is None,
    ensures
        fold_save(m0, s, recs, rval, code, key_of) is None,
    decreases recs.len(),
{
    if k == recs.len() {
        assert(recs.take(k) =~= recs);
    } else {
        assert(recs.drop_last().take(k) =~= recs.take(k));
        lemma_fold_none_extends(m0, s, recs.drop_last(), k, rval, code, key_of);
    }
}

/// Two ways of reading values that agree on every record record alike.
pub proof fn lemma_fold_same_values(
    m0: Seq<EntryModel>,
    s: Seq<u8>,
    recs: Seq<(int, int, int)>,
    rval1: spec_fn(Seq<u8>, (int, int, int)) -> int,
    rval2: spec_fn(Seq<u8>, (int, int, int)) -> int,
    code: spec_fn((u64, u64)) -> int,
    key_of: spec_fn(Seq<u8>) -> (u64, u64),
)
    requires
        forall|i: int| 0 <= i < recs.len() ==> rval1(s, #[trigger] recs[i]) == rval2(s, recs[i]),
    ensures
        fold_save(m0, s, recs, rval1, code, key_of) == fold_save(m0, s, recs, rval2, code, key_of),
    decreases recs.len(),
{
    if recs.len() > 0 {
        let prev = recs.drop_last();
        assert forall|i: int| 0 <= i < prev.len() implies rval1(s, #[trigger] prev[i]) == rval2(s, prev[i]) by {
            assert(prev[i] == recs[i]);
        }
        lemma_fold_same_values(m0, s, prev, rval1, rval2, code, key_of);
        assert(rval1(s, recs[recs.len() - 1]) == rval2(s, recs[recs.len() - 1]));
    }
}

/// Recording one more record is one more step of the fold.
pub proof fn lemma_fold_push(
    m0: Seq<EntryModel>,
    s: Seq<u8>,
    recs: Seq<(int, int, int)>,
    r: (int, int, int),
    rval: spec_fn(Seq<u8>, (int, int, int)) -> int,
    code: spec_fn((u64, u64)) -> int,
    key_of: spec_fn(Seq<u8>) -> (u64, u64),
)
    ensures
        fold_save(m0, s, recs.push(r), rval, code, key_of) == (match fold_save(m0, s, recs, rval, code, key_of) {
            None => None,
            Some(m) => save_slots(
                m,
                code(key_of(rec_name(s, r))),
                rec_name(s, r),
                key_of(rec_name(s, r)),
                rval(s, r) as i32,
            ),
        }),
{
    assert(recs.push(r).drop_last() =~= recs);
}

/// The number of occupied slots.
pub open spec fn occupied_count(m: Seq<EntryModel>) -> nat
    decreases m.len(),
{
    if m.len() == 0 {
        0
    } else {
        occupied_count(m.drop_last()) + if occupied(m.last()) {
            1nat
        } else {
            0nat
        }
    }
}

/// Replacing one slot changes the number of occupied slots by what leaves and what
/// comes in.
pub proof fn lemma_occupied_update(m: Seq<EntryModel>, i: int, e: EntryModel)
    requires
        0 <= i < m.len(),
    ensures
        occupied_count(m.update(i, e)) + (if occupied(m[i]) { 1int } else { 0int }) == occupied_count(m) + (
        if occupied(e) { 1int } else { 0int }),
    decreases m.len(),
{
    let m2 = m.update(i, e);
    if i == m.len() - 1 {
        assert(m2.drop_last() =~= m.drop_last());
    } else {
        lemma_occupied_update(m.drop_last(), i, e);
        assert(m2.drop_last() =~= m.drop_last().update(i, e));
    }
}

/// Some occupied slot holds key `h`.
pub open spec fn key_held(m: Seq<EntryModel>, h: (u64, u64)) -> bool {
    exists|i: int| 0 <= i < m.len() && occupied(#[trigger] m[i]) && m[i].key_hash == h
}

/// Statistics of at least one value: the minimum is at most the maximum, and the sum
/// lies between count times the minimum and count times the maximum.
pub open spec fn agg_sane(d: Aggregation) -> bool {
    &&& d.count >= 1
    &&& d.min <= d.max
    &&& d.min * d.count <= d.sum <= d.max * d.count
}

/// Every occupied slot holds sane statistics.
pub open spec fn slots_sane(m: Seq<EntryModel>) -> bool {
    forall|i: int| 0 <= i < m.len() && occupied(#[trigger] m[i]) ==> agg_sane(m[i].data)
}

/// One more value that fits keeps statistics sane.
pub proof fn lemma_add_sane(d: Aggregation, v: i32)
    requires
        agg_sane(d),
        agg_fits(d, v as int),
    ensures
        agg_sane(agg_add(d, v)),
{
    let mn: int = if v < d.min { v as int } else { d.min as int };
    let mx: int = if v > d.max { v as int } else { d.max as int };
    let c: int = d.count as int;
    let a = agg_add(d, v);
    assert(a.count == c + 1);
    assert(a.sum == d.sum + v);
    assert(a.min == mn && a.max == mx);
    assert(mn * c <= d.min * c) by (nonlinear_arith)
        requires
            mn <= d.min,
            c >= 0,
    ;
    assert(d.max * c <= mx * c) by (nonlinear_arith)
        requires
            d.max <= mx,
            c >= 0,
    ;
    assert(mn * (c + 1) == mn * c + mn) by (nonlinear_arith);
    assert(mx * (c + 1) == mx * c + mx) by (nonlinear_arith);
}

/// Recording a value for a name with a non-zero key in a well-formed table, when the
/// recording succeeds, gives a well-formed table again, the number of occupied slots
/// grows by one exactly when no slot held the key before (otherwise it stays), and
/// sane statistics in every occupied slot stay sane.
pub proof fn lemma_save_keeps(
    m: Seq<EntryModel>,
    code: spec_fn((u64, u64)) -> int,
    key_of: spec_fn(Seq<u8>) -> (u64, u64),
    init: Aggregation,
    name: Seq<u8>,
    v: i32,
)
    requires
        wf_slots(m, code, key_of, init),
        name.len() > 0,
        key_of(name) != (0u64, 0u64),
        0 <= code(key_of(name)) < HOME_SLOTS,
        save_slots(m, code(key_of(name)), name, key_of(name), v) is Some,
    ensures
        wf_slots(save_slots(m, code(key_of(name)), name, key_of(name), v)->0, code, key_of, init),
        occupied_count(save_slots(m, code(key_of(name)), name, key_of(name), v)->0) == occupied_count(m) + (
        if key_held(m, key_of(name)) { 0int } else { 1int }),
        slots_sane(m) ==> slots_sane(save_slots(m, code(key_of(name)), name, key_of(name), v)->0),
{
    let h = key_of(name);
    let c = code(h);
    let i = first_stop(m, h, c, c);
    lemma_first_stop(m, h, c, c);
    let m2 = save_slots(m, c, name, h, v)->0;
    assert(m2 == m.update(i, stored(m[i], name, h, v)));
    lemma_occupied_update(m, i, stored(m[i], name, h, v));
    if m[i].key_hash == h {
        assert(occupied(m[i]));
        assert(key_held(m, h));
        assert forall|k: int|
            0 <= k < m2.len() && occupied(#[trigger] m2[k]) implies {
            let ck = code(m2[k].key_hash);
            &&& 0 <= ck < HOME_SLOTS
            &&& ck <= k < ck + 1024
            &&& forall|j: int| ck <= j < k ==> occupied(#[trigger] m2[j])
        } by {
            let ck = code(m[k].key_hash);
            assert(m2[k].key_hash == m[k].key_hash);
            assert forall|j: int| ck <= j < k implies occupied(#[trigger] m2[j]) by {
                assert(occupied(m[j]));
                if j != i {
                    assert(m2[j] == m[j]);
                }
            }
        }
        assert forall|a: int, b: int|
            0 <= a < m2.len() && 0 <= b < m2.len() && a != b && occupied(#[trigger] m2[a]) && occupied(
                #[trigger] m2[b],
            ) implies m2[a].key_hash != m2[b].key_hash by {
            assert(m2[a].key_hash == m[a].key_hash && occupied(m[a]));
            assert(m2[b].key_hash == m[b].key_hash && occupied(m[b]));
        }
    } else {
        assert(!occupied(m[i]));
        assert forall|k: int| 0 <= k < m.len() && occupied(#[trigger] m[k]) implies m[k].key_hash != h by {
            if m[k].key_hash == h {
                let ck = code(m[k].key_hash);
                assert(ck == c);
                if k < i {
                    assert(!stops(m[k], h));
                } else {
                    assert(k != i);
                    assert(occupied(m[i]));
                }
            }
        }
        assert(!key_held(m, h));
        assert forall|k: int|
            0 <= k < m2.len() && occupied(#[trigger] m2[k]) implies {
            let ck = code(m2[k].key_hash);
            &&& 0 <= ck < HOME_SLOTS
            &&& ck <= k < ck + 1024
            &&& forall|j: int| ck <= j < k ==> occupied(#[trigger] m2[j])
        } by {
            if k == i {
                assert forall|j: int| c <= j < i implies occupied(#[trigger] m2[j]) by {
                    assert(!stops(m[j], h));
                    assert(m2[j] == m[j]);
                }
            } else {
                assert(m2[k] == m[k]);
                let ck = code(m[k].key_hash);
                assert forall|j: int| ck <= j < k implies occupied(#[trigger] m2[j]) by {
                    assert(occupied(m[j]));
                    if j != i {
                        assert(m2[j] == m[j]);
                    }
                }
            }
        }
        assert forall|a: int, b: int|
            0 <= a < m2.len() && 0 <= b < m2.len() && a != b && occupied(#[trigger] m2[a]) && occupied(
                #[trigger] m2[b],
            ) implies m2[a].key_hash != m2[b].key_hash by {
            if a != i {
                assert(m2[a] == m[a]);
            }
            if b != i {
                assert(m2[b] == m[b]);
            }
        }
    }
    assert forall|k: int| 0 <= k < m2.len() && !occupied(#[trigger] m2[k]) implies m2[k].key_hash == (0u64, 0u64)
        && m2[k].data == init by {
        assert(k != i);
        assert(m2[k] == m[k]);
    }
    assert forall|k: int| 0 <= k < m2.len() && occupied(#[trigger] m2[k]) implies m2[k].key_hash == key_of(m2[k].key) by {
        if k != i {
            assert(m2[k] == m[k]);
        }
    }
    if slots_sane(m) {
        if m[i].key_hash == h {
            assert(agg_fits(m[i].data, v as int));
            lemma_add_sane(m[i].data, v);
        }
        assert forall|k: int| 0 <= k < m2.len() && occupied(#[trigger] m2[k]) implies agg_sane(m2[k].data) by {
            if k != i {
                assert(m2[k] == m[k]);
            }
        }
    }
}

/// The number of occupied slots, other than the first, whose slot before holds a key
/// with a non-zero first half: stations likely moved past their home slot.
pub open spec fn displaced_count(m: Seq<EntryModel>) -> nat
    decreases m.len(),
{
    if m.len() == 0 {
        0
    } else {
        displaced_count(m.drop_last()) + if occupied(m.last()) && m.len() > 1 && m[m.len() - 2].key_hash.0
            != 0 {
            1nat
        } else {
            0nat
        }
    }
}

/// Counts the occupied slots, and those whose slot before holds a key with a non-zero
/// first half.
pub fn count_entries(t: &Vec<HashEntry>) -> (r: (usize, usize))
    ensures
        r.0 == occupied_count(slots(t@)),
        r.1 == displaced_count(slots(t@)),
{
    let ghost m = slots(t@);
    let mut count: usize = 0;
    let mut displaced: usize = 0;
    let mut i: usize = 0;
    while i < t.len()
        invariant
            i <= t@.len(),
            m == slots(t@),
            count == occupied_count(m.take(i as int)),
            displaced == displaced_count(m.take(i as int)),
            count <= i,
            displaced <= i,
        decreases t@.len() - i,
    {
        proof {
            assert(m.take(i + 1).drop_last() =~= m.take(i as int));
            assert(m[i as int] == entry_model(t@[i as int]));
            if i > 0 {
                assert(m[i - 1] == entry_model(t@[i - 1]));
            }
        }
        if t[i].key.len() != 0 {
            count += 1;
            if i > 0 && t[i - 1].key_hash.0 != 0 {
                displaced += 1;
            }
        }
        i += 1;
    }
    assert(m.take(m.len() as int) =~= m);
    (count, displaced)
}

/// Recording `a` and then `b` is recording `a + b`.
pub proof fn lemma_fold_append(
    m0: Seq<EntryModel>,
    s: Seq<u8>,
    a: Seq<(int, int, int)>,
    b: Seq<(int, int, int)>,
    rval: spec_fn(Seq<u8>, (int, int, int)) -> int,
    code: spec_fn((u64, u64)) -> int,
    key_of: spec_fn(Seq<u8>) -> (u64, u64),
)
    ensures
        fold_save(m0, s, a + b, rval, code, key_of) == (match fold_save(m0, s, a, rval, code, key_of) {
            None => None,
            Some(m) => fold_save(m, s, b, rval, code, key_of),
        }),
    decreases b.len(),
{
    if b.len() == 0 {
        assert(a + b =~= a);
    } else {
        lemma_fold_append(m0, s, a, b.drop_last(), rval, code, key_of);
        assert((a + b).drop_last() =~= a + b.drop_last());
        assert((a + b).last() == b.last());
        if fold_save(m0, s, a, rval, code, key_of) is Some {
            let m = fold_save(m0, s, a, rval, code, key_of)->0;
            assert(b.drop_last().push(b.last()) =~= b);
            lemma_fold_push(m, s, b.drop_last(), b.last(), rval, code, key_of);
        } else {
            assert((a + b).take(a.len() as int) =~= a);
            lemma_fold_none_extends(m0, s, a + b, a.len() as int, rval, code, key_of);
        }
    }
}

/// After every prefix of `recs` the statistics read by `rval` fit: counts within `u32`,
/// sums within `i32`.
pub open spec fn fits_rec_throughout(
    s: Seq<u8>,
    recs: Seq<(int, int, int)>,
    rval: spec_fn(Seq<u8>, (int, int, int)) -> int,
) -> bool {
    forall|k: int|
        0 <= k <= recs.len() ==> stats_fit(#[trigger] aggregate_rec(s, recs.take(k), rval), i32::MIN as int, i32::MAX as int)
}

/// The stations of the statistics are finitely many, and those of a prefix are among
/// those of the whole.
pub proof fn lemma_agg_rec_dom(s: Seq<u8>, recs: Seq<(int, int, int)>, rval: spec_fn(Seq<u8>, (int, int, int)) -> int, k: int)
    requires
        0 <= k <= recs.len(),
    ensures
        aggregate_rec(s, recs, rval).dom().finite(),
        aggregate_rec(s, recs.take(k), rval).dom().subset_of(aggregate_rec(s, recs, rval).dom()),
    decreases recs.len(),
{
    if recs.len() > 0 {
        if k == recs.len() {
            assert(recs.take(k) =~= recs);
            lemma_agg_rec_dom(s, recs.drop_last(), rval, 0);
        } else {
            assert(recs.drop_last().take(k) =~= recs.take(k));
            lemma_agg_rec_dom(s, recs.drop_last(), rval, k);
        }
    } else {
        assert(recs.take(k) =~= recs);
    }
}

/// In a well-formed table that holds fewer than 1024 stations, a probe for a station
/// with a valid key always ends within its 1024 slots.
pub proof fn lemma_probe_ends(
    m: Seq<EntryModel>,
    agg: Map<Seq<u8>, StatsModel>,
    code: spec_fn((u64, u64)) -> int,
    key_of: spec_fn(Seq<u8>) -> (u64, u64),
    init: Aggregation,
    name: Seq<u8>,
)
    requires
        wf_slots(m, code, key_of, init),
        slots_hold(m, agg),
        agg.dom().finite(),
        agg.dom().len() < 1024,
        0 <= code(key_of(name)) < HOME_SLOTS,
    ensures
        first_stop(m, key_of(name), code(key_of(name)), code(key_of(name))) >= 0,
{
    let h = key_of(name);
    let c = code(h);
    lemma_first_stop(m, h, c, c);
    if first_stop(m, h, c, c) < 0 {
        let range = vstd::set_lib::set_int_range(c, c + 1024);
        let f = |j: int| m[j].key;
        vstd::set_lib::lemma_int_range(c, c + 1024);
        assert(vstd::relations::injective_on(f, range)) by {
            assert forall|a: int, b: int| range.contains(a) && range.contains(b) && #[trigger] f(a) == #[trigger] f(b) implies a == b by {
                assert(!stops(m[a], h) && !stops(m[b], h));
                assert(occupied(m[a]) && occupied(m[b]));
                if a != b {
                    assert(m[a].key_hash == key_of(m[a].key));
                    assert(m[b].key_hash == key_of(m[b].key));
                }
            }
        }
        let names = range.map(f);
        vstd::set_lib::lemma_map_size(range, names, f);
        assert(names.subset_of(agg.dom())) by {
            assert forall|n: Seq<u8>| names.contains(n) implies agg.dom().contains(n) by {
                let j = choose|j: int| range.contains(j) && f(j) == n;
                assert(!stops(m[j], h));
                assert(occupied(m[j]));
            }
        }
        vstd::set_lib::lemma_len_subset(names, agg.dom());
        assert(false);
    }
}

/// Recording the records one by one into a fresh table always succeeds when the names
/// are not empty, have non-zero keys and home slots below 2^20, their values read
/// within `i32`, distinct names have distinct keys, there are fewer than 1024 of them,
/// and the counts and sums fit their widths after every record.
pub proof fn lemma_fold_some(
    m0: Seq<EntryModel>,
    init: Aggregation,
    s: Seq<u8>,
    recs: Seq<(int, int, int)>,
    rval: spec_fn(Seq<u8>, (int, int, int)) -> int,
    code: spec_fn((u64, u64)) -> int,
    key_of: spec_fn(Seq<u8>) -> (u64, u64),
)
    requires
        fresh_slots(m0, init),
        names_ok(s, recs, rval, code, key_of),
        keys_distinct(s, recs, key_of),
        fits_rec_throughout(s, recs, rval),
        aggregate_rec(s, recs, rval).dom().len() < 1024,
    ensures
        fold_save(m0, s, recs, rval, code, key_of) is Some,
    decreases recs.len(),
{
    if recs.len() > 0 {
        let prev = recs.drop_last();
        let last = recs.len() - 1;
        assert(names_ok(s, prev, rval, code, key_of)) by {
            assert forall|i: int| 0 <= i < prev.len() implies {
                let n = rec_name(s, #[trigger] prev[i]);
                &&& n.len() > 0
                &&& key_of(n) != (0u64, 0u64)
                &&& 0 <= code(key_of(n)) < HOME_SLOTS
                &&& i32::MIN <= rval(s, prev[i]) <= i32::MAX
            } by {
                assert(prev[i] == recs[i]);
            }
        }
        assert(keys_distinct(s, prev, key_of)) by {
            assert forall|i: int, j: int|
                0 <= i < prev.len() && 0 <= j < prev.len() && key_of(rec_name(s, #[trigger] prev[i]))
                    == key_of(rec_name(s, #[trigger] prev[j])) implies rec_name(s, prev[i]) == rec_name(
                s,
                prev[j],
            ) by {
                assert(prev[i] == recs[i]);
                assert(prev[j] == recs[j]);
            }
        }
        assert(fits_rec_throughout(s, prev, rval)) by {
            assert forall|k: int| 0 <= k <= prev.len() implies stats_fit(
                #[trigger] aggregate_rec(s, prev.take(k), rval),
                i32::MIN as int,
                i32::MAX as int,
            ) by {
                assert(prev.take(k) =~= recs.take(k));
            }
        }
        lemma_agg_rec_dom(s, recs, rval, last);
        assert(recs.take(last) =~= prev);
        vstd::set_lib::lemma_len_subset(aggregate_rec(s, prev, rval).dom(), aggregate_rec(s, recs, rval).dom());
        lemma_agg_rec_dom(s, prev, rval, 0);
        lemma_fold_some(m0, init, s, prev, rval, code, key_of);
        lemma_fold_holds(m0, init, s, prev, rval, code, key_of);
        let m = fold_save(m0, s, prev, rval, code, key_of)->0;
        let agg = aggregate_rec(s, prev, rval);
        let r = recs[last];
        let n = rec_name(s, r);
        let h = key_of(n);
        let c = code(h);
        let v = rval(s, r);
        assert(n.len() > 0 && h != (0u64, 0u64) && 0 <= c < HOME_SLOTS && i32::MIN <= v <= i32::MAX) by {
            assert(names_ok(s, recs, rval, code, key_of));
        }
        lemma_probe_ends(m, agg, code, key_of, init, n);
        let i = first_stop(m, h, c, c);
        lemma_first_stop(m, h, c, c);
        if m[i].key_hash == h {
            assert(occupied(m[i]));
            assert(agg.contains_key(m[i].key));
            lemma_aggregate_names(s, prev, rval, m[i].key);
            let j = choose|j: int| 0 <= j < prev.len() && rec_name(s, #[trigger] prev[j]) == m[i].key;
            assert(prev[j] == recs[j]);
            assert(key_of(rec_name(s, recs[j])) == key_of(rec_name(s, recs[last])));
            assert(m[i].key == n);
            assert(recs.take(recs.len() as int) =~= recs);
            assert(stats_fit(aggregate_rec(s, recs, rval), i32::MIN as int, i32::MAX as int));
            assert(aggregate_rec(s, recs, rval) == record_value(agg, n, v));
            assert(aggregate_rec(s, recs, rval).contains_key(n));
        }
    }
}

/// The fresh table with statistics `init` in every slot.
pub open spec fn fresh_model(init: Aggregation) -> Seq<EntryModel> {
    Seq::new(TABLE_SLOTS as nat, |i: int| EntryModel { key_hash: (0u64, 0u64), data: init, key: Seq::empty() })
}

/// A fresh table is the fresh table.
pub proof fn lemma_fresh_model(m: Seq<EntryModel>, init: Aggregation)
    requires
        fresh_slots(m, init),
    ensures
        m == fresh_model(init),
{
    assert forall|i: int| 0 <= i < m.len() implies m[i] == fresh_model(init)[i] by {
        assert(m[i].key =~= Seq::<u8>::empty());
    }
    assert(m =~= fresh_model(init));
}

} // verus!
