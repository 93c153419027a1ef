//! Station statistics in an `FxHashMap` keyed by the name bytes.
use vstd::prelude::*;
use std::collections::HashMap;
use rustc_hash::FxBuildHasher;
use crate::stats::{record_value, stats_fit, StatsModel};

verus! {

#[verifier::external_type_specification]
#[verifier::external_body]
pub struct ExFxBuildHasher(FxBuildHasher);

/// Minimum, maximum, count and sum of one station.
pub type Item = (i32, i32, u32, i32);

/// Station name bytes to statistics, hashed with `FxHasher`.
pub type FxStations = HashMap<Vec<u8>, (i32, i32, u32, i32), FxBuildHasher>;

/// The entries of an `FxStations`, keyed by the name bytes.
pub uninterp spec fn fx_contents(m: HashMap<Vec<u8>, (i32, i32, u32, i32), FxBuildHasher>) -> Map<
    Seq<u8>,
    (i32, i32, u32, i32),
>;

/// The map with no station.
pub open spec fn no_items() -> Map<Seq<u8>, Item> {
    Map::empty()
}

/// `HashMap::with_capacity_and_hasher` with `FxBuildHasher`: a new map with room for
/// `capacity` entries. Trusted: a new map holds no entry. The capacity is kept small:
/// an allocation size that overflows makes the call panic.
#[verifier::external_body]
pub(crate) fn fx_with_capacity(capacity: usize) -> (stations: FxStations)
    requires
        capacity <= 0x10_0000,
    ensures
        fx_contents(stations) == no_items(),
{
    HashMap::with_capacity_and_hasher(capacity, FxBuildHasher::default())
}

/// `HashMap::get`: the statistics stored under `key`, copied out. Trusted: `get`
/// returns the value stored under an equal key, and `Vec<u8>` compares and hashes as
/// its bytes.
#[verifier::external_body]
pub(crate) fn fx_get(m: &FxStations, key: &[u8]) -> (r: Option<Item>)
    ensures
        r == fx_contents(*m).get(key@),
{
    m.get(key).copied()
}

/// `HashMap::insert`: stores `value` under `key`, replacing what was there. Trusted:
/// afterwards exactly that key maps to the new value and every other key is unchanged.
#[verifier::external_body]
pub(crate) fn fx_insert(m: &mut FxStations, key: Vec<u8>, value: Item)
    ensures
        fx_contents(*final(m)) == fx_contents(*old(m)).insert(key@, value),
{
    m.insert(key, value);
}

/// The statistics an item holds.
pub open spec fn item_model(t: Item) -> StatsModel {
    StatsModel { min: t.0 as int, max: t.1 as int, count: t.2 as nat, sum: t.3 as int }
}

/// The map holds exactly the stations of `agg`, each with its statistics.
pub open spec fn fx_models(c: Map<Seq<u8>, Item>, agg: Map<Seq<u8>, StatsModel>) -> bool {
    &&& c.dom() == agg.dom()
    &&& forall|k: Seq<u8>| #[trigger] c.contains_key(k) ==> item_model(c[k]) == agg[k]
}


/// The item after recording `v` on top of `cur`, the item stored before if any.
pub open spec fn item_after(cur: Option<Item>, v: i32) -> Item {
    match cur {
        Some(t) => (
            if v < t.0 { v } else { t.0 },
            if v > t.1 { v } else { t.1 },
            (t.2 + 1) as u32,
            (t.3 + v) as i32,
        ),
        None => (v, v, 1, v),
    }
}

/// Recording a value in a map that models `agg` gives a map that models `agg` with the
/// value recorded, as long as the new count and sum fit their widths.
pub proof fn lemma_fx_record(
    c: Map<Seq<u8>, Item>,
    agg: Map<Seq<u8>, StatsModel>,
    name: Seq<u8>,
    v: i32,
)
    requires
        fx_models(c, agg),
        stats_fit(record_value(agg, name, v as int), i32::MIN as int, i32::MAX as int),
    ensures
        fx_models(c.insert(name, item_after(c.get(name), v)), record_value(agg, name, v as int)),
{
    let c2 = c.insert(name, item_after(c.get(name), v));
    let a2 = record_value(agg, name, v as int);
    assert(a2.contains_key(name));
    assert(c2.dom() =~= a2.dom());
    assert forall|k: Seq<u8>| #[trigger] c2.contains_key(k) implies item_model(c2[k]) == a2[k] by {
        if k != name {
            assert(c.contains_key(k));
        }
    }
}


/// Whether recording `v` on top of `cur` keeps the count within `u32` and the sum
/// within `i32`.
pub open spec fn item_fits(cur: Option<Item>, v: i32) -> bool {
    match cur {
        Some(t) => t.2 < u32::MAX && i32::MIN <= t.3 + v <= i32::MAX,
        None => true,
    }
}

/// For a map that models statistics which fit, recording `v` keeps them fitting
/// exactly when the recorded item fits.
pub proof fn lemma_fx_fit(c: Map<Seq<u8>, Item>, agg: Map<Seq<u8>, StatsModel>, name: Seq<u8>, v: i32)
    requires
        fx_models(c, agg),
        stats_fit(agg, i32::MIN as int, i32::MAX as int),
    ensures
        stats_fit(record_value(agg, name, v as int), i32::MIN as int, i32::MAX as int)
            == item_fits(c.get(name), v),
{
    let a2 = record_value(agg, name, v as int);
    if c.contains_key(name) {
        assert(a2.contains_key(name));
    }
    if item_fits(c.get(name), v) {
        assert forall|k: Seq<u8>| #[trigger] a2.contains_key(k) implies a2[k].count <= u32::MAX
            && i32::MIN <= a2[k].sum <= i32::MAX by {
            if k != name {
                assert(agg.contains_key(k));
            }
        }
    } else {
        assert(a2.contains_key(name));
    }
}

/// Records `value` for station `name`: the station's count grows by one, its sum by
/// `value`, and its minimum and maximum take `value` in; a new station starts from
/// `value` alone. Returns false, and leaves the map as it was, when the count would
/// leave `u32` or the sum `i32`.
pub fn record_station(hash: &mut FxStations, name: &[u8], value: i32) -> (ok: bool)
    ensures
        ok == item_fits(fx_contents(*old(hash)).get(name@), value),
        ok ==> fx_contents(*final(hash)) == fx_contents(*old(hash)).insert(
            name@,
            item_after(fx_contents(*old(hash)).get(name@), value),
        ),
        !ok ==> fx_contents(*final(hash)) == fx_contents(*old(hash)),
{
    match fx_get(hash, name) {
        Some(item) => {
            if item.2 == u32::MAX {
                return false;
            }
            let sum = match item.3.checked_add(value) {
                Some(sum) => sum,
                None => return false,
            };
            let min = if value < item.0 { value } else { item.0 };
            let max = if value > item.1 { value } else { item.1 };
            fx_insert(hash, vstd::slice::slice_to_vec(name), (min, max, item.2 + 1, sum));
        },
        None => {
            fx_insert(hash, vstd::slice::slice_to_vec(name), (value, value, 1, value));
        },
    }
    true
}

} // verus!
