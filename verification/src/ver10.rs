//! Bitmask delimiter scanning with statistics kept in a small open-addressing map keyed
//! by a 5-bit rolling hash of the name.
use vstd::prelude::*;
use crate::delims::{delim_records, delim_records_from, lemma_next_delim, next_delim, DelimScanner};
use crate::format::{rec_name, rec_value, scalar_bytes, scalar_digits, scalar_value, scalar_within};
use crate::stats::{aggregate_with, stats_add, StatsModel};
use crate::ver7::{value_ok, values_ok};
use crate::ver9::ends_on_delim;

verus! {

/// Reads a value text as [`crate::ver7::parse_value`] does and keeps the low 16 bits of
/// the result as an `i16`.
pub fn parse_value(buf: &[u8]) -> (r: i16)
    requires
        scalar_bytes(buf@),
        scalar_digits(buf@) <= i32::MAX,
    ensures
        r == scalar_value(buf@) as i16,
{
    crate::ver7::parse_value(buf) as i16
}

/// Number of index slots: 8192 buckets of four slots, and 256 slots of overflow.
pub const INDEX_SLOTS: usize = 33024;

/// An index slot that names no entry.
pub const EMPTY_SLOT: u16 = 65535;

/// Minimum, maximum, count and sum of one station.
#[derive(Clone, Copy)]
pub struct Item {
    pub min: i16,
    pub max: i16,
    pub count: u32,
    pub sum: i32,
}

/// A station: its name, the hash of its name, and its statistics.
pub struct Entry {
    pub key: Vec<u8>,
    pub hash: u64,
    pub item: Item,
}

/// An entry as a value.
pub struct EntryView {
    pub key: Seq<u8>,
    pub hash: u64,
    pub item: Item,
}

/// The value of an entry.
pub open spec fn entry_view(e: Entry) -> EntryView {
    EntryView { key: e.key@, hash: e.hash, item: e.item }
}

/// The values of entries.
pub open spec fn entry_views(v: Seq<Entry>) -> Seq<EntryView> {
    v.map_values(|e: Entry| entry_view(e))
}

/// The hash of the first `n` bytes: byte `i`'s low five bits xor-ed in at bit
/// `5 * i mod 64`, bits shifted past the top dropped.
pub open spec fn rolling_hash(key: Seq<u8>, n: int) -> u64
    decreases n,
{
    if n <= 0 {
        0
    } else {
        rolling_hash(key, n - 1) ^ ((((key[n - 1] as u64) & 0x1Fu64) << ((((n - 1) * 5) % 64) as u64)) as u64)
    }
}

/// The hash of a name.
pub open spec fn name_hash(key: Seq<u8>) -> u64 {
    rolling_hash(key, key.len() as int)
}

/// One more byte of at most five bits at bit `s`, at most 55, on top of a value with no
/// bit at or above `s`: the byte's bits are read back at `s`, lower bits are unchanged,
/// and no bit at or above `s + 5` is set.
proof fn lemma_bits_step(h: u64, c: u64, s: u64, t: u64)
    by (bit_vector)
    requires
        c < 32,
        s <= 55,
        h >> s == 0,
    ensures
        (h ^ (c << s)) >> (s + 5) == 0,
        ((h ^ (c << s)) >> s) & 31 == c,
        t + 5 <= s ==> ((h ^ (c << s)) >> t) & 31 == (h >> t) & 31,
{
}

/// The hash of the first `n` bytes, `n` at most twelve, holds byte `i`'s low five bits
/// at bits `5 * i` to `5 * i + 5`, and nothing from bit `5 * n` on.
proof fn lemma_rolling_digits(key: Seq<u8>, n: int)
    requires
        0 <= n <= key.len(),
        n <= 12,
    ensures
        forall|i: int| 0 <= i < n ==> (rolling_hash(key, n) >> ((5 * i) as u64)) & 31u64 == (key[i] as u64) & 31u64,
        rolling_hash(key, n) >> ((5 * n) as u64) == 0,
    decreases n,
{
    if n == 0 {
        assert(0u64 >> 0u64 == 0) by (bit_vector);
    } else {
        lemma_rolling_digits(key, n - 1);
        let h = rolling_hash(key, n - 1);
        let kb: u8 = key[n - 1];
        let c = (kb as u64) & 0x1Fu64;
        let s = ((n - 1) * 5) as u64;
        assert(((n - 1) * 5) % 64 == (n - 1) * 5);
        assert(((kb as u64) & 0x1Fu64) < 32) by (bit_vector);
        assert(rolling_hash(key, n) == h ^ (c << s));
        lemma_bits_step(h, c, s, 0);
        assert(s + 5 == (5 * n) as u64);
        assert forall|i: int| 0 <= i < n implies (rolling_hash(key, n) >> ((5 * i) as u64)) & 31u64 == (key[i] as u64)
            & 31u64 by {
            lemma_bits_step(h, c, s, (5 * i) as u64);
            if i == n - 1 {
                assert((5 * i) as u64 == s);
            }
        }
    }
}

/// A name of at most twelve bytes keeps every byte's low five bits apart in its hash:
/// bits `5 * i` to `5 * i + 5` of the hash are byte `i`'s low five bits, and no bit from
/// `5 * len` on is set. Two such names with the same hash thus agree in the low five bits
/// of every byte.
pub proof fn lemma_name_hash_digits(key: Seq<u8>)
    requires
        key.len() <= 12,
    ensures
        forall|i: int| 0 <= i < key.len() ==> (name_hash(key) >> ((5 * i) as u64)) & 31u64 == (key[i] as u64) & 31u64,
        name_hash(key) >> ((5 * key.len()) as u64) == 0,
{
    lemma_rolling_digits(key, key.len() as int);
}

/// Two names of at most twelve bytes with the same hash agree in the low five bits of
/// every byte both have, and a byte only one has counts zero in those bits.
pub proof fn lemma_name_hash_same(a: Seq<u8>, b: Seq<u8>)
    requires
        a.len() <= 12,
        b.len() <= 12,
        name_hash(a) == name_hash(b),
    ensures
        forall|i: int| 0 <= i < a.len() && i < b.len() ==> (a[i] as u64) & 31u64 == (b[i] as u64) & 31u64,
{
    lemma_name_hash_digits(a);
    lemma_name_hash_digits(b);
}

/// The first index slot of a hash: four slots per bucket, 8192 buckets.
pub open spec fn home_of(h: u64) -> int {
    (h % 8192) as int * 4
}

/// The first index slot from `j` on that is empty or names an entry with hash `h`, or
/// -1 when the index ends first.
pub open spec fn stop_slot(idx: Seq<u16>, ents: Seq<EntryView>, h: u64, j: int) -> int
    decreases idx.len() - j,
{
    if 0 <= j < idx.len() {
        if idx[j] == EMPTY_SLOT || ents[idx[j] as int].hash == h {
            j
        } else {
            stop_slot(idx, ents, h, j + 1)
        }
    } else {
        -1
    }
}

/// The statistics after one more value on top of `t`: the first value of an item that
/// counts none is its minimum and its maximum.
pub open spec fn item_add(t: Item, v: i16) -> Item {
    Item {
        min: if t.count == 0 || v < t.min { v } else { t.min },
        max: if t.count == 0 || v > t.max { v } else { t.max },
        count: (t.count + 1) as u32,
        sum: (t.sum + v) as i32,
    }
}

/// Whether one more value keeps the count within `u32` and the sum within `i32`.
pub open spec fn item_fits(t: Item, v: i16) -> bool {
    t.count < u32::MAX && i32::MIN <= t.sum + v <= i32::MAX
}

/// The statistics a new entry starts with: all zero.
pub open spec fn zero_item() -> Item {
    Item { min: 0, max: 0, count: 0, sum: 0 }
}

/// A map as values: its index, its entries in insertion order, and its count of skipped
/// slots.
pub struct MapView {
    pub idx: Seq<u16>,
    pub ents: Seq<EntryView>,
    pub loses: u64,
}

/// The map after recording value `v` for `name`: the probe from the name's home slot
/// stops at an empty slot, which takes a new entry with zero statistics, or at the
/// entry with the name's hash, whatever its name; the entry then takes the value in, a
/// new entry starting from that value alone.
/// `None` when the probe runs past the index, when a new entry would not get an index
/// below `EMPTY_SLOT`, or when the count or sum would overflow.
pub open spec fn map_record(m: MapView, name: Seq<u8>, v: i16) -> Option<MapView> {
    let h = name_hash(name);
    let s = stop_slot(m.idx, m.ents, h, home_of(h));
    let loses = ((m.loses + (s - home_of(h))) % 0x1_0000_0000_0000_0000int) as u64;
    if s < 0 {
        None
    } else if m.idx[s] == EMPTY_SLOT {
        if m.ents.len() >= EMPTY_SLOT {
            None
        } else {
            Some(
                MapView {
                    idx: m.idx.update(s, m.ents.len() as u16),
                    ents: m.ents.push(EntryView { key: name, hash: h, item: item_add(zero_item(), v) }),
                    loses,
                },
            )
        }
    } else {
        let k = m.idx[s] as int;
        if !item_fits(m.ents[k].item, v) {
            None
        } else {
            Some(
                MapView {
                    idx: m.idx,
                    ents: m.ents.update(k, EntryView { key: m.ents[k].key, hash: m.ents[k].hash, item: item_add(m.ents[k].item, v) }),
                    loses,
                },
            )
        }
    }
}

/// The map after recording the records `recs` of `s` one by one from `m0`, each value
/// read by [`parse_value`]; `None` once a recording fails.
pub open spec fn map_fold(m0: MapView, s: Seq<u8>, recs: Seq<(int, int, int)>) -> Option<MapView>
    decreases recs.len(),
{
    if recs.len() == 0 {
        Some(m0)
    } else {
        match map_fold(m0, s, recs.drop_last()) {
            None => None,
            Some(m) => {
                let r = recs.last();
                map_record(m, rec_name(s, r), scalar_value(rec_value(s, r)) as i16)
            },
        }
    }
}

/// A map of names to statistics: `indexes` holds, per slot, the position of an entry
/// in `values` or `EMPTY_SLOT`; entries are found by the hash of their name alone.
pub struct SimpleHashMap {
    pub indexes: Vec<u16>,
    pub values: Vec<Entry>,
    pub loses: u64,
}

impl SimpleHashMap {
    /// The map as a value.
    pub open spec fn view_map(&self) -> MapView {
        MapView { idx: self.indexes@, ents: entry_views(self.values@), loses: self.loses }
    }

    /// The index has `INDEX_SLOTS` slots, each empty or naming an entry, and there are
    /// at most `EMPTY_SLOT` entries, so every entry has an index below `EMPTY_SLOT`.
    pub open spec fn wf(&self) -> bool {
        &&& self.indexes@.len() == INDEX_SLOTS
        &&& self.values@.len() <= EMPTY_SLOT
        &&& forall|j: int|
            0 <= j < self.indexes@.len() && #[trigger] self.indexes@[j] != EMPTY_SLOT ==> (self.indexes@[j]
                as int) < self.values@.len()
    }

    /// An empty map: every slot empty, no entry, nothing skipped.
    pub fn new() -> (m: SimpleHashMap)
        ensures
            m.wf(),
            m.view_map() == empty_map(),
    {
        let mut indexes: Vec<u16> = Vec::new();
        let mut i: usize = 0;
        while i < INDEX_SLOTS
            invariant
                i <= INDEX_SLOTS,
                indexes@.len() == i,
                forall|j: int| 0 <= j < i ==> indexes@[j] == EMPTY_SLOT,
            decreases INDEX_SLOTS - i,
        {
            indexes.push(EMPTY_SLOT);
            i += 1;
        }
        let m = SimpleHashMap { indexes, values: Vec::with_capacity(8192), loses: 0 };
        assert(m.view_map().idx =~= empty_map().idx);
        assert(m.view_map().ents =~= empty_map().ents);
        m
    }

    /// The hash of a name: byte `i`'s low five bits xor-ed in at bit `5 * i mod 64`.
    pub fn compute_hash(key: &[u8]) -> (h: u64)
        ensures
            h == name_hash(key@),
    {
        let count = key.len();
        let mut shift: u64 = 0;
        let mut result: u64 = 0;
        let mut i: usize = 0;
        while i < count
            invariant
                i <= count == key@.len(),
                result == rolling_hash(key@, i as int),
                shift == (i * 5) % 64,
            decreases count - i,
        {
            let b = (key[i] as u64) & 0x1F;
            result = result ^ (b << shift);
            shift = (shift + 5) % 64;
            i += 1;
        }
        result
    }

    /// The index slot a probe for hash `h` stops at: the first slot from the hash's home
    /// slot on that is empty or names an entry with hash `h`; `None` when the index ends
    /// first.
    pub fn find_slot(&self, h: u64) -> (r: Option<usize>)
        requires
            self.wf(),
        ensures
            r is Some <==> stop_slot(self.indexes@, entry_views(self.values@), h, home_of(h)) >= 0,
            r matches Some(j) ==> j == stop_slot(self.indexes@, entry_views(self.values@), h, home_of(h))
                && j < self.indexes@.len(),
    {
        let ghost ents = entry_views(self.values@);
        let mut j = ((h % 8192) * 4) as usize;
        while j < self.indexes.len()
            invariant
                self.wf(),
                ents == entry_views(self.values@),
                home_of(h) <= j,
                stop_slot(self.indexes@, ents, h, home_of(h)) == stop_slot(self.indexes@, ents, h, j as int),
            decreases self.indexes@.len() - j,
        {
            let index = self.indexes[j];
            if index == EMPTY_SLOT {
                return Some(j);
            }
            proof {
                assert(ents[index as int] == entry_view(self.values@[index as int]));
            }
            if self.values[index as usize].hash == h {
                return Some(j);
            }
            j += 1;
        }
        None
    }

    /// The statistics of the entry for `key`: the probe from the home slot of the
    /// name's hash stops at the first slot that is empty or names an entry with that
    /// hash, counting each slot it passes as a loss. An empty slot takes a new entry
    /// for `key` with zero statistics. Entries are matched by hash alone.
    pub fn get_or_insert(&mut self, key: &[u8]) -> (item: &mut Item)
        requires
            old(self).wf(),
            stop_slot(old(self).indexes@, entry_views(old(self).values@), name_hash(key@), home_of(name_hash(key@))) >= 0,
            old(self).indexes@[stop_slot(
                old(self).indexes@,
                entry_views(old(self).values@),
                name_hash(key@),
                home_of(name_hash(key@)),
            )] == EMPTY_SLOT ==> old(self).values@.len() < EMPTY_SLOT,
        ensures
            final(self).wf(),
            ({
                let h = name_hash(key@);
                let m = old(self).view_map();
                let s = stop_slot(m.idx, m.ents, h, home_of(h));
                let loses = ((m.loses + (s - home_of(h))) % 0x1_0000_0000_0000_0000int) as u64;
                &&& final(self).loses == loses
                &&& m.idx[s] == EMPTY_SLOT ==> {
                    &&& *item == zero_item()
                    &&& final(self).indexes@ == m.idx.update(s, m.ents.len() as u16)
                    &&& entry_views(final(self).values@) == m.ents.push(EntryView { key: key@, hash: h, item: *final(item) })
                }
                &&& m.idx[s] != EMPTY_SLOT ==> {
                    let k = m.idx[s] as int;
                    &&& *item == m.ents[k].item
                    &&& final(self).indexes@ == m.idx
                    &&& entry_views(final(self).values@) == m.ents.update(
                        k,
                        EntryView { key: m.ents[k].key, hash: m.ents[k].hash, item: *final(item) },
                    )
                }
            }),
    {
        let hash = Self::compute_hash(key);
        let home = ((hash % 8192) * 4) as usize;
        let ghost ents = entry_views(self.values@);
        let ghost l0 = self.loses;
        let mut idx_in_slots = home;
        loop
            invariant
                self.wf(),
                ents == entry_views(self.values@),
                self.values@ == old(self).values@,
                self.indexes@ == old(self).indexes@,
                hash == name_hash(key@),
                home == home_of(hash),
                home <= idx_in_slots,
                l0 == old(self).loses,
                self.indexes@[stop_slot(self.indexes@, ents, hash, home as int)] == EMPTY_SLOT ==> old(self).values@.len()
                    < EMPTY_SLOT,
                stop_slot(self.indexes@, ents, hash, home as int) == stop_slot(self.indexes@, ents, hash, idx_in_slots as int),
                stop_slot(self.indexes@, ents, hash, home as int) >= 0,
                self.loses == ((l0 + (idx_in_slots - home)) % 0x1_0000_0000_0000_0000int) as u64,
            decreases self.indexes@.len() - idx_in_slots,
        {
            let index = self.indexes[idx_in_slots];
            if index == EMPTY_SLOT {
                let new_index = self.values.len();
                self.indexes.set(idx_in_slots, new_index as u16);
                self.values.push(
                    Entry { key: vstd::slice::slice_to_vec(key), hash, item: Item { min: 0, max: 0, count: 0, sum: 0 } },
                );
                proof {
                    assert(entry_views(self.values@) =~= ents.push(entry_view(self.values@[new_index as int])));
                    assert forall|j: int|
                        0 <= j < self.indexes@.len() && #[trigger] self.indexes@[j] != EMPTY_SLOT implies (
                        self.indexes@[j] as int) < self.values@.len() by {
                        if j != idx_in_slots {
                            assert(self.indexes@[j] == old(self).indexes@[j]);
                        }
                    }
                    assert(self.wf());
                }
                return &mut self.values[new_index].item;
            }
            proof {
                assert(ents[index as int] == entry_view(self.values@[index as int]));
            }
            if self.values[index as usize].hash == hash {
                return &mut self.values[index as usize].item;
            }
            idx_in_slots += 1;
            proof {
                lemma_wrap_step(l0 + (idx_in_slots - 1 - home));
            }
            self.loses = if self.loses == u64::MAX { 0 } else { self.loses + 1 };
        }
    }

    /// The entries in insertion order, each as its name and statistics.
    pub fn iter(&self) -> (r: Vec<(Vec<u8>, Item)>)
        ensures
            r@.len() == self.values@.len(),
            forall|i: int|
                0 <= i < r@.len() ==> (#[trigger] r@[i]).0@ == self.values@[i].key@ && r@[i].1 == self.values@[i].item,
    {
        let mut r: Vec<(Vec<u8>, Item)> = Vec::new();
        let mut i: usize = 0;
        while i < self.values.len()
            invariant
                i <= self.values@.len(),
                r@.len() == i,
                forall|j: int|
                    0 <= j < i ==> (#[trigger] r@[j]).0@ == self.values@[j].key@ && r@[j].1 == self.values@[j].item,
            decreases self.values@.len() - i,
        {
            let e = &self.values[i];
            r.push((vstd::slice::slice_to_vec(e.key.as_slice()), e.item));
            i += 1;
        }
        r
    }
}

/// A map with every slot empty, no entry and nothing skipped.
pub open spec fn empty_map() -> MapView {
    MapView { idx: Seq::new(INDEX_SLOTS as nat, |j: int| EMPTY_SLOT), ents: Seq::empty(), loses: 0 }
}

/// Counting one more modulo 2^64.
proof fn lemma_wrap_step(t: int)
    requires
        t >= 0,
    ensures
        ((t + 1) % 0x1_0000_0000_0000_0000int) == (if t % 0x1_0000_0000_0000_0000int == 0xFFFF_FFFF_FFFF_FFFFint {
            0
        } else {
            t % 0x1_0000_0000_0000_0000int + 1
        }),
{
    let m = 0x1_0000_0000_0000_0000int;
    let q = t / m;
    let r = t % m;
    vstd::arithmetic::div_mod::lemma_fundamental_div_mod(t, m);
    if r == m - 1 {
        vstd::arithmetic::div_mod::lemma_fundamental_div_mod_converse(t + 1, m, q + 1, 0);
    } else {
        vstd::arithmetic::div_mod::lemma_fundamental_div_mod_converse(t + 1, m, q, r + 1);
    }
}

/// The statistics of every station in `buf`, in a [`SimpleHashMap`]: records are read
/// between delimiters (a name runs to the next `;` or `\n`, its value to the one after),
/// values by [`parse_value`], and each recorded as [`map_record`] says. `None` when the
/// buffer is shorter than one block or does not end on a delimiter, when a value text
/// cannot be read, or when a recording fails.
pub fn aggregate_stations(buf: &[u8]) -> (r: Option<SimpleHashMap>)
    ensures
        r is Some <==> ends_on_delim(buf@) && values_ok(buf@, delim_records(buf@)) && map_fold(
            empty_map(),
            buf@,
            delim_records(buf@),
        ) is Some,
        r matches Some(m) ==> m.wf() && m.view_map() == map_fold(empty_map(), buf@, delim_records(buf@))->0,
{
    let n = buf.len();
    if n < 64 {
        return None;
    }
    let ghost s = buf@;
    let ghost mut done: Seq<(int, int, int)> = seq![];
    let mut map = SimpleHashMap::new();
    let mut scanner = DelimScanner::new(buf);
    let mut line_begin: usize = 0;
    proof {
        assert(done + delim_records_from(s, 0) =~= delim_records(s));
    }
    loop
        invariant
            s == buf@,
            n == s.len(),
            n >= 64,
            scanner.inv(s),
            scanner.pos@ == line_begin,
            line_begin < n,
            delim_records(s) == done + delim_records_from(s, line_begin as int),
            values_ok(s, done),
            map.wf(),
            map_fold(empty_map(), s, done) == Some(map.view_map()),
        decreases n - line_begin,
    {
        proof {
            lemma_next_delim(s, line_begin as int);
        }
        let pos1 = match scanner.next(buf) {
            Some(p) => p,
            None => {
                return None;
            },
        };
        if pos1 + 1 == n {
            proof {
                assert(next_delim(s, pos1 + 1) == -1);
                assert(delim_records(s) =~= done);
            }
            return Some(map);
        }
        proof {
            lemma_next_delim(s, pos1 + 1);
        }
        let pos2 = match scanner.next(buf) {
            Some(p) => p,
            None => {
                return None;
            },
        };
        let ghost r = (line_begin as int, pos1 as int, pos2 as int);
        proof {
            assert(delim_records_from(s, line_begin as int) == seq![r] + delim_records_from(s, pos2 + 1));
            assert(delim_records(s)[done.len() as int] == r);
            assert(delim_records(s).take(done.len() + 1int) =~= done.push(r));
            assert(done.push(r).drop_last() =~= done);
        }
        let text = vstd::slice::slice_subrange(buf, pos1 + 1, pos2);
        if !scalar_within(text, 2147483647) {
            proof {
                assert(!value_ok(rec_value(s, delim_records(s)[done.len() as int])));
            }
            return None;
        }
        let value = parse_value(text);
        let name = vstd::slice::slice_subrange(buf, line_begin, pos1);
        let ghost m = map.view_map();
        let h = SimpleHashMap::compute_hash(name);
        let slot = match map.find_slot(h) {
            Some(j) => j,
            None => {
                proof {
                    lemma_map_fold_none(s, delim_records(s), done.len() + 1int);
                }
                return None;
            },
        };
        if map.indexes[slot] == EMPTY_SLOT && map.values.len() >= EMPTY_SLOT as usize {
            proof {
                lemma_map_fold_none(s, delim_records(s), done.len() + 1int);
            }
            return None;
        }
        let item = map.get_or_insert(name);
        if item.count == u32::MAX || (value < 0 && item.sum < i32::MIN - value as i32) || (value > 0
            && item.sum > i32::MAX - value as i32) {
            proof {
                lemma_map_fold_none(s, delim_records(s), done.len() + 1int);
            }
            return None;
        }
        let first = item.count == 0;
        if first || value < item.min {
            item.min = value;
        }
        if first || value > item.max {
            item.max = value;
        }
        item.count = item.count + 1;
        item.sum = item.sum + value as i32;
        proof {
            assert(map.view_map().ents =~= map_record(m, name@, value)->0.ents);
            assert(map.view_map() == map_record(m, name@, value)->0);
            assert(done.push(r) + delim_records_from(s, pos2 + 1) =~= done + delim_records_from(
                s,
                line_begin as int,
            ));
            done = done.push(r);
        }
        line_begin = pos2 + 1;
        if pos2 + 1 == n {
            proof {
                assert(delim_records(s) =~= done);
            }
            return Some(map);
        }
    }
}

/// Once a recording fails, recording more records does not succeed either.
pub proof fn lemma_map_fold_none(s: Seq<u8>, recs: Seq<(int, int, int)>, k: int)
    requires
        0 <= k <= recs.len(),
        map_fold(empty_map(), s, recs.take(k)) is None,
    ensures
        map_fold(empty_map(), s, recs) is None,
    decreases recs.len(),
{
    if k == recs.len() {
        assert(recs.take(k) =~= recs);
    } else {
        assert(recs.drop_last().take(k) =~= recs.take(k));
        lemma_map_fold_none(s, recs.drop_last(), k);
    }
}

/// The statistics an item holds.
pub open spec fn item_stats(t: Item) -> StatsModel {
    StatsModel { min: t.min as int, max: t.max as int, count: t.count as nat, sum: t.sum as int }
}

/// How this variant reads a value text: the scalar reading cut to 16 bits.
pub open spec fn short_parse() -> spec_fn(Seq<u8>) -> int {
    |v: Seq<u8>| (scalar_value(v) as i16) as int
}

/// The entries hold exactly the stations of `agg`, each once, with its statistics.
pub open spec fn entries_hold(ents: Seq<EntryView>, agg: Map<Seq<u8>, StatsModel>) -> bool {
    &&& forall|i: int|
        0 <= i < ents.len() ==> agg.contains_key(#[trigger] ents[i].key) && item_stats(ents[i].item) == agg[ents[i].key]
            && ents[i].item.count >= 1
    &&& forall|k: Seq<u8>| #[trigger] agg.contains_key(k) ==> exists|i: int| 0 <= i < ents.len() && ents[i].key == k
    &&& forall|i: int, j: int| 0 <= i < j < ents.len() ==> (#[trigger] ents[i]).key != (#[trigger] ents[j]).key
}

/// Distinct names of `recs` have distinct hashes.
pub open spec fn hashes_distinct(s: Seq<u8>, recs: Seq<(int, int, int)>) -> bool {
    forall|i: int, j: int|
        0 <= i < recs.len() && 0 <= j < recs.len() && name_hash(rec_name(s, #[trigger] recs[i])) == name_hash(
            rec_name(s, #[trigger] recs[j]),
        ) ==> rec_name(s, recs[i]) == rec_name(s, recs[j])
}

/// The index is consistent with the entries: every slot names an entry or is empty,
/// every entry carries the hash of its name, and the probe for an entry's hash stops
/// at a slot that names that entry.
pub open spec fn index_ok(m: MapView) -> bool {
    &&& m.idx.len() == INDEX_SLOTS
    &&& forall|j: int| 0 <= j < m.idx.len() && #[trigger] m.idx[j] != EMPTY_SLOT ==> (m.idx[j] as int) < m.ents.len()
    &&& forall|i: int| 0 <= i < m.ents.len() ==> (#[trigger] m.ents[i]).hash == name_hash(m.ents[i].key)
    &&& forall|i: int|
        0 <= i < m.ents.len() ==> {
            let h = (#[trigger] m.ents[i]).hash;
            let j = stop_slot(m.idx, m.ents, h, home_of(h));
            0 <= j && m.idx[j] as int == i
        }
}

/// Where a probe stops: every slot it passes names an entry with another hash, and the
/// slot it stops at is empty or names an entry with the hash.
pub proof fn lemma_stop_props(idx: Seq<u16>, ents: Seq<EntryView>, h: u64, a: int)
    requires
        0 <= a,
    ensures
        ({
            let j = stop_slot(idx, ents, h, a);
            &&& j == -1 || (a <= j < idx.len() && (idx[j] == EMPTY_SLOT || ents[idx[j] as int].hash == h))
            &&& j >= 0 ==> forall|t: int| a <= t < j ==> idx[t] != EMPTY_SLOT && ents[idx[t] as int].hash != h
        }),
    decreases idx.len() - a,
{
    if a < idx.len() && !(idx[a] == EMPTY_SLOT || ents[idx[a] as int].hash == h) {
        lemma_stop_props(idx, ents, h, a + 1);
    }
}

/// A probe that passes the same slots, naming entries with the same hashes, and stops
/// at `j` stops at `j` again.
pub proof fn lemma_stop_transfer(
    idx: Seq<u16>,
    ents: Seq<EntryView>,
    idx2: Seq<u16>,
    ents2: Seq<EntryView>,
    h: u64,
    a: int,
    j: int,
)
    requires
        0 <= a <= j < idx2.len(),
        forall|t: int|
            a <= t < j ==> idx2[t] == idx[t] && idx[t] != EMPTY_SLOT && ents[idx[t] as int].hash != h && ents2[idx[t] as int].hash
                == ents[idx[t] as int].hash,
        idx2[j] == EMPTY_SLOT || ents2[idx2[j] as int].hash == h,
    ensures
        stop_slot(idx2, ents2, h, a) == j,
    decreases j - a,
{
    if a < j {
        lemma_stop_transfer(idx, ents, idx2, ents2, h, a + 1, j);
    }
}

/// The statistics after recording `v` in an item that counts a value are the
/// statistics with `v` recorded.
pub proof fn lemma_item_add(t: Item, st: StatsModel, v: i16)
    requires
        item_stats(t) == st,
        t.count >= 1,
        item_fits(t, v),
    ensures
        item_stats(item_add(t, v)) == stats_add(st, v as int),
{
}

/// Recording a record whose probe stops at an empty slot adds its station.
proof fn lemma_fold_step_new(s: Seq<u8>, recs: Seq<(int, int, int)>)
    requires
        recs.len() > 0,
        hashes_distinct(s, recs),
        map_fold(empty_map(), s, recs) is Some,
        index_ok(map_fold(empty_map(), s, recs.drop_last())->0),
        entries_hold(map_fold(empty_map(), s, recs.drop_last())->0.ents, aggregate_with(s, recs.drop_last(), short_parse())),
        forall|i: int|
            0 <= i < map_fold(empty_map(), s, recs.drop_last())->0.ents.len() ==> exists|t: int|
                0 <= t < recs.drop_last().len() && rec_name(s, #[trigger] recs.drop_last()[t]) == (#[trigger] map_fold(
                    empty_map(),
                    s,
                    recs.drop_last(),
                )->0.ents[i]).key,
        ({
            let h = name_hash(rec_name(s, recs.last()));
            let m = map_fold(empty_map(), s, recs.drop_last())->0;
            m.idx[stop_slot(m.idx, m.ents, h, home_of(h))] == EMPTY_SLOT
        }),
    ensures
        index_ok(map_fold(empty_map(), s, recs)->0),
        entries_hold(map_fold(empty_map(), s, recs)->0.ents, aggregate_with(s, recs, short_parse())),
        forall|i: int|
            0 <= i < map_fold(empty_map(), s, recs)->0.ents.len() ==> exists|t: int|
                0 <= t < recs.len() && rec_name(s, #[trigger] recs[t]) == (#[trigger] map_fold(empty_map(), s, recs)->0.ents[i]).key,
{
    let prev = recs.drop_last();
    let r = recs.last();
    let m = map_fold(empty_map(), s, prev)->0;
    let agg = aggregate_with(s, prev, short_parse());
    let name = rec_name(s, r);
    let v = scalar_value(rec_value(s, r)) as i16;
    let h = name_hash(name);
    let a = home_of(h);
    let st = stop_slot(m.idx, m.ents, h, a);
    let m2 = map_fold(empty_map(), s, recs)->0;
    let agg2 = aggregate_with(s, recs, short_parse());
    assert(map_fold(empty_map(), s, recs) == map_record(m, name, v));
    assert(agg2 == crate::stats::record_value(agg, name, v as int));
    lemma_stop_props(m.idx, m.ents, h, a);
    assert(st >= 0);
    assert(!agg.contains_key(name)) by {
        if agg.contains_key(name) {
            let i = choose|i: int| 0 <= i < m.ents.len() && m.ents[i].key == name;
            assert(m.ents[i].hash == h);
            assert(m.idx[st] as int == i);
        }
    }
    let ni = m.ents.len();
    assert(m2.idx == m.idx.update(st, ni as u16));
    assert(m2.ents == m.ents.push(EntryView { key: name, hash: h, item: item_add(zero_item(), v) }));
    assert forall|i: int| 0 <= i < m2.ents.len() implies {
        let hh = (#[trigger] m2.ents[i]).hash;
        let j = stop_slot(m2.idx, m2.ents, hh, home_of(hh));
        0 <= j && m2.idx[j] as int == i
    } by {
        if i < ni {
            assert(m2.ents[i] == m.ents[i]);
            let hh = m.ents[i].hash;
            let ji = stop_slot(m.idx, m.ents, hh, home_of(hh));
            lemma_stop_props(m.idx, m.ents, hh, home_of(hh));
            assert(m.idx[ji] != EMPTY_SLOT);
            assert forall|t: int| home_of(hh) <= t < ji implies m2.idx[t] == m.idx[t] && m.idx[t] != EMPTY_SLOT
                && m.ents[m.idx[t] as int].hash != hh && m2.ents[m.idx[t] as int].hash == m.ents[m.idx[t] as int].hash by {
                assert(t != st);
                assert((m.idx[t] as int) < ni);
            }
            assert(ji != st);
            lemma_stop_transfer(m.idx, m.ents, m2.idx, m2.ents, hh, home_of(hh), ji);
        } else {
            assert forall|t: int| a <= t < st implies m2.idx[t] == m.idx[t] && m.idx[t] != EMPTY_SLOT
                && m.ents[m.idx[t] as int].hash != h && m2.ents[m.idx[t] as int].hash == m.ents[m.idx[t] as int].hash by {
                assert((m.idx[t] as int) < ni);
            }
            lemma_stop_transfer(m.idx, m.ents, m2.idx, m2.ents, h, a, st);
        }
    }
    assert forall|j: int| 0 <= j < m2.idx.len() && #[trigger] m2.idx[j] != EMPTY_SLOT implies (m2.idx[j] as int)
        < m2.ents.len() by {
        if j != st {
            assert(m2.idx[j] == m.idx[j]);
        }
    }
    assert forall|i: int| 0 <= i < m2.ents.len() implies (#[trigger] m2.ents[i]).hash == name_hash(m2.ents[i].key) by {
        if i < ni {
            assert(m2.ents[i] == m.ents[i]);
        }
    }
    assert forall|i: int| 0 <= i < m2.ents.len() implies agg2.contains_key(#[trigger] m2.ents[i].key) && item_stats(
        m2.ents[i].item,
    ) == agg2[m2.ents[i].key] && m2.ents[i].item.count >= 1 by {
        if i < ni {
            assert(m2.ents[i] == m.ents[i]);
            assert(m.ents[i].key != name);
        }
    }
    assert forall|k: Seq<u8>| #[trigger] agg2.contains_key(k) implies exists|i: int| 0 <= i < m2.ents.len() && m2.ents[i].key == k by {
        if k == name {
            assert(m2.ents[ni as int].key == k);
        } else {
            assert(agg.contains_key(k));
            let i = choose|i: int| 0 <= i < m.ents.len() && m.ents[i].key == k;
            assert(m2.ents[i] == m.ents[i]);
        }
    }
    assert forall|i: int, j: int| 0 <= i < j < m2.ents.len() implies (#[trigger] m2.ents[i]).key != (#[trigger] m2.ents[j]).key by {
        assert(m2.ents[i] == m.ents[i]);
        if j < ni {
            assert(m2.ents[j] == m.ents[j]);
        } else {
            assert(agg.contains_key(m.ents[i].key));
        }
    }
    assert forall|i: int| 0 <= i < m2.ents.len() implies exists|t: int|
        0 <= t < recs.len() && rec_name(s, #[trigger] recs[t]) == (#[trigger] m2.ents[i]).key by {
        if i < ni {
            assert(m2.ents[i] == m.ents[i]);
            let t = choose|t: int| 0 <= t < prev.len() && rec_name(s, #[trigger] prev[t]) == m.ents[i].key;
            assert(recs[t] == prev[t]);
        } else {
            assert(recs[recs.len() - 1] == r);
        }
    }
}

/// Recording a record whose probe stops at a slot naming an entry adds the value to
/// that entry, which is the record's station.
proof fn lemma_fold_step_known(s: Seq<u8>, recs: Seq<(int, int, int)>)
    requires
        recs.len() > 0,
        hashes_distinct(s, recs),
        map_fold(empty_map(), s, recs) is Some,
        index_ok(map_fold(empty_map(), s, recs.drop_last())->0),
        entries_hold(map_fold(empty_map(), s, recs.drop_last())->0.ents, aggregate_with(s, recs.drop_last(), short_parse())),
        forall|i: int|
            0 <= i < map_fold(empty_map(), s, recs.drop_last())->0.ents.len() ==> exists|t: int|
                0 <= t < recs.drop_last().len() && rec_name(s, #[trigger] recs.drop_last()[t]) == (#[trigger] map_fold(
                    empty_map(),
                    s,
                    recs.drop_last(),
                )->0.ents[i]).key,
        ({
            let h = name_hash(rec_name(s, recs.last()));
            let m = map_fold(empty_map(), s, recs.drop_last())->0;
            m.idx[stop_slot(m.idx, m.ents, h, home_of(h))] != EMPTY_SLOT
        }),
    ensures
        index_ok(map_fold(empty_map(), s, recs)->0),
        entries_hold(map_fold(empty_map(), s, recs)->0.ents, aggregate_with(s, recs, short_parse())),
        forall|i: int|
            0 <= i < map_fold(empty_map(), s, recs)->0.ents.len() ==> exists|t: int|
                0 <= t < recs.len() && rec_name(s, #[trigger] recs[t]) == (#[trigger] map_fold(empty_map(), s, recs)->0.ents[i]).key,
{
    let prev = recs.drop_last();
    let r = recs.last();
    let m = map_fold(empty_map(), s, prev)->0;
    let agg = aggregate_with(s, prev, short_parse());
    let name = rec_name(s, r);
    let v = scalar_value(rec_value(s, r)) as i16;
    let h = name_hash(name);
    let a = home_of(h);
    let st = stop_slot(m.idx, m.ents, h, a);
    let m2 = map_fold(empty_map(), s, recs)->0;
    let agg2 = aggregate_with(s, recs, short_parse());
    assert(map_fold(empty_map(), s, recs) == map_record(m, name, v));
    assert(agg2 == crate::stats::record_value(agg, name, v as int));
    lemma_stop_props(m.idx, m.ents, h, a);
    assert(st >= 0);
    let k = m.idx[st] as int;
    assert(m.ents[k].hash == h);
    assert(m.ents[k].key == name) by {
        let t = choose|t: int| 0 <= t < prev.len() && rec_name(s, #[trigger] prev[t]) == m.ents[k].key;
        assert(recs[t] == prev[t]);
        assert(recs[recs.len() - 1] == r);
        assert(name_hash(rec_name(s, recs[t])) == name_hash(rec_name(s, recs[recs.len() - 1])));
    }
    assert(agg.contains_key(name));
    let e2 = EntryView { key: m.ents[k].key, hash: m.ents[k].hash, item: item_add(m.ents[k].item, v) };
    assert(m2.idx == m.idx);
    assert(m2.ents == m.ents.update(k, e2));
    lemma_item_add(m.ents[k].item, agg[name], v);
    assert forall|i: int| 0 <= i < m2.ents.len() implies {
        let hh = (#[trigger] m2.ents[i]).hash;
        let j = stop_slot(m2.idx, m2.ents, hh, home_of(hh));
        0 <= j && m2.idx[j] as int == i
    } by {
        let hh = m.ents[i].hash;
        assert(m2.ents[i].hash == hh);
        let ji = stop_slot(m.idx, m.ents, hh, home_of(hh));
        lemma_stop_props(m.idx, m.ents, hh, home_of(hh));
        assert forall|t: int| home_of(hh) <= t < ji implies m2.idx[t] == m.idx[t] && m.idx[t] != EMPTY_SLOT
            && m.ents[m.idx[t] as int].hash != hh && m2.ents[m.idx[t] as int].hash == m.ents[m.idx[t] as int].hash by {
            assert((m.idx[t] as int) < m.ents.len());
        }
        assert((m.idx[ji] as int) < m.ents.len());
        lemma_stop_transfer(m.idx, m.ents, m2.idx, m2.ents, hh, home_of(hh), ji);
    }
    assert forall|i: int| 0 <= i < m2.ents.len() implies (#[trigger] m2.ents[i]).hash == name_hash(m2.ents[i].key) by {
        assert(m2.ents[i].key == m.ents[i].key && m2.ents[i].hash == m.ents[i].hash);
    }
    assert forall|i: int| 0 <= i < m2.ents.len() implies agg2.contains_key(#[trigger] m2.ents[i].key) && item_stats(
        m2.ents[i].item,
    ) == agg2[m2.ents[i].key] && m2.ents[i].item.count >= 1 by {
        if i != k {
            assert(m2.ents[i] == m.ents[i]);
            assert(m.ents[i].key != m.ents[k].key);
        }
    }
    assert forall|kk: Seq<u8>| #[trigger] agg2.contains_key(kk) implies exists|i: int| 0 <= i < m2.ents.len() && m2.ents[i].key == kk by {
        assert(agg.contains_key(kk));
        let i = choose|i: int| 0 <= i < m.ents.len() && m.ents[i].key == kk;
        assert(m2.ents[i].key == m.ents[i].key);
    }
    assert forall|i: int, j: int| 0 <= i < j < m2.ents.len() implies (#[trigger] m2.ents[i]).key != (#[trigger] m2.ents[j]).key by {
        assert(m2.ents[i].key == m.ents[i].key && m2.ents[j].key == m.ents[j].key);
    }
    assert forall|i: int| 0 <= i < m2.ents.len() implies exists|t: int|
        0 <= t < recs.len() && rec_name(s, #[trigger] recs[t]) == (#[trigger] m2.ents[i]).key by {
        assert(m2.ents[i].key == m.ents[i].key);
        let t = choose|t: int| 0 <= t < prev.len() && rec_name(s, #[trigger] prev[t]) == m.ents[i].key;
        assert(recs[t] == prev[t]);
    }
}

/// Recording the records `recs` of `s` into an empty map gives entries that hold the
/// statistics of every station, each entry named by one of the
/// records, with an index consistent with them; as long as distinct names have distinct
/// hashes and every recording succeeds.
pub proof fn lemma_map_fold_holds(s: Seq<u8>, recs: Seq<(int, int, int)>)
    requires
        hashes_distinct(s, recs),
        map_fold(empty_map(), s, recs) is Some,
    ensures
        index_ok(map_fold(empty_map(), s, recs)->0),
        entries_hold(map_fold(empty_map(), s, recs)->0.ents, aggregate_with(s, recs, short_parse())),
        forall|i: int|
            0 <= i < map_fold(empty_map(), s, recs)->0.ents.len() ==> exists|t: int|
                0 <= t < recs.len() && rec_name(s, #[trigger] recs[t]) == (#[trigger] map_fold(empty_map(), s, recs)->0.ents[i]).key,
    decreases recs.len(),
{
    if recs.len() == 0 {
        let m = empty_map();
        assert(aggregate_with(s, recs, short_parse()) =~= Map::<Seq<u8>, StatsModel>::empty());
        assert forall|j: int| 0 <= j < m.idx.len() implies #[trigger] m.idx[j] == EMPTY_SLOT by {}
    } else {
        let prev = recs.drop_last();
        assert(hashes_distinct(s, prev)) by {
            assert forall|i: int, j: int|
                0 <= i < prev.len() && 0 <= j < prev.len() && name_hash(rec_name(s, #[trigger] prev[i])) == name_hash(
                    rec_name(s, #[trigger] prev[j]),
                ) implies rec_name(s, prev[i]) == rec_name(s, prev[j]) by {
                assert(prev[i] == recs[i] && prev[j] == recs[j]);
            }
        }
        lemma_map_fold_holds(s, prev);
        let m = map_fold(empty_map(), s, prev)->0;
        let h = name_hash(rec_name(s, recs.last()));
        if m.idx[stop_slot(m.idx, m.ents, h, home_of(h))] == EMPTY_SLOT {
            lemma_fold_step_new(s, recs);
        } else {
            lemma_fold_step_known(s, recs);
        }
    }
}

/// On a buffer of at least one block made of valid lines, whose distinct names have
/// distinct hashes and whose recordings all succeed, [`aggregate_stations`] succeeds and
/// its map holds every station of the buffer once, with its minimum, maximum, count and
/// sum.
pub proof fn lemma_valid_map(s: Seq<u8>)
    requires
        crate::format::valid_buffer(s),
        s.len() >= 64,
        hashes_distinct(s, crate::format::records(s)),
        map_fold(empty_map(), s, crate::format::records(s)) is Some,
    ensures
        ends_on_delim(s),
        delim_records(s) == crate::format::records(s),
        values_ok(s, delim_records(s)),
        index_ok(map_fold(empty_map(), s, delim_records(s))->0),
        entries_hold(map_fold(empty_map(), s, delim_records(s))->0.ents, crate::stats::aggregate_buffer(s)),
{
    crate::ver9::lemma_valid_buffer(s);
    crate::ver7::lemma_valid_buffer(s);
    let recs = crate::format::records(s);
    lemma_map_fold_holds(s, recs);
    crate::format::lemma_records_shape(s, 0);
    assert forall|i: int| 0 <= i < recs.len() implies short_parse()(rec_value(s, #[trigger] recs[i]))
        == crate::format::tenths(rec_value(s, recs[i])) by {
        assert(crate::format::valid_record(s, recs[i]));
        crate::format::lemma_scalar_valid(rec_value(s, recs[i]));
        crate::format::lemma_tenths_range(rec_value(s, recs[i]));
    }
    crate::stats::lemma_aggregate_same(s, recs, short_parse());
}

/// The number of index slots that name an entry.
pub open spec fn used(idx: Seq<u16>) -> nat
    decreases idx.len(),
{
    if idx.len() == 0 {
        0
    } else {
        used(idx.drop_last()) + if idx.last() != EMPTY_SLOT {
            1nat
        } else {
            0nat
        }
    }
}

/// Naming an entry in an empty slot adds one used slot.
proof fn lemma_used_update(idx: Seq<u16>, i: int, v: u16)
    requires
        0 <= i < idx.len(),
        idx[i] == EMPTY_SLOT,
        v != EMPTY_SLOT,
    ensures
        used(idx.update(i, v)) == used(idx) + 1,
    decreases idx.len(),
{
    let idx2 = idx.update(i, v);
    if i == idx.len() - 1 {
        assert(idx2.drop_last() =~= idx.drop_last());
    } else {
        lemma_used_update(idx.drop_last(), i, v);
        assert(idx2.drop_last() =~= idx.drop_last().update(i, v));
    }
}

/// An index whose slots are all empty uses none.
proof fn lemma_used_none(idx: Seq<u16>)
    requires
        forall|t: int| 0 <= t < idx.len() ==> idx[t] == EMPTY_SLOT,
    ensures
        used(idx) == 0,
    decreases idx.len(),
{
    if idx.len() > 0 {
        lemma_used_none(idx.drop_last());
    }
}

/// An index whose slots from `a` on all name entries uses at least that many.
proof fn lemma_used_full(idx: Seq<u16>, a: int)
    requires
        0 <= a <= idx.len(),
        forall|t: int| a <= t < idx.len() ==> idx[t] != EMPTY_SLOT,
    ensures
        used(idx) >= idx.len() - a,
    decreases idx.len(),
{
    if idx.len() > a {
        lemma_used_full(idx.drop_last(), a);
    }
}

/// A probe that runs past the index passed only slots that name entries.
proof fn lemma_stop_none_full(idx: Seq<u16>, ents: Seq<EntryView>, h: u64, j: int)
    requires
        0 <= j,
    ensures
        stop_slot(idx, ents, h, j) == -1 ==> forall|t: int| j <= t < idx.len() ==> idx[t] != EMPTY_SLOT,
    decreases idx.len() - j,
{
    if 0 <= j < idx.len() && !(idx[j] == EMPTY_SLOT || ents[idx[j] as int].hash == h) {
        lemma_stop_none_full(idx, ents, h, j + 1);
    }
}

/// The stations of `recs` are the names of its records.
proof fn lemma_agg_names(s: Seq<u8>, recs: Seq<(int, int, int)>, f: spec_fn(Seq<u8>) -> int)
    ensures
        aggregate_with(s, recs, f).dom().finite(),
        forall|n: Seq<u8>|
            aggregate_with(s, recs, f).dom().contains(n) <==> exists|i: int| 0 <= i < recs.len() && #[trigger] rec_name(s, recs[i]) == n,
    decreases recs.len(),
{
    if recs.len() > 0 {
        let prev = recs.drop_last();
        lemma_agg_names(s, prev, f);
        assert forall|n: Seq<u8>|
            aggregate_with(s, recs, f).dom().contains(n) <==> exists|i: int| 0 <= i < recs.len() && #[trigger] rec_name(s, recs[i]) == n by {
            if aggregate_with(s, recs, f).dom().contains(n) && n != rec_name(s, recs.last()) {
                let i = choose|i: int| 0 <= i < prev.len() && #[trigger] rec_name(s, prev[i]) == n;
                assert(recs[i] == prev[i]);
            }
            if exists|i: int| 0 <= i < recs.len() && #[trigger] rec_name(s, recs[i]) == n {
                let i = choose|i: int| 0 <= i < recs.len() && #[trigger] rec_name(s, recs[i]) == n;
                if i < prev.len() {
                    assert(prev[i] == recs[i]);
                    assert(rec_name(s, prev[i]) == n);
                } else {
                    assert(recs[i] == recs.last());
                }
            }
        }
    }
}

/// An index uses at most as many slots as it has.
proof fn lemma_used_le(idx: Seq<u16>)
    ensures
        used(idx) <= idx.len(),
    decreases idx.len(),
{
    if idx.len() > 0 {
        lemma_used_le(idx.drop_last());
    }
}

/// Recording `recs` into an empty map succeeds when distinct names have distinct
/// hashes, the counts and sums fit after every record, and the home slot of every name
/// leaves room for all stations after it; the index then names as many slots as there
/// are entries.
#[verifier::spinoff_prover]
#[verifier::rlimit(40)]
proof fn lemma_map_fold_grows(s: Seq<u8>, recs: Seq<(int, int, int)>)
    requires
        hashes_distinct(s, recs),
        crate::stats::fits_throughout(s, recs, short_parse(), i32::MIN as int, i32::MAX as int),
        forall|i: int|
            0 <= i < recs.len() ==> home_of(name_hash(rec_name(s, #[trigger] recs[i]))) + aggregate_with(
                s,
                recs,
                short_parse(),
            ).dom().len() <= INDEX_SLOTS,
    ensures
        map_fold(empty_map(), s, recs) is Some,
        used(map_fold(empty_map(), s, recs)->0.idx) == map_fold(empty_map(), s, recs)->0.ents.len(),
    decreases recs.len(),
{
    if recs.len() == 0 {
        lemma_used_none(empty_map().idx);
    } else {
        let prev = recs.drop_last();
        let r = recs.last();
        let name = rec_name(s, r);
        let v = scalar_value(rec_value(s, r)) as i16;
        let agg = aggregate_with(s, prev, short_parse());
        let agg2 = aggregate_with(s, recs, short_parse());
        assert(agg2 == crate::stats::record_value(agg, name, v as int));
        lemma_agg_names(s, prev, short_parse());
        lemma_agg_names(s, recs, short_parse());
        assert(agg.dom().subset_of(agg2.dom()));
        vstd::set_lib::lemma_len_subset(agg.dom(), agg2.dom());
        assert(hashes_distinct(s, prev)) by {
            assert forall|i: int, j: int|
                0 <= i < prev.len() && 0 <= j < prev.len() && name_hash(rec_name(s, #[trigger] prev[i])) == name_hash(
                    rec_name(s, #[trigger] prev[j]),
                ) implies rec_name(s, prev[i]) == rec_name(s, prev[j]) by {
                assert(prev[i] == recs[i] && prev[j] == recs[j]);
            }
        }
        crate::stats::lemma_fits_prefix(s, recs, recs.len() - 1, short_parse(), i32::MIN as int, i32::MAX as int);
        assert(recs.take(recs.len() - 1) =~= prev);
        assert forall|i: int| 0 <= i < prev.len() implies home_of(name_hash(rec_name(s, #[trigger] prev[i]))) + agg.dom().len()
            <= INDEX_SLOTS by {
            assert(prev[i] == recs[i]);
        }
        lemma_map_fold_grows(s, prev);
        lemma_map_fold_holds(s, prev);
        let m = map_fold(empty_map(), s, prev)->0;
        assert(map_fold(empty_map(), s, recs) == map_record(m, name, v));
        let h = name_hash(name);
        let a = home_of(h);
        assert(recs[recs.len() - 1] == r);
        assert(a + agg2.dom().len() <= INDEX_SLOTS);
        assert(recs.take(recs.len() as int) =~= recs);
        assert(crate::stats::stats_fit(agg2, i32::MIN as int, i32::MAX as int));
        lemma_used_le(m.idx);
        // the entries are distinct stations of the records before
        let keys = m.ents.map_values(|e: EntryView| e.key);
        assert(keys.no_duplicates()) by {
            assert forall|x: int, y: int| 0 <= x < keys.len() && 0 <= y < keys.len() && x != y implies keys[x] != keys[y] by {
                if x < y {
                    assert(m.ents[x].key != m.ents[y].key);
                } else {
                    assert(m.ents[y].key != m.ents[x].key);
                }
            }
        }
        keys.unique_seq_to_set();
        assert(keys.to_set().subset_of(agg.dom())) by {
            assert forall|n: Seq<u8>| keys.to_set().contains(n) implies agg.dom().contains(n) by {
                let x = choose|x: int| 0 <= x < keys.len() && keys[x] == n;
                assert(agg.contains_key(m.ents[x].key));
            }
        }
        vstd::set_lib::lemma_len_subset(keys.to_set(), agg.dom());
        assert(m.ents.len() <= agg.dom().len());
        if agg.dom().contains(name) {
            let i = choose|i: int| 0 <= i < m.ents.len() && m.ents[i].key == name;
            assert(m.ents[i].hash == h);
            let j = stop_slot(m.idx, m.ents, h, home_of(h));
            assert(0 <= j && m.idx[j] as int == i);
            assert(m.idx[j] != EMPTY_SLOT);
            assert(item_stats(m.ents[i].item) == agg[name]);
            assert(agg2[name] == stats_add(agg[name], v as int));
            assert(item_fits(m.ents[i].item, v));
        } else {
            assert(agg.dom().subset_of(agg2.dom().remove(name)));
            vstd::set_lib::lemma_len_subset(agg.dom(), agg2.dom().remove(name));
            assert(agg2.dom().contains(name));
            assert(agg2.dom().remove(name).len() == agg2.dom().len() - 1);
            assert(used(m.idx) < INDEX_SLOTS - a);
            let st = stop_slot(m.idx, m.ents, h, a);
            lemma_stop_none_full(m.idx, m.ents, h, a);
            if st == -1 {
                lemma_used_full(m.idx, a);
                assert(false);
            }
            lemma_stop_props(m.idx, m.ents, h, a);
            if m.idx[st] != EMPTY_SLOT {
                let k = m.idx[st] as int;
                assert(m.ents[k].hash == h);
                assert(m.ents[k].hash == name_hash(m.ents[k].key));
                let t = choose|t: int| 0 <= t < prev.len() && rec_name(s, #[trigger] prev[t]) == m.ents[k].key;
                assert(prev[t] == recs[t]);
                assert(rec_name(s, recs[t]) == name);
                assert(agg.contains_key(m.ents[k].key));
                assert(false);
            }
            assert(m.ents.len() < EMPTY_SLOT);
            lemma_used_update(m.idx, st, m.ents.len() as u16);
        }
    }
}

/// On a buffer of at least one block made of valid lines, whose distinct names have
/// distinct hashes, whose counts and sums in tenths fit after every line, and where the
/// home slot of every name leaves room in the index for all stations of the buffer,
/// [`aggregate_stations`] succeeds (its `Some` condition holds) and its map holds every
/// station once, with its minimum, maximum, count and sum. With stations whose names
/// share their first bytes, as `Station_000` to `Station_299` do, every home slot is the
/// same, and hundreds of stations get an entry each.
pub proof fn lemma_valid_map_some(s: Seq<u8>)
    requires
        crate::format::valid_buffer(s),
        s.len() >= 64,
        hashes_distinct(s, crate::format::records(s)),
        crate::stats::fits_throughout(
            s,
            crate::format::records(s),
            |v: Seq<u8>| crate::format::tenths(v),
            i32::MIN as int,
            i32::MAX as int,
        ),
        forall|i: int|
            0 <= i < crate::format::records(s).len() ==> home_of(
                name_hash(rec_name(s, #[trigger] crate::format::records(s)[i])),
            ) + crate::stats::aggregate_buffer(s).dom().len() <= INDEX_SLOTS,
    ensures
        ends_on_delim(s),
        values_ok(s, delim_records(s)),
        map_fold(empty_map(), s, delim_records(s)) is Some,
        entries_hold(map_fold(empty_map(), s, delim_records(s))->0.ents, crate::stats::aggregate_buffer(s)),
{
    let recs = crate::format::records(s);
    crate::format::lemma_records_shape(s, 0);
    assert forall|i: int| 0 <= i < recs.len() implies short_parse()(rec_value(s, #[trigger] recs[i]))
        == crate::format::tenths(rec_value(s, recs[i])) by {
        assert(crate::format::valid_record(s, recs[i]));
        crate::format::lemma_scalar_valid(rec_value(s, recs[i]));
        crate::format::lemma_tenths_range(rec_value(s, recs[i]));
    }
    assert forall|k: int| 0 <= k <= recs.len() implies crate::stats::stats_fit(
        #[trigger] aggregate_with(s, recs.take(k), short_parse()),
        i32::MIN as int,
        i32::MAX as int,
    ) by {
        assert forall|i: int| 0 <= i < recs.take(k).len() implies short_parse()(rec_value(s, #[trigger] recs.take(k)[i]))
            == crate::format::tenths(rec_value(s, recs.take(k)[i])) by {
            assert(recs.take(k)[i] == recs[i]);
        }
        crate::stats::lemma_aggregate_same(s, recs.take(k), short_parse());
        assert(crate::stats::stats_fit(
            aggregate_with(s, recs.take(k), |v: Seq<u8>| crate::format::tenths(v)),
            i32::MIN as int,
            i32::MAX as int,
        ));
    }
    crate::stats::lemma_aggregate_same(s, recs, short_parse());
    lemma_map_fold_grows(s, recs);
    lemma_valid_map(s);
}

} // verus!
