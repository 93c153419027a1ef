//! Separate bitmasks per 64-byte block; four records at a time, whose table slots are
//! read before any is written.
use vstd::prelude::*;
use crate::format::MINUS;
use crate::ver20_preload_entry::{window_decimal, window_digits, with_data};
use crate::table::{
    agg_add, agg_fits, agg_zero, empty_entry, entry_model, fresh_slots, save_from, save_slots,
    slots, Aggregation, EntryModel, HashEntry, HOME_SLOTS, TABLE_SLOTS,
};
use crate::ver22::hash_code_of;
use crate::format::{lemma_records_shape, rec_name, record_shape, records, records_from, NEWLINE};
use crate::scan::{paired, scanned, BlockScanner, Scan};
use crate::ver20::{count_newlines, in_batch, lemma_count_prefix};
use crate::ver22::{line_fits, line_record, lines_records, long_hash_of, windows_in};

pub use crate::bits::truncate_key_normal;
pub use crate::ver22::truncate_key_simd;

verus! {

/// The window read as decimal digits, negated when any of bytes 3 to 6 is `-`.
pub open spec fn window_value_3to6(val: Seq<u8>) -> int {
    if val[3] == MINUS || val[4] == MINUS || val[5] == MINUS || val[6] == MINUS {
        -window_decimal(val)
    } else {
        window_decimal(val)
    }
}

/// Reads the eight bytes that end a value, `?..?-dd.d`: bytes 4 to 7 are decimal
/// digits of weight 100, 10, 0 and 1, other bytes counting 0, and the number is
/// negative when any of bytes 3 to 6 is `-`.
pub fn parse_value_u8x8(val: [u8; 8]) -> (r: i16)
    ensures
        r == window_value_3to6(val@),
{
    let sum = window_digits(&val);
    if val[3] == MINUS || val[4] == MINUS || val[5] == MINUS || val[6] == MINUS {
        -sum
    } else {
        sum
    }
}

/// Reads four eight-byte windows as [`parse_value_u8x8`] reads one.
pub fn parse_val_u8x8x4(val1: [u8; 8], val2: [u8; 8], val3: [u8; 8], val4: [u8; 8]) -> (r: (
    i16,
    i16,
    i16,
    i16,
))
    ensures
        r.0 == window_value_3to6(val1@),
        r.1 == window_value_3to6(val2@),
        r.2 == window_value_3to6(val3@),
        r.3 == window_value_3to6(val4@),
{
    (parse_value_u8x8(val1), parse_value_u8x8(val2), parse_value_u8x8(val3), parse_value_u8x8(val4))
}

/// The statistics of one slot: minimum, maximum, count and sum.
#[derive(Clone, Copy)]
pub struct AggrItem {
    pub min: i32,
    pub max: i32,
    pub count: u32,
    pub sum: i32,
}

impl AggrItem {
    /// All zero.
    pub fn new() -> (r: AggrItem)
        ensures
            r == (AggrItem { min: 0, max: 0, count: 0, sum: 0 }),
    {
        AggrItem { min: 0, max: 0, count: 0, sum: 0 }
    }
}

/// The statistics table: `TABLE_SLOTS` slots, a key probed for from its home slot on.
pub struct AggrInfo {
    pub linar_hash_table: Vec<HashEntry>,
}

impl AggrInfo {
    /// The slots of the table as values.
    pub open spec fn slots_of(&self) -> Seq<EntryModel> {
        slots(self.linar_hash_table@)
    }

    /// An empty slot: zero key, no name, all statistics zero.
    pub fn new_item() -> (e: HashEntry)
        ensures
            entry_model(e) == (EntryModel { key_hash: (0u64, 0u64), data: agg_zero(), key: Seq::empty() }),
    {
        let item = AggrItem::new();
        empty_entry(Aggregation { min: item.min, max: item.max, count: item.count, sum: item.sum })
    }

    /// A table of `TABLE_SLOTS` empty slots.
    pub fn new() -> (t: AggrInfo)
        ensures
            fresh_slots(t.slots_of(), agg_zero()),
    {
        AggrInfo { linar_hash_table: crate::table::fresh_table(Aggregation { min: 0, max: 0, count: 0, sum: 0 }) }
    }

    /// The home slot of a key: the xor of the 20-bit chunks of the 128-bit key
    /// ([`hash_code_of`]).
    pub fn compute_hash_code(hash: (u64, u64)) -> (r: u32)
        ensures
            r == hash_code_of(hash),
            r < HOME_SLOTS,
    {
        crate::ver22::AggrHashTable::compute_hash_code(hash) as u32
    }

    /// Writes into slot `slot` the statistics `item`, read from it earlier, with `val1`
    /// added; the slot's key and name stay. False, with nothing written, when the count
    /// or sum would overflow.
    pub fn fast_save(&mut self, slot: usize, item: Aggregation, val1: i16) -> (ok: bool)
        requires
            slot < old(self).linar_hash_table@.len(),
        ensures
            final(self).linar_hash_table@.len() == old(self).linar_hash_table@.len(),
            ok == agg_fits(item, val1 as int),
            ok ==> final(self).slots_of() == old(self).slots_of().update(
                slot as int,
                with_data(old(self).slots_of()[slot as int], agg_add(item, val1 as i32)),
            ),
            !ok ==> final(self).linar_hash_table@ == old(self).linar_hash_table@,
    {
        if item.count == u32::MAX {
            return false;
        }
        let v = val1 as i32;
        let sum = match item.sum.checked_add(v) {
            Some(sum) => sum,
            None => return false,
        };
        let ghost m = self.slots_of();
        proof {
            assert(m[slot as int] == entry_model(self.linar_hash_table@[slot as int]));
        }
        self.linar_hash_table[slot].data = Aggregation {
            min: if v < item.min { v } else { item.min },
            max: if v > item.max { v } else { item.max },
            count: item.count + 1,
            sum,
        };
        proof {
            assert(self.slots_of() =~= m.update(slot as int, with_data(m[slot as int], agg_add(item, v))));
        }
        true
    }

    /// Records `value` for the station named `key` with key `hash`, probing from its
    /// home slot.
    pub fn save_item_u64x2(&mut self, key: &[u8], hash: (u64, u64), value: i16) -> (ok: bool)
        requires
            old(self).linar_hash_table@.len() == TABLE_SLOTS,
        ensures
            final(self).linar_hash_table@.len() == TABLE_SLOTS,
            ok == save_slots(old(self).slots_of(), hash_code_of(hash), key@, hash, value as i32) is Some,
            ok ==> final(self).slots_of() == save_slots(
                old(self).slots_of(),
                hash_code_of(hash),
                key@,
                hash,
                value as i32,
            )->0,
            !ok ==> final(self).linar_hash_table@ == old(self).linar_hash_table@,
    {
        let hash_code = Self::compute_hash_code(hash) as usize;
        self.slow_save(key, hash, value, hash_code)
    }

    /// Records `value` for the station named `key` with key `key_hash`, probing the 1024
    /// slots from `from` on: the first slot holding the key takes the value, else the
    /// first empty slot takes the station. False, with the table unchanged, when neither
    /// is found or the count or sum would overflow.
    pub fn slow_save(&mut self, key: &[u8], key_hash: (u64, u64), value: i16, from: usize) -> (ok: bool)
        requires
            old(self).linar_hash_table@.len() == TABLE_SLOTS,
            from + 1024 <= TABLE_SLOTS,
        ensures
            final(self).linar_hash_table@.len() == TABLE_SLOTS,
            ok == save_slots(old(self).slots_of(), from as int, key@, key_hash, value as i32) is Some,
            ok ==> final(self).slots_of() == save_slots(
                old(self).slots_of(),
                from as int,
                key@,
                key_hash,
                value as i32,
            )->0,
            !ok ==> final(self).linar_hash_table@ == old(self).linar_hash_table@,
    {
        save_from(&mut self.linar_hash_table, from, key, key_hash, value as i32)
    }
}

/// Per-loop line counters; this build keeps none of them.
pub struct Debug {
    pub counts: [u64; 8],
}

impl Debug {
    /// All counters zero.
    pub fn new() -> (d: Debug)
        ensures
            forall|i: int| 0 <= i < 8 ==> d.counts@[i] == 0,
    {
        Debug { counts: [0; 8] }
    }

    /// Counting is switched off in this build: the counters stay as they are.
    pub fn add_count(&mut self, lines: usize)
        ensures
            final(self).counts@ == old(self).counts@,
    {
    }
}

/// The key of record `r` of `s`.
pub open spec fn rec_key(s: Seq<u8>, r: (int, int, int)) -> (u64, u64) {
    long_hash_of(rec_name(s, r))
}

/// The value this variant reads for record `r` of `s`.
pub open spec fn rec_val(s: Seq<u8>, r: (int, int, int)) -> i32 {
    window_value_3to6(s.subrange(r.2 - 8, r.2)) as i32
}

/// The home slot of record `r` of `s`.
pub open spec fn rec_slot(s: Seq<u8>, r: (int, int, int)) -> int {
    hash_code_of(rec_key(s, r))
}

/// The slots after recording record `r` of `s` alone.
pub open spec fn one_step(m: Seq<EntryModel>, s: Seq<u8>, r: (int, int, int)) -> Option<Seq<EntryModel>> {
    save_slots(m, rec_slot(s, r), rec_name(s, r), rec_key(s, r), rec_val(s, r))
}

/// The slots after recording the four records of a batch of `s`: what recording them
/// one after the other gives ([`one_by_one`]).
#[verifier::opaque]
pub open spec fn quad_step(m: Seq<EntryModel>, s: Seq<u8>, rs: Seq<(int, int, int)>) -> Option<Seq<EntryModel>> {
    one_by_one(m, s, rs)
}

/// The slots after recording four records of `s` one after the other.
pub open spec fn one_by_one(m: Seq<EntryModel>, s: Seq<u8>, rs: Seq<(int, int, int)>) -> Option<Seq<EntryModel>> {
    match one_step(m, s, rs[0]) {
        None => None,
        Some(m1) => match one_step(m1, s, rs[1]) {
            None => None,
            Some(m2) => match one_step(m2, s, rs[2]) {
                None => None,
                Some(m3) => one_step(m3, s, rs[3]),
            },
        },
    }
}

/// One more record: a record read in a batch waits until its batch of four is complete
/// and must come at its place in the batch; any other is recorded at once, with no
/// batch left open.
pub open spec fn step(st: (Seq<EntryModel>, Seq<(int, int, int)>), s: Seq<u8>, r: (int, int, int)) -> Option<
    (Seq<EntryModel>, Seq<(int, int, int)>),
> {
    let (m, p) = st;
    if in_batch(s, r) {
        let b = r.2 / 64 * 64;
        if p.len() != count_newlines(s, b, r.2) % 4 {
            None
        } else if p.len() == 3 {
            match quad_step(m, s, p.push(r)) {
                None => None,
                Some(m2) => Some((m2, Seq::empty())),
            }
        } else {
            Some((m, p.push(r)))
        }
    } else if p.len() != 0 {
        None
    } else {
        match one_step(m, s, r) {
            None => None,
            Some(m2) => Some((m2, Seq::empty())),
        }
    }
}

/// The slots and the open batch after recording `recs` of `s` into `m0` in order;
/// `None` once a recording fails or a batch is out of place.
pub open spec fn run_records(m0: Seq<EntryModel>, s: Seq<u8>, recs: Seq<(int, int, int)>) -> Option<
    (Seq<EntryModel>, Seq<(int, int, int)>),
>
    decreases recs.len(),
{
    if recs.len() == 0 {
        Some((m0, Seq::empty()))
    } else {
        match run_records(m0, s, recs.drop_last()) {
            None => None,
            Some(st) => step(st, s, recs.last()),
        }
    }
}

/// A failed prefix fails the whole run.
pub proof fn lemma_run_none_extends(m0: Seq<EntryModel>, s: Seq<u8>, recs: Seq<(int, int, int)>, k: int)
    requires
        0 <= k <= recs.len(),
        run_records(m0, s, recs.take(k)) is None,
    ensures
        run_records(m0, s, recs) is None,
    decreases recs.len(),
{
    if k == recs.len() {
        assert(recs.take(k) =~= recs);
    } else {
        assert(recs.drop_last().take(k) =~= recs.take(k));
        lemma_run_none_extends(m0, s, recs.drop_last(), k);
    }
}

/// Records lying in `q`, a prefix of `s`, are recorded alike from either.
pub proof fn lemma_steps_prefix(m: Seq<EntryModel>, q: Seq<u8>, s: Seq<u8>, rs: Seq<(int, int, int)>)
    requires
        q.len() <= s.len(),
        q == s.take(q.len() as int),
        forall|i: int| 0 <= i < rs.len() ==> {
            let r = #[trigger] rs[i];
            0 <= r.0 <= r.1 < r.2 <= q.len() && r.2 >= 8
        },
    ensures
        rs.len() >= 1 ==> one_step(m, q, rs[0]) == one_step(m, s, rs[0]),
        rs.len() == 4 ==> quad_step(m, q, rs) == quad_step(m, s, rs),
{
    assert forall|i: int| 0 <= i < rs.len() implies rec_key(q, #[trigger] rs[i]) == rec_key(s, rs[i]) && rec_val(q, rs[i])
        == rec_val(s, rs[i]) && rec_name(q, rs[i]) == rec_name(s, rs[i]) by {
        let r = rs[i];
        assert(rec_name(q, r) =~= rec_name(s, r));
        assert(q.subrange(r.2 - 8, r.2) =~= s.subrange(r.2 - 8, r.2));
    }
    if rs.len() == 4 {
        reveal(quad_step);
        assert(rec_key(q, rs[0]) == rec_key(s, rs[0]) && rec_val(q, rs[0]) == rec_val(s, rs[0]) && rec_name(q, rs[0]) == rec_name(s, rs[0]));
        assert(rec_key(q, rs[1]) == rec_key(s, rs[1]) && rec_val(q, rs[1]) == rec_val(s, rs[1]) && rec_name(q, rs[1]) == rec_name(s, rs[1]));
        assert(rec_key(q, rs[2]) == rec_key(s, rs[2]) && rec_val(q, rs[2]) == rec_val(s, rs[2]) && rec_name(q, rs[2]) == rec_name(s, rs[2]));
        assert(rec_key(q, rs[3]) == rec_key(s, rs[3]) && rec_val(q, rs[3]) == rec_val(s, rs[3]) && rec_name(q, rs[3]) == rec_name(s, rs[3]));
    }
    if rs.len() >= 1 {
        assert(rec_key(q, rs[0]) == rec_key(s, rs[0]) && rec_val(q, rs[0]) == rec_val(s, rs[0]) && rec_name(q, rs[0]) == rec_name(s, rs[0]));
    }
}

impl AggrInfo {
    /// The home slot of a key, with the key and the statistics that slot holds.
    pub fn preload_hash_item(&self, hash: (u64, u64)) -> (r: (usize, (u64, u64), Aggregation))
        requires
            self.linar_hash_table@.len() == TABLE_SLOTS,
        ensures
            r.0 == hash_code_of(hash),
            r.1 == self.slots_of()[r.0 as int].key_hash,
            r.2 == self.slots_of()[r.0 as int].data,
    {
        let c = Self::compute_hash_code(hash) as usize;
        proof {
            assert(self.slots_of()[c as int] == entry_model(self.linar_hash_table@[c as int]));
        }
        (c, self.linar_hash_table[c].key_hash, self.linar_hash_table[c].data)
    }
}

/// The number of stations the table holds, and the number of them whose slot before
/// holds the same key.
pub open spec fn repeated_count(m: Seq<EntryModel>) -> nat
    decreases m.len(),
{
    if m.len() == 0 {
        0
    } else {
        repeated_count(m.drop_last()) + if crate::table::occupied(m.last()) && m.len() > 1 && m[m.len() - 2].key_hash
            == m.last().key_hash {
            1nat
        } else {
            0nat
        }
    }
}

/// The number of stations the table holds, and the number of them whose slot before
/// holds the same key.
pub fn check_result(aggr: &AggrInfo) -> (r: (usize, usize))
    ensures
        r.0 == crate::table::occupied_count(aggr.slots_of()),
        r.1 == repeated_count(aggr.slots_of()),
{
    let t = &aggr.linar_hash_table;
    let ghost m = slots(t@);
    let mut count: usize = 0;
    let mut repeated: usize = 0;
    let mut i: usize = 0;
    while i < t.len()
        invariant
            i <= t@.len(),
            m == slots(t@),
            count == crate::table::occupied_count(m.take(i as int)),
            repeated == repeated_count(m.take(i as int)),
            count <= i,
            repeated <= i,
        decreases t@.len() - i,
    {
        proof {
            assert(m.take(i + 1).drop_last() =~= m.take(i as int));
            assert(m[i as int] == entry_model(t@[i as int]));
            if i > 0 {
                assert(m[i - 1] == entry_model(t@[i - 1]));
            }
        }
        if t[i].key.len() != 0 {
            count += 1;
            if i > 0 && t[i - 1].key_hash.0 == t[i].key_hash.0 && t[i - 1].key_hash.1 == t[i].key_hash.1 {
                repeated += 1;
            }
        }
        i += 1;
    }
    assert(m.take(m.len() as int) =~= m);
    (count, repeated)
}

/// A measurement buffer read block by block.
pub struct FileReader<'a> {
    buffer: &'a [u8],
}

impl<'a> FileReader<'a> {
    /// The bytes the reader reads.
    pub closed spec fn bytes(&self) -> Seq<u8> {
        self.buffer@
    }

    /// A reader over `buffer`.
    pub fn new(buffer: &'a [u8]) -> (r: FileReader<'a>)
        ensures
            r.bytes() == buffer@,
    {
        FileReader { buffer }
    }

    /// The name and key of a line.
    fn name_and_key(&self, line: (usize, usize, usize)) -> (r: (&'a [u8], (u64, u64)))
        requires
            line_fits(self.bytes(), line),
        ensures
            r.0@ == rec_name(self.bytes(), line_record(line)),
            r.1 == rec_key(self.bytes(), line_record(line)),
    {
        let buf: &'a [u8] = self.buffer;
        let keys = crate::ver22::FileReader::new(buf);
        let h = keys.line_key(line.0, line.1);
        (vstd::slice::slice_subrange(buf, line.0, line.1), h)
    }

    /// Records one line alone.
    fn record_one(&self, aggr: &mut AggrInfo, line: (usize, usize, usize)) -> (ok: bool)
        requires
            line_fits(self.bytes(), line),
            old(aggr).linar_hash_table@.len() == TABLE_SLOTS,
        ensures
            final(aggr).linar_hash_table@.len() == TABLE_SLOTS,
            ok == one_step(old(aggr).slots_of(), self.bytes(), line_record(line)) is Some,
            ok ==> one_step(old(aggr).slots_of(), self.bytes(), line_record(line)) == Some(final(aggr).slots_of()),
    {
        let (name, h) = self.name_and_key(line);
        let v = parse_value_u8x8(crate::ver22::preload_val_u8x8(self.buffer, line.2 - 8));
        proof {
            assert(self.bytes().subrange(line.2 - 8, line.2 as int) =~= self.buffer@.subrange(line.2 - 8, line.2 - 8 + 8));
        }
        aggr.save_item_u64x2(name, h, v)
    }

    /// Records four lines together: their home slots are read first; when each holds
    /// its line's key the four are written as [`AggrInfo::fast_save`] writes, else each
    /// is recorded as [`AggrInfo::save_item_u64x2`] records it.
    fn record_four(
        &self,
        aggr: &mut AggrInfo,
        l1: (usize, usize, usize),
        l2: (usize, usize, usize),
        l3: (usize, usize, usize),
        l4: (usize, usize, usize),
    ) -> (ok: bool)
        requires
            line_fits(self.bytes(), l1),
            line_fits(self.bytes(), l2),
            line_fits(self.bytes(), l3),
            line_fits(self.bytes(), l4),
            old(aggr).linar_hash_table@.len() == TABLE_SLOTS,
        ensures
            final(aggr).linar_hash_table@.len() == TABLE_SLOTS,
            ({
                let rs = seq![line_record(l1), line_record(l2), line_record(l3), line_record(l4)];
                &&& ok == quad_step(old(aggr).slots_of(), self.bytes(), rs) is Some
                &&& ok ==> quad_step(old(aggr).slots_of(), self.bytes(), rs) == Some(final(aggr).slots_of())
            }),
    {
        reveal(quad_step);
        let buf = self.buffer;
        let ghost s = buf@;
        let ghost m = aggr.slots_of();
        let ghost rs = seq![line_record(l1), line_record(l2), line_record(l3), line_record(l4)];
        let (n1, h1) = self.name_and_key(l1);
        let (n2, h2) = self.name_and_key(l2);
        let (n3, h3) = self.name_and_key(l3);
        let (n4, h4) = self.name_and_key(l4);
        proof {
            assert(s.subrange(l1.2 - 8, l1.2 as int) =~= s.subrange(l1.2 - 8, l1.2 - 8 + 8));
            assert(s.subrange(l2.2 - 8, l2.2 as int) =~= s.subrange(l2.2 - 8, l2.2 - 8 + 8));
            assert(s.subrange(l3.2 - 8, l3.2 as int) =~= s.subrange(l3.2 - 8, l3.2 - 8 + 8));
            assert(s.subrange(l4.2 - 8, l4.2 as int) =~= s.subrange(l4.2 - 8, l4.2 - 8 + 8));
        }
        let (v1, v2, v3, v4) = parse_val_u8x8x4(
            crate::ver22::preload_val_u8x8(buf, l1.2 - 8),
            crate::ver22::preload_val_u8x8(buf, l2.2 - 8),
            crate::ver22::preload_val_u8x8(buf, l3.2 - 8),
            crate::ver22::preload_val_u8x8(buf, l4.2 - 8),
        );
        let e1 = aggr.preload_hash_item(h1);
        let e2 = aggr.preload_hash_item(h2);
        let e3 = aggr.preload_hash_item(h3);
        let e4 = aggr.preload_hash_item(h4);
        proof {
            assert(rs[0] == line_record(l1) && rs[1] == line_record(l2) && rs[2] == line_record(l3) && rs[3] == line_record(l4));
        }
        let distinct = (h1.0 != h2.0 || h1.1 != h2.1) && (h1.0 != h3.0 || h1.1 != h3.1) && (h1.0 != h4.0
            || h1.1 != h4.1) && (h2.0 != h3.0 || h2.1 != h3.1) && (h2.0 != h4.0 || h2.1 != h4.1) && (h3.0 != h4.0
            || h3.1 != h4.1);
        if distinct && e1.1.0 == h1.0 && e1.1.1 == h1.1 && e2.1.0 == h2.0 && e2.1.1 == h2.1 && e3.1.0 == h3.0
            && e3.1.1 == h3.1 && e4.1.0 == h4.0 && e4.1.1 == h4.1 {
            let ghost c = (e1.0 as int, e2.0 as int, e3.0 as int, e4.0 as int);
            let ghost v = (v1 as i32, v2 as i32, v3 as i32, v4 as i32);
            proof {
                crate::ver20_preload_entry::lemma_fast_batch_sequential(
                    m,
                    c,
                    (h1, h2, h3, h4),
                    (n1@, n2@, n3@, n4@),
                    v,
                );
            }
            let ghost m1 = m.update(c.0, crate::ver20_preload_entry::with_data(m[c.0], agg_add(m[c.0].data, v.0)));
            let ghost m2 = m1.update(c.1, crate::ver20_preload_entry::with_data(m1[c.1], agg_add(m[c.1].data, v.1)));
            let ghost m3 = m2.update(c.2, crate::ver20_preload_entry::with_data(m2[c.2], agg_add(m[c.2].data, v.2)));
            if !aggr.fast_save(e1.0, e1.2, v1) {
                return false;
            }
            if !aggr.fast_save(e2.0, e2.2, v2) {
                return false;
            }
            if !aggr.fast_save(e3.0, e3.2, v3) {
                return false;
            }
            aggr.fast_save(e4.0, e4.2, v4)
        } else {
            if !aggr.save_item_u64x2(n1, h1, v1) {
                return false;
            }
            if !aggr.save_item_u64x2(n2, h2, v2) {
                return false;
            }
            if !aggr.save_item_u64x2(n3, h3, v3) {
                return false;
            }
            aggr.save_item_u64x2(n4, h4, v4)
        }
    }

    /// Takes the next line into the run: a line read in a batch joins the open batch,
    /// which is recorded once it holds four; any other line is recorded at once.
    fn take_line(
        &self,
        aggr: &mut AggrInfo,
        pending: &mut Vec<(usize, usize, usize)>,
        line: (usize, usize, usize),
        batch: bool,
        idx: usize,
        m0: Ghost<Seq<EntryModel>>,
        done: Ghost<Seq<(int, int, int)>>,
    ) -> (ok: bool)
        requires
            line_fits(scanned(self.bytes()), line),
            batch == in_batch(scanned(self.bytes()), line_record(line)),
            idx == count_newlines(scanned(self.bytes()), line.2 / 64 * 64, line.2 as int),
            run_records(m0@, scanned(self.bytes()), done@) == Some((old(aggr).slots_of(), lines_records(old(pending)@))),
            old(pending)@.len() <= 3,
            forall|k: int| 0 <= k < old(pending)@.len() ==> line_fits(scanned(self.bytes()), #[trigger] old(pending)@[k]),
            old(aggr).linar_hash_table@.len() == TABLE_SLOTS,
        ensures
            final(aggr).linar_hash_table@.len() == TABLE_SLOTS,
            final(pending)@.len() <= 3,
            forall|k: int| 0 <= k < final(pending)@.len() ==> line_fits(scanned(self.bytes()), #[trigger] final(pending)@[k]),
            ok ==> run_records(m0@, scanned(self.bytes()), done@.push(line_record(line))) == Some(
                (final(aggr).slots_of(), lines_records(final(pending)@)),
            ),
            !ok ==> run_records(m0@, scanned(self.bytes()), done@.push(line_record(line))) is None,
    {
        let ghost s = self.bytes();
        let ghost q = scanned(s);
        let ghost r = line_record(line);
        let ghost pend = lines_records(pending@);
        proof {
            assert(done@.push(r).drop_last() =~= done@);
            assert(q.len() <= s.len() && q == s.take(q.len() as int));
        }
        if batch {
            if pending.len() != idx % 4 {
                return false;
            }
            if pending.len() == 3 {
                let l1 = pending[0];
                let l2 = pending[1];
                let l3 = pending[2];
                let ghost rs = seq![line_record(l1), line_record(l2), line_record(l3), line_record(line)];
                proof {
                    assert(pend.push(r) =~= rs);
                    assert(line_fits(q, pending@[0]) && line_fits(q, pending@[1]) && line_fits(q, pending@[2]));
                    lemma_steps_prefix(aggr.slots_of(), q, s, rs);
                }
                if !self.record_four(aggr, l1, l2, l3, line) {
                    return false;
                }
                *pending = Vec::new();
                proof {
                    assert(lines_records(pending@) =~= Seq::<(int, int, int)>::empty());
                }
            } else {
                let ghost before = pending@;
                pending.push(line);
                proof {
                    assert(lines_records(pending@) =~= pend.push(r));
                    assert forall|k: int| 0 <= k < pending@.len() implies line_fits(q, #[trigger] pending@[k]) by {
                        if k < before.len() {
                            assert(pending@[k] == before[k]);
                        }
                    }
                }
            }
            true
        } else {
            if pending.len() != 0 {
                return false;
            }
            proof {
                lemma_steps_prefix(aggr.slots_of(), q, s, seq![r]);
            }
            self.record_one(aggr, line)
        }
    }

    /// Scans the whole 64-byte blocks of the buffer and records every line found into
    /// `aggr`: the lines of a block four at a time while four are left
    /// ([`FileReader::record_four`]), then one by one. True when every line was
    /// recorded; false when a line ends before byte 8, when the bitmasks do not pair a
    /// line's `;` with its `\n`, when the lines of a block do not fall into its batches
    /// as its line breaks say, or when a recording fails. On success the table holds
    /// what [`run_records`] gives for the records of the scanned part.
    #[verifier::spinoff_prover]
    #[verifier::rlimit(60)]
    pub fn scan_loop(&self, aggr: &mut AggrInfo) -> (ok: bool)
        requires
            old(aggr).linar_hash_table@.len() == TABLE_SLOTS,
        ensures
            final(aggr).linar_hash_table@.len() == TABLE_SLOTS,
            ({
                let q = scanned(self.bytes());
                let f = run_records(old(aggr).slots_of(), q, records(q));
                &&& ok ==> paired(q) && windows_in(records(q)) && (f matches Some((m, p)) && p.len() == 0 && final(aggr).slots_of() == m)
                &&& paired(q) && windows_in(records(q)) && (f matches Some((m, p)) && p.len() == 0) ==> ok
            }),
    {
        let buf = self.buffer;
        let ghost s = buf@;
        let ghost q = scanned(buf@);
        let ghost m0 = aggr.slots_of();
        let mut scanner = BlockScanner::new(buf);
        let mut pending: Vec<(usize, usize, usize)> = Vec::new();
        let mut blk: usize = 0;
        let mut cpos: usize = 0;
        let mut cnt: usize = 0;
        let mut total: usize = 0;
        let mut started = false;
        proof {
            lemma_records_shape(q, 0);
            assert(lines_records(pending@) =~= Seq::<(int, int, int)>::empty());
        }
        loop
            invariant
                scanner.inv(buf@),
                s == buf@,
                q == scanned(buf@),
                buf@ == self.bytes(),
                q.len() <= s.len(),
                q == s.take(q.len() as int),
                q.len() % 64 == 0,
                aggr.linar_hash_table@.len() == TABLE_SLOTS,
                windows_in(scanner.done@),
                records(q) == scanner.done@ + records_from(q, scanner.line_start as int),
                forall|i: int| 0 <= i < records(q).len() ==> record_shape(q, #[trigger] records(q)[i]),
                run_records(m0, q, scanner.done@) == Some((aggr.slots_of(), lines_records(pending@))),
                pending@.len() <= 3,
                forall|k: int| 0 <= k < pending@.len() ==> line_fits(q, #[trigger] pending@[k]),
                m0 == old(aggr).slots_of(),
                started ==> {
                    &&& blk <= cpos <= scanner.line_start
                    &&& cpos <= blk + 64 <= q.len()
                    &&& cnt == count_newlines(q, blk as int, cpos as int)
                    &&& cnt <= cpos - blk
                    &&& total == count_newlines(q, blk as int, blk + 64)
                },
            decreases records(q).len() - scanner.done@.len(),
        {
            let ghost done = scanner.done@;
            let ghost ls = scanner.line_start as int;
            let ghost pend = lines_records(pending@);
            match scanner.next_line(buf) {
                Scan::Line(start, p1, p2) => {
                    let ghost r = (start as int, p1 as int, p2 as int);
                    proof {
                        assert(records(q)[done.len() as int] == r);
                        assert(record_shape(q, r));
                        lemma_records_shape(q, ls);
                        assert(r.0 >= ls);
                        assert(records(q).take(done.len() + 1int) =~= done.push(r));
                    }
                    if p2 < 8 {
                        proof {
                            assert(records(q)[done.len() as int].2 < 8);
                        }
                        return false;
                    }
                    let line = (start, p1, p2);
                    let b = p2 / 64 * 64;
                    if !started || b != blk || cpos > p2 {
                        started = true;
                        blk = b;
                        cpos = b;
                        cnt = 0;
                        total = crate::ver20::newlines_in_block(buf, b);
                        proof {
                            lemma_count_prefix(q, s, b as int, b + 64);
                        }
                    }
                    while cpos < p2
                        invariant
                            blk <= cpos <= p2 < blk + 64 <= q.len(),
                            q.len() <= s.len(),
                            q == s.take(q.len() as int),
                            s == buf@,
                            cnt <= cpos - blk,
                            cnt == count_newlines(q, blk as int, cpos as int),
                        decreases p2 - cpos,
                    {
                        if buf[cpos] == NEWLINE {
                            cnt = cnt + 1;
                        }
                        cpos = cpos + 1;
                    }
                    let batch = cnt < total / 4 * 4;
                    proof {
                        assert(in_batch(q, r) == batch);
                        assert(line_fits(q, line));
                    }
                    if !self.take_line(aggr, &mut pending, line, batch, cnt, Ghost(m0), Ghost(done)) {
                        proof {
                            assert(records(q).take(done.len() + 1int) =~= done.push(r));
                            lemma_run_none_extends(m0, q, records(q), done.len() + 1int);
                        }
                        return false;
                    }
                    proof {
                        assert forall|i: int| 0 <= i < scanner.done@.len() implies (#[trigger] scanner.done@[i]).2 >= 8 by {
                            if i < done.len() {
                                assert(scanner.done@[i] == done[i]);
                            }
                        }
                    }
                },
                Scan::End => {
                    proof {
                        assert(records(q) =~= done);
                    }
                    if pending.len() != 0 {
                        return false;
                    }
                    return true;
                },
                Scan::Stuck => {
                    return false;
                },
            }
        }
    }
}

} // verus!
