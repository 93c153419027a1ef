//! Separate `;` and `\n` bitmasks per 64-byte block, names packed into two `u64`
//! halves, statistics in a linear-probing table of 2^20 + 1024 slots.
use vstd::prelude::*;
use crate::bits::packed_key;
use crate::format::{
    lemma_records_shape, rec_name, rec_value, record_shape, records, tenths, valid_record,
    valid_records, MINUS,
};
use crate::scan::{paired, scanned, BlockScanner, Scan};
use crate::stats::{aggregate_buffer, lemma_aggregate_rec_tenths};
use crate::table::{
    agg_zero, empty_entry, entry_model, fold_save, fresh_slots, keys_distinct, lemma_fold_holds,
    lemma_fold_none_extends, lemma_fold_push, names_ok, save_from, save_slots, slots, slots_hold,
    wf_slots, EntryModel, HashEntry, HOME_SLOTS, TABLE_SLOTS,
};

pub use crate::bits::{load_current_64, str_to_hash_normal};

verus! {

/// Byte `k` counted from the end of `v` (0 is the last byte), or 0 before its start.
pub open spec fn byte_from_end(v: Seq<u8>, k: int) -> u8 {
    if k < v.len() {
        v[v.len() - 1 - k]
    } else {
        0
    }
}

/// A byte read as a digit through a signed lane: `b - 48` for bytes from `0` to 127,
/// and 0 for every other byte.
pub open spec fn signed_lane_digit(b: u8) -> int {
    if 48 <= b <= 127 {
        b - 48
    } else {
        0
    }
}

/// The last four bytes of a value text read as digits of weight 1, 0, 10 and 100,
/// counted from the end: `dd.d` is its tenths.
pub open spec fn tail_number(v: Seq<u8>) -> int {
    signed_lane_digit(byte_from_end(v, 0)) + signed_lane_digit(byte_from_end(v, 2)) * 10
        + signed_lane_digit(byte_from_end(v, 3)) * 100
}

/// The number a value text reads as in the signed-lane parsers: [`tail_number`],
/// negated when the text starts with `-`.
pub open spec fn signed_lane_value(v: Seq<u8>) -> int {
    if v[0] == MINUS {
        -tail_number(v)
    } else {
        tail_number(v)
    }
}

/// A byte read as a digit through a signed lane.
fn lane_digit(b: u8) -> (r: i16)
    ensures
        r == signed_lane_digit(b),
{
    if b >= 48 && b <= 127 {
        (b - 48) as i16
    } else {
        0
    }
}

/// Reads a value text of one to eight bytes from its last four: the last byte counts
/// once, the third from the end ten times, the fourth from the end a hundred times,
/// each only when it lies from `0` up to 127; negated when the text starts with `-`.
pub fn parse_value_simd(val1: &[u8]) -> (r: i16)
    requires
        1 <= val1@.len() <= 8,
    ensures
        r == signed_lane_value(val1@),
{
    let n = val1.len();
    let d0 = lane_digit(val1[n - 1]);
    let d2 = if n >= 3 { lane_digit(val1[n - 3]) } else { 0 };
    let d3 = if n >= 4 { lane_digit(val1[n - 4]) } else { 0 };
    let sum = d0 + d2 * 10 + d3 * 100;
    if val1[0] == MINUS {
        -sum
    } else {
        sum
    }
}

/// The home slot of the key `(a, b)`: `a ^ a >> 20 ^ a >> 40 ^ b ^ b >> 20 ^ b >> 40`
/// modulo 2^20.
pub open spec fn home_slot(a: u64, b: u64) -> int {
    ((((a ^ (a >> 20u64)) ^ ((a >> 40u64) ^ b)) ^ ((b >> 20u64) ^ (b >> 40u64))) % 0x10_0000u64) as int
}

/// The value this variant reads for record `r`.
pub open spec fn lane_value(s: Seq<u8>, r: (int, int, int)) -> int {
    signed_lane_value(rec_value(s, r))
}

/// Every record of `recs` has a value of one to eight bytes.
pub open spec fn values_short(recs: Seq<(int, int, int)>) -> bool {
    forall|i: int| 0 <= i < recs.len() ==> 1 <= (#[trigger] recs[i]).2 - recs[i].1 - 1 <= 8
}

/// The slots after recording the records `recs` of `s` into slots `m0` as this variant
/// does.
pub open spec fn fold_items(m0: Seq<EntryModel>, s: Seq<u8>, recs: Seq<(int, int, int)>) -> Option<
    Seq<EntryModel>,
> {
    fold_save(
        m0,
        s,
        recs,
        |s: Seq<u8>, r: (int, int, int)| lane_value(s, r),
        |h: (u64, u64)| home_slot(h.0, h.1),
        |n: Seq<u8>| packed_key(n),
    )
}

/// A slot of this variant's table.
pub type AggrItem = HashEntry;

/// The statistics table: `TABLE_SLOTS` slots, a key probed for from its home slot on.
pub struct AggrInfo {
    pub hashes: Vec<HashEntry>,
}

impl AggrInfo {
    /// The slots of the table as values.
    pub open spec fn slots_of(&self) -> Seq<EntryModel> {
        slots(self.hashes@)
    }

    /// An empty slot: zero key, no name, all statistics zero.
    pub fn new_item() -> (e: AggrItem)
        ensures
            entry_model(e) == (EntryModel { key_hash: (0u64, 0u64), data: agg_zero(), key: Seq::empty() }),
    {
        empty_entry(crate::table::Aggregation { min: 0, max: 0, count: 0, sum: 0 })
    }

    /// A table of `TABLE_SLOTS` empty slots.
    pub fn new() -> (t: AggrInfo)
        ensures
            fresh_slots(t.slots_of(), agg_zero()),
    {
        AggrInfo { hashes: crate::table::fresh_table(crate::table::Aggregation { min: 0, max: 0, count: 0, sum: 0 }) }
    }
}

/// A measurement buffer read block by block.
pub struct FileReader<'a> {
    buffer: &'a [u8],
}

impl<'a> FileReader<'a> {
    /// The bytes the reader reads.
    pub closed spec fn bytes(&self) -> Seq<u8> {
        self.buffer@
    }

    /// A reader over `buffer`.
    pub fn new(buffer: &'a [u8]) -> (r: FileReader<'a>)
        ensures
            r.bytes() == buffer@,
    {
        FileReader { buffer }
    }

    /// The name `buffer[line_begin..pos1]` and the value `buffer[pos1 + 1..pos2]` of a
    /// line.
    pub fn build_line(&self, line_begin: usize, pos1: usize, pos2: usize) -> (r: (&'a [u8], &'a [u8]))
        requires
            line_begin <= pos1 < pos2 <= self.bytes().len(),
        ensures
            r.0@ == self.bytes().subrange(line_begin as int, pos1 as int),
            r.1@ == self.bytes().subrange(pos1 + 1, pos2 as int),
    {
        let buf: &'a [u8] = self.buffer;
        (vstd::slice::slice_subrange(buf, line_begin, pos1), vstd::slice::slice_subrange(buf, pos1 + 1, pos2))
    }

    /// Records `value` for the station named `key` with key `(key_a, key_b)`, probing
    /// from its home slot.
    pub fn save_item(aggregator: &mut AggrInfo, key: &[u8], key_a: u64, key_b: u64, value: i16) -> (ok: bool)
        requires
            old(aggregator).hashes@.len() == TABLE_SLOTS,
        ensures
            final(aggregator).hashes@.len() == TABLE_SLOTS,
            ok == save_slots(old(aggregator).slots_of(), home_slot(key_a, key_b), key@, (key_a, key_b), value as i32) is Some,
            ok ==> final(aggregator).slots_of() == save_slots(
                old(aggregator).slots_of(),
                home_slot(key_a, key_b),
                key@,
                (key_a, key_b),
                value as i32,
            )->0,
            !ok ==> final(aggregator).hashes@ == old(aggregator).hashes@,
    {
        let hash = (key_a ^ (key_a >> 20u64)) ^ ((key_a >> 40u64) ^ key_b) ^ ((key_b >> 20u64) ^ (key_b >> 40u64));
        let from = (hash % 0x10_0000u64) as usize;
        Self::slow_save(aggregator, key, key_a, key_b, value, from)
    }

    /// Records `value` for the station named `key` with key `(key_a, key_b)`, probing
    /// the 1024 slots from `from` on: the first slot holding the key takes the value,
    /// else the first empty slot takes the station. False, with the table unchanged,
    /// when neither is found or the count or sum would overflow.
    pub fn slow_save(aggregator: &mut AggrInfo, key: &[u8], key_a: u64, key_b: u64, value: i16, from: usize) -> (ok: bool)
        requires
            old(aggregator).hashes@.len() == TABLE_SLOTS,
            from + 1024 <= TABLE_SLOTS,
        ensures
            final(aggregator).hashes@.len() == TABLE_SLOTS,
            ok == save_slots(old(aggregator).slots_of(), from as int, key@, (key_a, key_b), value as i32) is Some,
            ok ==> final(aggregator).slots_of() == save_slots(
                old(aggregator).slots_of(),
                from as int,
                key@,
                (key_a, key_b),
                value as i32,
            )->0,
            !ok ==> final(aggregator).hashes@ == old(aggregator).hashes@,
    {
        save_from(&mut aggregator.hashes, from, key, (key_a, key_b), value as i32)
    }

    /// Scans the whole 64-byte blocks of the buffer and records every line found into
    /// `aggregator`: the name keyed by its first sixteen bytes, the value read by
    /// [`parse_value_simd`]. True when every line was recorded; false when a value is
    /// empty or longer than eight bytes, when the bitmasks do not pair a line's `;` with
    /// its `\n`, or when a recording fails. On success the table holds what recording
    /// the records of the scanned part one by one gives.
    pub fn scan_loop(&self, aggregator: &mut AggrInfo) -> (ok: bool)
        requires
            old(aggregator).hashes@.len() == TABLE_SLOTS,
        ensures
            ({
                let q = scanned(self.bytes());
                let f = fold_items(old(aggregator).slots_of(), q, records(q));
                &&& ok ==> paired(q) && values_short(records(q)) && f is Some && final(aggregator).slots_of() == f->0
                &&& paired(q) && values_short(records(q)) && f is Some ==> ok
            }),
    {
        let buf = self.buffer;
        let ghost q = scanned(buf@);
        let ghost m0 = aggregator.slots_of();
        let ghost rval = |s: Seq<u8>, r: (int, int, int)| lane_value(s, r);
        let ghost code = |h: (u64, u64)| home_slot(h.0, h.1);
        let ghost key_of = |n: Seq<u8>| packed_key(n);
        let mut scanner = BlockScanner::new(buf);
        loop
            invariant
                scanner.inv(buf@),
                q == scanned(buf@),
                buf@ == self.bytes(),
                aggregator.hashes@.len() == TABLE_SLOTS,
                values_short(scanner.done@),
                fold_save(m0, q, scanner.done@, rval, code, key_of) is Some,
                aggregator.slots_of() == fold_save(m0, q, scanner.done@, rval, code, key_of)->0,
                m0 == old(aggregator).slots_of(),
                rval == (|s: Seq<u8>, r: (int, int, int)| lane_value(s, r)),
                code == (|h: (u64, u64)| home_slot(h.0, h.1)),
                key_of == (|n: Seq<u8>| packed_key(n)),
            decreases records(q).len() - scanner.done@.len(),
        {
            let ghost done = scanner.done@;
            match scanner.next_line(buf) {
                Scan::Line(start, p1, p2) => {
                    let ghost r = (start as int, p1 as int, p2 as int);
                    proof {
                        assert(records(q)[done.len() as int] == r);
                        lemma_records_shape(q, 0);
                        assert(record_shape(q, r));
                        assert(records(q).take(done.len() + 1int) =~= done.push(r));
                    }
                    if p2 - p1 - 1 == 0 || p2 - p1 - 1 > 8 {
                        return false;
                    }
                    let (key, val) = self.build_line(start, p1, p2);
                    let (key_a, key_b) = str_to_hash_normal(key);
                    let v = parse_value_simd(val);
                    let ok = Self::save_item(aggregator, key, key_a, key_b, v);
                    proof {
                        lemma_fold_push(m0, q, done, r, rval, code, key_of);
                        assert(rec_name(q, r) =~= key@);
                        assert(rec_value(q, r) =~= val@);
                    }
                    if !ok {
                        proof {
                            lemma_fold_none_extends(m0, q, records(q), done.len() + 1int, rval, code, key_of);
                        }
                        return false;
                    }
                    proof {
                        assert forall|i: int| 0 <= i < scanner.done@.len() implies 1 <= (
                        #[trigger] scanner.done@[i]).2 - scanner.done@[i].1 - 1 <= 8 by {
                            if i < done.len() {
                                assert(scanner.done@[i] == done[i]);
                            }
                        }
                    }
                },
                Scan::End => {
                    proof {
                        assert(records(q) =~= done);
                    }
                    return true;
                },
                Scan::Stuck => {
                    return false;
                },
            }
        }
    }
}

/// The number of stations the table holds, and the number of them whose slot before
/// holds a key with a non-zero first half.
pub fn check_result(aggr: &AggrInfo) -> (r: (usize, usize))
    ensures
        r.0 == crate::table::occupied_count(aggr.slots_of()),
        r.1 == crate::table::displaced_count(aggr.slots_of()),
{
    crate::table::count_entries(&aggr.hashes)
}

/// A value written as the format says reads as its tenths.
pub proof fn lemma_lane_tenths(v: Seq<u8>)
    requires
        crate::format::valid_value(v),
    ensures
        signed_lane_value(v) == tenths(v),
{
}

/// A name that does not start with a zero byte has a non-zero key.
pub proof fn lemma_packed_nonzero(name: Seq<u8>)
    requires
        0 < name.len(),
        name[0] != 0,
    ensures
        packed_key(name) != (0u64, 0u64),
{
    let a = name.subrange(0, crate::bits::min_int(name.len() as int, 8));
    crate::bits::lemma_le_value_bound(a);
    crate::bits::lemma_pow_mono(a.len(), 8);
    crate::bits::lemma_pow256_values();
    assert(crate::bits::le_value(a) >= a[0]);
}

/// On a scanned part whose records are written as the format says and whose distinct
/// names have distinct keys, a fresh table that records every record successfully
/// holds exactly the minimum, maximum, count and sum of every station of the scanned
/// part, each station once, within 1024 slots of its home slot.
pub proof fn lemma_scan_stats(q: Seq<u8>, m0: Seq<EntryModel>)
    requires
        fresh_slots(m0, agg_zero()),
        valid_records(q),
        keys_distinct(q, records(q), |n: Seq<u8>| packed_key(n)),
        fold_items(m0, q, records(q)) is Some,
    ensures
        wf_slots(fold_items(m0, q, records(q))->0, |h: (u64, u64)| home_slot(h.0, h.1), |n: Seq<u8>| packed_key(n), agg_zero()),
        slots_hold(fold_items(m0, q, records(q))->0, aggregate_buffer(q)),
{
    let recs = records(q);
    let rval = |s: Seq<u8>, r: (int, int, int)| lane_value(s, r);
    let code = |h: (u64, u64)| home_slot(h.0, h.1);
    let key_of = |n: Seq<u8>| packed_key(n);
    lemma_records_shape(q, 0);
    assert forall|i: int| 0 <= i < recs.len() implies rval(q, #[trigger] recs[i]) == tenths(
        rec_value(q, recs[i]),
    ) by {
        assert(valid_record(q, recs[i]));
        lemma_lane_tenths(rec_value(q, recs[i]));
    }
    assert(names_ok(q, recs, rval, code, key_of)) by {
        assert forall|i: int| 0 <= i < recs.len() implies {
            let n = rec_name(q, #[trigger] recs[i]);
            &&& n.len() > 0
            &&& key_of(n) != (0u64, 0u64)
            &&& 0 <= code(key_of(n)) < HOME_SLOTS
            &&& i32::MIN <= rval(q, recs[i]) <= i32::MAX
        } by {
            let r = recs[i];
            assert(record_shape(q, r));
            assert(valid_record(q, r));
            let n = rec_name(q, r);
            assert(n[0] == q[r.0]);
            lemma_packed_nonzero(n);
            lemma_lane_tenths(rec_value(q, r));
        }
    }
    lemma_fold_holds(m0, agg_zero(), q, recs, rval, code, key_of);
    lemma_aggregate_rec_tenths(q, recs, rval);
}

/// On a buffer made of valid lines, when the scanned part holds fewer than 1024
/// stations, distinct names have distinct keys, and the counts and sums in tenths fit
/// their widths after every line, a scan into a fresh table owes success: the bitmasks
/// pair every line, every recording succeeds, and the table then holds exactly the
/// minimum, maximum, count and sum of every station of the scanned part.
pub proof fn lemma_valid_scan(s: Seq<u8>, m0: Seq<EntryModel>)
    requires
        fresh_slots(m0, agg_zero()),
        crate::format::valid_buffer(s),
        keys_distinct(scanned(s), records(scanned(s)), |n: Seq<u8>| packed_key(n)),
        crate::stats::fits_throughout(
            scanned(s),
            records(scanned(s)),
            |v: Seq<u8>| tenths(v),
            i32::MIN as int,
            i32::MAX as int,
        ),
        aggregate_buffer(scanned(s)).dom().len() < 1024,
    ensures
        paired(scanned(s)),
        values_short(records(scanned(s))),
        fold_items(m0, scanned(s), records(scanned(s))) is Some,
        slots_hold(fold_items(m0, scanned(s), records(scanned(s)))->0, aggregate_buffer(scanned(s))),
{
    let q = scanned(s);
    let recs = records(q);
    let rval = |s: Seq<u8>, r: (int, int, int)| lane_value(s, r);
    let code = |h: (u64, u64)| home_slot(h.0, h.1);
    let key_of = |n: Seq<u8>| packed_key(n);
    crate::scan::lemma_valid_paired(s);
    lemma_records_shape(q, 0);
    assert forall|i: int| 0 <= i < recs.len() implies rval(q, #[trigger] recs[i]) == tenths(
        rec_value(q, recs[i]),
    ) by {
        assert(record_shape(q, recs[i]));
        assert(valid_record(q, recs[i]));
        lemma_lane_tenths(rec_value(q, recs[i]));
    }
    lemma_aggregate_rec_tenths(q, recs, rval);
    assert(crate::table::fits_rec_throughout(q, recs, rval)) by {
        assert forall|k: int| 0 <= k <= recs.len() implies crate::stats::stats_fit(
            #[trigger] crate::stats::aggregate_rec(q, recs.take(k), rval),
            i32::MIN as int,
            i32::MAX as int,
        ) by {
            assert forall|i: int| 0 <= i < recs.take(k).len() implies rval(q, #[trigger] recs.take(k)[i])
                == tenths(rec_value(q, recs.take(k)[i])) by {
                assert(recs.take(k)[i] == recs[i]);
            }
            lemma_aggregate_rec_tenths(q, recs.take(k), rval);
            assert(crate::stats::stats_fit(
                crate::stats::aggregate_with(q, recs.take(k), |v: Seq<u8>| tenths(v)),
                i32::MIN as int,
                i32::MAX as int,
            ));
        }
    }
    assert(names_ok(q, recs, rval, code, key_of)) by {
        assert forall|i: int| 0 <= i < recs.len() implies {
            let n = rec_name(q, #[trigger] recs[i]);
            &&& n.len() > 0
            &&& key_of(n) != (0u64, 0u64)
            &&& 0 <= code(key_of(n)) < HOME_SLOTS
            &&& i32::MIN <= rval(q, recs[i]) <= i32::MAX
        } by {
            let r = recs[i];
            assert(record_shape(q, r));
            assert(valid_record(q, r));
            let n = rec_name(q, r);
            assert(n[0] == q[r.0]);
            lemma_packed_nonzero(n);
            crate::format::lemma_tenths_range(rec_value(q, r));
            lemma_lane_tenths(rec_value(q, r));
        }
    }
    crate::table::lemma_fold_some(m0, agg_zero(), q, recs, rval, code, key_of);
    lemma_fold_holds(m0, agg_zero(), q, recs, rval, code, key_of);
}

} // verus!
