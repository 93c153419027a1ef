//! Delimiter bitmasks over 64-byte blocks read two delimiters per line, names packed
//! into two `u64` halves, statistics in a linear-probing table whose home slot xors the
//! six 20-bit pieces of the key.
use vstd::prelude::*;
use crate::bits::{packed_key, str_to_hash_normal};
use crate::delims::{delim_records, delim_records_from};
use crate::format::{rec_name, rec_value, scalar_value, scalar_within};
use crate::reader::{
    lemma_read_end, lemma_read_one, lemma_reader_ok_facts, lemma_refused, reader_ok, whole_end, FileReader,
};
use crate::table::{
    agg_zero, empty_entry, entry_model, fold_save, fresh_model, fresh_slots, lemma_fold_none_extends, lemma_fold_push,
    lemma_fresh_model, save_from, save_slots, slots, Aggregation, EntryModel, HashEntry, HOME_SLOTS,
    TABLE_SLOTS,
};
use crate::ver7::{value_ok, values_ok};
use crate::format::{lemma_records_shape, record_shape, records, tenths, valid_record};
use crate::stats::{aggregate_buffer, aggregate_rec, aggregate_with, fits_throughout, lemma_aggregate_rec_tenths, stats_fit};
use crate::table::{fits_rec_throughout, keys_distinct, lemma_fold_holds, lemma_fold_some, names_ok, slots_hold};

pub use crate::ver10::parse_value;

verus! {

/// The home slot of the key `(a, b)`: the xor of the six 20-bit pieces `a`, `a >> 20`,
/// `a >> 40`, `b`, `b >> 20`, `b >> 40`, each cut to 20 bits.
pub open spec fn home_slot(a: u64, b: u64) -> int {
    let m = 0xF_FFFFu64;
    ((((a & m) ^ ((a >> 20u64) & m) ^ ((a >> 40u64) & m) ^ (b & m) ^ ((b >> 20u64) & m) ^ ((b
        >> 40u64) & m)) as u64) % 0x10_0000u64) as int
}

/// A slot of this variant's table.
pub type AggrItem = HashEntry;

/// The statistics table: `TABLE_SLOTS` slots, a key probed for from its home slot on.
pub struct AggrInfo {
    pub hashes: Vec<HashEntry>,
}

impl AggrInfo {
    /// The slots of the table as values.
    pub open spec fn slots_of(&self) -> Seq<EntryModel> {
        slots(self.hashes@)
    }

    /// An empty slot: zero key, no name, all statistics zero.
    pub fn new_item() -> (e: AggrItem)
        ensures
            entry_model(e) == (EntryModel { key_hash: (0u64, 0u64), data: agg_zero(), key: Seq::empty() }),
    {
        empty_entry(Aggregation { min: 0, max: 0, count: 0, sum: 0 })
    }

    /// A table of `TABLE_SLOTS` empty slots.
    pub fn new() -> (t: AggrInfo)
        ensures
            fresh_slots(t.slots_of(), agg_zero()),
    {
        AggrInfo { hashes: crate::table::fresh_table(Aggregation { min: 0, max: 0, count: 0, sum: 0 }) }
    }

    /// Records `value` for the station named `key` with key `(key_a, key_b)`, probing
    /// from its home slot.
    pub fn save_item(&mut self, key: &[u8], key_a: u64, key_b: u64, value: i16) -> (ok: bool)
        requires
            old(self).hashes@.len() == TABLE_SLOTS,
        ensures
            final(self).hashes@.len() == TABLE_SLOTS,
            ok == save_slots(old(self).slots_of(), home_slot(key_a, key_b), key@, (key_a, key_b), value as i32) is Some,
            ok ==> final(self).slots_of() == save_slots(
                old(self).slots_of(),
                home_slot(key_a, key_b),
                key@,
                (key_a, key_b),
                value as i32,
            )->0,
            !ok ==> final(self).hashes@ == old(self).hashes@,
    {
        let mask: u64 = 0xF_FFFF;
        let hash = (key_a & mask) ^ ((key_a >> 20u64) & mask) ^ ((key_a >> 40u64) & mask) ^ (key_b & mask) ^ ((key_b
            >> 20u64) & mask) ^ ((key_b >> 40u64) & mask);
        let from = (hash % 0x10_0000u64) as usize;
        self.slow_save(key, key_a, key_b, value, from)
    }

    /// Records `value` for the station named `key` with key `(key_a, key_b)`, probing
    /// the 1024 slots from `from` on: the first slot holding the key takes the value,
    /// else the first empty slot takes the station. False, with the table unchanged,
    /// when neither is found or the count or sum would overflow.
    pub fn slow_save(&mut self, key: &[u8], key_a: u64, key_b: u64, value: i16, from: usize) -> (ok: bool)
        requires
            old(self).hashes@.len() == TABLE_SLOTS,
            from + 1024 <= TABLE_SLOTS,
        ensures
            final(self).hashes@.len() == TABLE_SLOTS,
            ok == save_slots(old(self).slots_of(), from as int, key@, (key_a, key_b), value as i32) is Some,
            ok ==> final(self).slots_of() == save_slots(
                old(self).slots_of(),
                from as int,
                key@,
                (key_a, key_b),
                value as i32,
            )->0,
            !ok ==> final(self).hashes@ == old(self).hashes@,
    {
        save_from(&mut self.hashes, from, key, (key_a, key_b), value as i32)
    }
}

/// The value this variant reads for record `r`: the scalar reading cut to 16 bits.
pub open spec fn short_value(s: Seq<u8>, r: (int, int, int)) -> int {
    (scalar_value(rec_value(s, r)) as i16) as int
}

/// The slots after recording the records `recs` of `s` into slots `m0` as this variant
/// does.
pub open spec fn fold_info(m0: Seq<EntryModel>, s: Seq<u8>, recs: Seq<(int, int, int)>) -> Option<
    Seq<EntryModel>,
> {
    fold_save(
        m0,
        s,
        recs,
        |s: Seq<u8>, r: (int, int, int)| short_value(s, r),
        |h: (u64, u64)| home_slot(h.0, h.1),
        |n: Seq<u8>| packed_key(n),
    )
}

/// The length of a line with its `;` and `\n`.
pub open spec fn line_len(r: (int, int, int)) -> int {
    r.2 - r.0 + 1
}

/// The longest line of `recs`, 0 when there is none.
pub open spec fn max_line(recs: Seq<(int, int, int)>) -> int
    decreases recs.len(),
{
    if recs.len() == 0 {
        0
    } else {
        let m = max_line(recs.drop_last());
        if line_len(recs.last()) > m { line_len(recs.last()) } else { m }
    }
}

/// The shortest line of `recs`, `usize::MAX` when there is none.
pub open spec fn min_line(recs: Seq<(int, int, int)>) -> int
    decreases recs.len(),
{
    if recs.len() == 0 {
        usize::MAX as int
    } else {
        let m = min_line(recs.drop_last());
        if line_len(recs.last()) < m { line_len(recs.last()) } else { m }
    }
}

/// Reads every line the reader yields and records it: the name keyed by its first
/// sixteen bytes, the value read by [`parse_value`]. The reader yields every record read
/// between delimiters, those in the bytes after the last whole 64-byte block included.
/// Returns the table, the number of lines, and the longest and shortest line length.
/// `None` exactly when the buffer is shorter than one block, when the reader breaks down
/// (see [`reader_ok`]), when a value text cannot be read, or when a recording fails.
pub fn read_all(buf: &[u8]) -> (r: Option<(AggrInfo, usize, usize, usize)>)
    ensures
        r is Some <==> {
            let lines = delim_records(buf@);
            &&& buf@.len() >= 64
            &&& reader_ok(buf@, 64)
            &&& values_ok(buf@, lines)
            &&& fold_info(fresh_model(agg_zero()), buf@, lines) is Some
        },
        r matches Some((t, k, mx, mn)) ==> {
            let recs = delim_records(buf@);
            &&& k == recs.len()
            &&& k >= 1
            &&& fold_info(fresh_model(agg_zero()), buf@, recs) == Some(t.slots_of())
            &&& t.hashes@.len() == TABLE_SLOTS
            &&& mx == max_line(recs)
            &&& mn == min_line(recs)
        },
{
    if buf.len() < 64 {
        return None;
    }
    let ghost s = buf@;
    let ghost w = whole_end(buf@.len() as int, 64);
    let ghost rval = |s: Seq<u8>, r: (int, int, int)| short_value(s, r);
    let ghost code = |h: (u64, u64)| home_slot(h.0, h.1);
    let ghost key_of = |n: Seq<u8>| packed_key(n);
    let mut reader = FileReader::new(buf, 64);
    let mut aggr = AggrInfo::new();
    proof {
        lemma_fresh_model(aggr.slots_of(), agg_zero());
    }
    let ghost m0 = aggr.slots_of();
    let mut count: usize = 0;
    let mut max_len: usize = 0;
    let mut min_len: usize = usize::MAX;
    let ghost mut done: Seq<(int, int, int)> = seq![];
    proof {
        reveal(FileReader::after);
        assert(done + delim_records_from(s, 0) =~= delim_records(s));
    }
    loop
        invariant
            s == buf@,
            s.len() >= 64,
            reader.inv(s),
            !reader.failed,
            reader.block == 64,
            reader.pos@ == reader.line_begin,
            reader.after(s, done),
            w == whole_end(s.len() as int, 64),
            delim_records(s) == done + delim_records_from(s, reader.line_begin as int),
            count == done.len(),
            count <= reader.line_begin,
            values_ok(s, done),
            aggr.hashes@.len() == TABLE_SLOTS,
            m0 == fresh_model(agg_zero()),
            fold_save(m0, s, done, rval, code, key_of) == Some(aggr.slots_of()),
            max_len == max_line(done),
            min_len == min_line(done),
            rval == (|s: Seq<u8>, r: (int, int, int)| short_value(s, r)),
            code == (|h: (u64, u64)| home_slot(h.0, h.1)),
            key_of == (|n: Seq<u8>| packed_key(n)),
            reader.line_begin <= s.len(),
        decreases s.len() - reader.line_begin, (if reader.eof { 0int } else { 1int }),
    {
        let ghost lb = reader.line_begin as int;
        let ghost eof0 = reader.eof;
        proof {
            reveal(FileReader::after);
        }
        match reader.next(buf) {
            None => {
                if reader.failed {
                    proof {
                        lemma_refused(s, 64, done, lb);
                    }
                    return None;
                }
                proof {
                    lemma_read_end(s, 64, done, lb);
                    assert(fold_info(m0, s, done) == fold_save(m0, s, done, rval, code, key_of));
                }
                return Some((aggr, count, max_len, min_len));
            },
            Some((a, p1, p2)) => {
                let ghost r = (a as int, p1 as int, p2 as int);
                proof {
                    crate::delims::lemma_next_delim(s, lb);
                    crate::delims::lemma_next_delim(s, p1 + 1);
                    assert(delim_records_from(s, lb) == seq![r] + delim_records_from(s, p2 + 1));
                    assert(delim_records(s)[done.len() as int] == r);
                    assert(delim_records(s).take(done.len() + 1int) =~= done.push(r));
                    assert(done.push(r).drop_last() =~= done);
                    lemma_read_one(s, 64, done, r);
                }
                let name = vstd::slice::slice_subrange(buf, a, p1);
                let text = vstd::slice::slice_subrange(buf, p1 + 1, p2);
                proof {
                    assert(rec_name(s, r) =~= name@);
                    assert(rec_value(s, r) =~= text@);
                }
                if !scalar_within(text, 2147483647) {
                    proof {
                        assert(delim_records(s)[done.len() as int] == r);
                    }
                    return None;
                }
                let value = parse_value(text);
                let (key_a, key_b) = str_to_hash_normal(name);
                proof {
                    lemma_fold_push(m0, s, done, r, rval, code, key_of);
                }
                if !aggr.save_item(name, key_a, key_b, value) {
                    proof {
                        lemma_fold_none_extends(m0, s, delim_records(s), done.len() + 1int, rval, code, key_of);
                    }
                    return None;
                }
                let len = p2 - a + 1;
                if len > max_len {
                    max_len = len;
                }
                if len < min_len {
                    min_len = len;
                }
                count = count + 1;
                proof {
                    assert(done.push(r) + delim_records_from(s, p2 + 1) =~= done + delim_records_from(s, lb));
                    assert forall|i: int| 0 <= i < done.push(r).len() implies value_ok(rec_value(s, #[trigger] done.push(r)[i])) by {
                        if i < done.len() {
                            assert(done.push(r)[i] == done[i]);
                        }
                    }
                    done = done.push(r);
                }
            },
        }
    }
}

/// On a valid record a value this variant reads is the value in tenths.
pub proof fn lemma_short_tenths(s: Seq<u8>, r: (int, int, int))
    requires
        valid_record(s, r),
    ensures
        short_value(s, r) == tenths(rec_value(s, r)),
        value_ok(rec_value(s, r)),
{
    crate::format::lemma_scalar_valid(rec_value(s, r));
    crate::format::lemma_tenths_range(rec_value(s, r));
}

/// Records written as the format says, whose distinct names have distinct keys, whose
/// counts and sums in tenths fit `i32` after every record, and which hold fewer than
/// 1024 stations, are all recorded by this variant, and the table then holds exactly the
/// minimum, maximum, count and sum of every station of the records.
pub proof fn lemma_valid_records_fold(s: Seq<u8>, recs: Seq<(int, int, int)>)
    requires
        forall|i: int| 0 <= i < recs.len() ==> record_shape(s, #[trigger] recs[i]) && valid_record(s, recs[i]),
        keys_distinct(s, recs, |n: Seq<u8>| packed_key(n)),
        fits_throughout(s, recs, |v: Seq<u8>| tenths(v), i32::MIN as int, i32::MAX as int),
        crate::stats::aggregate(s, recs).dom().len() < 1024,
    ensures
        values_ok(s, recs),
        fold_info(fresh_model(agg_zero()), s, recs) is Some,
        slots_hold(fold_info(fresh_model(agg_zero()), s, recs)->0, crate::stats::aggregate(s, recs)),
{
    let m0 = fresh_model(agg_zero());
    let rval = |s: Seq<u8>, r: (int, int, int)| short_value(s, r);
    let code = |h: (u64, u64)| home_slot(h.0, h.1);
    let key_of = |n: Seq<u8>| packed_key(n);
    assert(fresh_slots(m0, agg_zero()));
    assert forall|i: int| 0 <= i < recs.len() implies rval(s, #[trigger] recs[i]) == tenths(rec_value(s, recs[i]))
        && value_ok(rec_value(s, recs[i])) by {
        assert(valid_record(s, recs[i]));
        lemma_short_tenths(s, recs[i]);
    }
    lemma_aggregate_rec_tenths(s, recs, rval);
    assert(fits_rec_throughout(s, recs, rval)) by {
        assert forall|k: int| 0 <= k <= recs.len() implies stats_fit(
            #[trigger] aggregate_rec(s, recs.take(k), rval),
            i32::MIN as int,
            i32::MAX as int,
        ) by {
            assert forall|i: int| 0 <= i < recs.take(k).len() implies rval(s, #[trigger] recs.take(k)[i]) == tenths(
                rec_value(s, recs.take(k)[i]),
            ) by {
                assert(recs.take(k)[i] == recs[i]);
            }
            lemma_aggregate_rec_tenths(s, recs.take(k), rval);
            assert(stats_fit(aggregate_with(s, recs.take(k), |v: Seq<u8>| tenths(v)), i32::MIN as int, i32::MAX as int));
        }
    }
    assert(names_ok(s, recs, rval, code, key_of)) by {
        assert forall|i: int| 0 <= i < recs.len() implies {
            let n = rec_name(s, #[trigger] recs[i]);
            &&& n.len() > 0
            &&& key_of(n) != (0u64, 0u64)
            &&& 0 <= code(key_of(n)) < HOME_SLOTS
            &&& i32::MIN <= rval(s, recs[i]) <= i32::MAX
        } by {
            let r = recs[i];
            assert(record_shape(s, r));
            assert(valid_record(s, r));
            let n = rec_name(s, r);
            assert(n[0] == s[r.0]);
            crate::ver18::lemma_packed_nonzero(n);
            crate::format::lemma_tenths_range(rec_value(s, r));
            lemma_short_tenths(s, r);
        }
    }
    lemma_fold_some(m0, agg_zero(), s, recs, rval, code, key_of);
    lemma_fold_holds(m0, agg_zero(), s, recs, rval, code, key_of);
}

/// On a buffer made of valid lines whose distinct names have distinct keys, whose counts
/// and sums in tenths fit `i32` after every line, and which holds fewer than 1024
/// stations, recording all its lines as this variant does succeeds and leaves a table
/// that holds exactly the minimum, maximum, count and sum of every station of the buffer.
pub proof fn lemma_valid_fold(s: Seq<u8>)
    requires
        crate::format::valid_buffer(s),
        keys_distinct(s, records(s), |n: Seq<u8>| packed_key(n)),
        fits_throughout(s, records(s), |v: Seq<u8>| tenths(v), i32::MIN as int, i32::MAX as int),
        aggregate_buffer(s).dom().len() < 1024,
    ensures
        delim_records(s) == records(s),
        values_ok(s, records(s)),
        fold_info(fresh_model(agg_zero()), s, records(s)) is Some,
        slots_hold(fold_info(fresh_model(agg_zero()), s, records(s))->0, aggregate_buffer(s)),
{
    let recs = records(s);
    crate::delims::lemma_delim_records_valid(s);
    lemma_records_shape(s, 0);
    assert forall|i: int| 0 <= i < recs.len() implies record_shape(s, #[trigger] recs[i]) && valid_record(s, recs[i]) by {
        assert(record_shape(s, recs[i]));
    }
    lemma_valid_records_fold(s, recs);
}

/// On a buffer of at least one block made of valid lines that the reader reads through
/// (the bytes after the last whole block are not empty, and each delimiter lies in the
/// block of the one before it or the next), whose distinct names have distinct keys,
/// whose counts and sums in tenths fit `i32` after every line, and which holds fewer than
/// 1024 stations, [`read_all`] owes success, and its table then holds exactly the
/// minimum, maximum, count and sum of every station of the buffer.
pub proof fn lemma_valid_read(s: Seq<u8>)
    requires
        crate::format::valid_buffer(s),
        s.len() >= 64,
        reader_ok(s, 64),
        keys_distinct(s, records(s), |n: Seq<u8>| packed_key(n)),
        fits_throughout(s, records(s), |v: Seq<u8>| tenths(v), i32::MIN as int, i32::MAX as int),
        aggregate_buffer(s).dom().len() < 1024,
    ensures
        values_ok(s, delim_records(s)),
        fold_info(fresh_model(agg_zero()), s, delim_records(s)) is Some,
        slots_hold(fold_info(fresh_model(agg_zero()), s, delim_records(s))->0, aggregate_buffer(s)),
{
    lemma_valid_fold(s);
}

} // verus!
