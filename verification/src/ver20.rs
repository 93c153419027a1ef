//! Separate bitmasks per 64-byte block, the next block's masks computed ahead, values
//! read from the eight bytes before each line break.
use vstd::prelude::*;
use crate::table::{
    agg_zero, empty_entry, entry_model, fresh_slots, save_from, save_slots, slots, Aggregation,
    EntryModel, HashEntry, HOME_SLOTS, TABLE_SLOTS,
};
use crate::format::{
    lemma_records_shape, rec_name, rec_value, record_shape, records, records_from, tenths, valid_record, MINUS,
    NEWLINE,
};
use crate::stats::{
    aggregate_buffer, aggregate_rec, aggregate_with, fits_throughout, lemma_aggregate_rec_tenths, stats_fit,
};
use crate::table::{fits_rec_throughout, keys_distinct, lemma_fold_holds, lemma_fold_some, names_ok, slots_hold};
use crate::scan::{paired, scanned, BlockScanner, Scan};
use crate::table::{fold_save, lemma_fold_none_extends, lemma_fold_push};
use crate::ver22::hash_code_of;
use crate::ver20_preload_entry::{window_decimal, window_digits, window_value_34};
use crate::ver22::{lemma_key_nonzero, lemma_window_tenths, line_fits, long_hash_of, windows_fit, windows_in};

pub use crate::ver22::truncate_key_simd;

verus! {

/// Reads the eight bytes that end a value, `?..?dd.d`: bytes 4 to 7 weigh 100, 10, 0
/// and 1, a byte counting as its decimal digit when it is `0` to `9` and as 0
/// otherwise. The sign is left to the caller.
pub fn parse_value_u8x8(val: [u8; 8]) -> (r: i16)
    ensures
        r == window_decimal(val@),
{
    window_digits(&val)
}

/// The statistics of one slot: minimum, maximum, count and sum.
#[derive(Clone, Copy)]
pub struct AggrItemValues {
    pub min: i32,
    pub max: i32,
    pub count: u32,
    pub sum: i32,
}

impl AggrItemValues {
    /// All zero.
    pub fn new() -> (r: AggrItemValues)
        ensures
            r == (AggrItemValues { min: 0, max: 0, count: 0, sum: 0 }),
    {
        AggrItemValues { min: 0, max: 0, count: 0, sum: 0 }
    }

    /// The four fields: minimum, maximum, count, sum.
    pub fn explot(&self) -> (r: (i32, i32, u32, i32))
        ensures
            r == (self.min, self.max, self.count, self.sum),
    {
        (self.min, self.max, self.count, self.sum)
    }
}

/// The statistics a slot starts with: all zero.
pub fn new_values() -> (r: Aggregation)
    ensures
        r == agg_zero(),
{
    let v = AggrItemValues::new();
    Aggregation { min: v.min, max: v.max, count: v.count, sum: v.sum }
}

/// The statistics table: `TABLE_SLOTS` slots, a key probed for from its home slot on.
pub struct AggrInfo {
    pub linar_hash_table: Vec<HashEntry>,
}

impl AggrInfo {
    /// The slots of the table as values.
    pub open spec fn slots_of(&self) -> Seq<EntryModel> {
        slots(self.linar_hash_table@)
    }

    /// An empty slot: zero key, no name, all statistics zero.
    pub fn new_item() -> (e: HashEntry)
        ensures
            entry_model(e) == (EntryModel { key_hash: (0u64, 0u64), data: agg_zero(), key: Seq::empty() }),
    {
        empty_entry(new_values())
    }

    /// A table of `TABLE_SLOTS` empty slots.
    pub fn new() -> (t: AggrInfo)
        ensures
            fresh_slots(t.slots_of(), agg_zero()),
    {
        AggrInfo { linar_hash_table: crate::table::fresh_table(new_values()) }
    }

    /// Records `value` for the station named `key` with key `hash`, probing from its
    /// home slot, the xor of the 20-bit chunks of the 128-bit key ([`hash_code_of`]).
    pub fn save_item_u64x2(&mut self, key: &[u8], hash: (u64, u64), value: i16) -> (ok: bool)
        requires
            old(self).linar_hash_table@.len() == TABLE_SLOTS,
        ensures
            final(self).linar_hash_table@.len() == TABLE_SLOTS,
            ok == save_slots(old(self).slots_of(), hash_code_of(hash), key@, hash, value as i32) is Some,
            ok ==> final(self).slots_of() == save_slots(
                old(self).slots_of(),
                hash_code_of(hash),
                key@,
                hash,
                value as i32,
            )->0,
            !ok ==> final(self).linar_hash_table@ == old(self).linar_hash_table@,
    {
        let from = crate::ver22::AggrHashTable::compute_hash_code(hash);
        self.slow_save(key, hash, value, from)
    }

    /// Records `value` for the station named `key` with key `key_hash`, probing the 1024
    /// slots from `from` on: the first slot holding the key takes the value, else the
    /// first empty slot takes the station. False, with the table unchanged, when neither
    /// is found or the count or sum would overflow.
    pub fn slow_save(&mut self, key: &[u8], key_hash: (u64, u64), value: i16, from: usize) -> (ok: bool)
        requires
            old(self).linar_hash_table@.len() == TABLE_SLOTS,
            from + 1024 <= TABLE_SLOTS,
        ensures
            final(self).linar_hash_table@.len() == TABLE_SLOTS,
            ok == save_slots(old(self).slots_of(), from as int, key@, key_hash, value as i32) is Some,
            ok ==> final(self).slots_of() == save_slots(
                old(self).slots_of(),
                from as int,
                key@,
                key_hash,
                value as i32,
            )->0,
            !ok ==> final(self).linar_hash_table@ == old(self).linar_hash_table@,
    {
        save_from(&mut self.linar_hash_table, from, key, key_hash, value as i32)
    }
}

/// The number of line breaks among `s[a..e]`.
pub open spec fn count_newlines(s: Seq<u8>, a: int, e: int) -> nat
    decreases e - a,
{
    if a < e {
        count_newlines(s, a, e - 1) + if s[e - 1] == NEWLINE {
            1nat
        } else {
            0nat
        }
    } else {
        0
    }
}

/// Whether record `r` of `s` is read in a batch of four: the lines of a 64-byte block
/// are read four at a time while four are left, so `r` is, when fewer line breaks of
/// its block come before its own than the block's count cut to a multiple of four.
pub open spec fn in_batch(s: Seq<u8>, r: (int, int, int)) -> bool {
    let b = r.2 / 64 * 64;
    count_newlines(s, b, r.2) < count_newlines(s, b, b + 64) / 4 * 4
}

/// The value this variant reads for record `r` of `s`, from the eight bytes before its
/// line break, alone or in a batch of four: [`window_value_34`], the decimal digits of
/// bytes 4, 5 and 7, negated when byte 3 or 4 is `-`.
pub open spec fn line_value(s: Seq<u8>, r: (int, int, int)) -> int {
    window_value_34(s.subrange(r.2 - 8, r.2))
}

/// The slots after recording the records `recs` of `s` into slots `m0` as this variant
/// does.
pub open spec fn fold_lines(m0: Seq<EntryModel>, s: Seq<u8>, recs: Seq<(int, int, int)>) -> Option<Seq<EntryModel>> {
    fold_save(
        m0,
        s,
        recs,
        |s: Seq<u8>, r: (int, int, int)| line_value(s, r),
        |h: (u64, u64)| hash_code_of(h),
        |n: Seq<u8>| long_hash_of(n),
    )
}

/// Counting line breaks in a prefix of `s` counts them in `s`.
pub proof fn lemma_count_prefix(q: Seq<u8>, s: Seq<u8>, a: int, e: int)
    requires
        q.len() <= s.len(),
        q == s.take(q.len() as int),
        0 <= a,
        e <= q.len(),
    ensures
        count_newlines(q, a, e) == count_newlines(s, a, e),
    decreases e - a,
{
    if a < e {
        lemma_count_prefix(q, s, a, e - 1);
    }
}

/// The line breaks among `buf[a..e]`.
fn newlines_in(buf: &[u8], a: usize, e: usize) -> (r: usize)
    requires
        a <= e <= buf@.len(),
    ensures
        r == count_newlines(buf@, a as int, e as int),
{
    let mut i = a;
    let mut n: usize = 0;
    while i < e
        invariant
            a <= i <= e <= buf@.len(),
            n <= i - a,
            n == count_newlines(buf@, a as int, i as int),
        decreases e - i,
    {
        if buf[i] == NEWLINE {
            n = n + 1;
        }
        i = i + 1;
    }
    n
}

/// The line breaks in the 64-byte block of `buf` at `b`.
pub(crate) fn newlines_in_block(buf: &[u8], b: usize) -> (r: usize)
    requires
        b + 64 <= buf@.len(),
    ensures
        r == count_newlines(buf@, b as int, b + 64),
{
    let len = buf.len();
    let e = if len - b < 64 { len } else { b + 64 };
    newlines_in(buf, b, e)
}

/// Reads a window as a batch of four reads it: the decimal digits of bytes 4, 5 and 7,
/// negated when byte 3 or 4 is `-`.
pub fn batch_lane_value(w: [u8; 8]) -> (r: i16)
    ensures
        r == window_value_34(w@),
{
    let sum = window_digits(&w);
    if w[3] == MINUS || w[4] == MINUS {
        -sum
    } else {
        sum
    }
}

/// Reads a window as a line read alone is read: [`parse_value_u8x8`], negated when
/// byte 3 or 4 is `-`.
pub fn single_lane_value(w: [u8; 8]) -> (r: i16)
    ensures
        r == window_value_34(w@),
{
    let neg = w[3] == MINUS || w[4] == MINUS;
    let v = parse_value_u8x8(w);
    if neg {
        -v
    } else {
        v
    }
}

/// A measurement buffer read block by block.
pub struct FileReader<'a> {
    buffer: &'a [u8],
}

impl<'a> FileReader<'a> {
    /// The bytes the reader reads.
    pub closed spec fn bytes(&self) -> Seq<u8> {
        self.buffer@
    }

    /// A reader over `buffer`.
    pub fn new(buffer: &'a [u8]) -> (r: FileReader<'a>)
        ensures
            r.bytes() == buffer@,
    {
        FileReader { buffer }
    }

    /// The number of bytes.
    pub fn length(&self) -> (n: usize)
        ensures
            n == self.bytes().len(),
    {
        self.buffer.len()
    }

    /// Records the line `(start, semicolon, newline)`: its name keyed by the sixteen
    /// bytes from its start cut to its length, its value read from the eight bytes before
    /// its line break ([`window_value_34`]), through the batch path when `batch` holds and
    /// the single-line path otherwise.
    fn record_line(&self, aggregator: &mut AggrInfo, line: (usize, usize, usize), batch: bool) -> (ok: bool)
        requires
            line_fits(self.bytes(), line),
            old(aggregator).linar_hash_table@.len() == TABLE_SLOTS,
        ensures
            final(aggregator).linar_hash_table@.len() == TABLE_SLOTS,
            ({
                let name = self.bytes().subrange(line.0 as int, line.1 as int);
                let w = self.bytes().subrange(line.2 - 8, line.2 as int);
                let v = window_value_34(w);
                let saved = save_slots(old(aggregator).slots_of(), hash_code_of(long_hash_of(name)), name, long_hash_of(name), v as i32);
                &&& ok == saved is Some
                &&& ok ==> final(aggregator).slots_of() == saved->0
            }),
    {
        let buf = self.buffer;
        let (start, p1, p2) = line;
        let keys = crate::ver22::FileReader::new(buf);
        let key_hash = keys.line_key(start, p1);
        let w = crate::ver22::preload_val_u8x8(buf, p2 - 8);
        let val = if batch {
            batch_lane_value(w)
        } else {
            single_lane_value(w)
        };
        aggregator.save_item_u64x2(vstd::slice::slice_subrange(buf, start, p1), key_hash, val)
    }

    /// Scans the whole 64-byte blocks of the buffer and records every line found into
    /// `aggregator` in order, the lines of a block four at a time while four are left and
    /// then one by one, each value read as [`line_value`] says. True when
    /// every line was recorded; false when a line ends before byte 8, when the bitmasks
    /// do not pair a line's `;` with its `\n`, or when a recording fails. On success the
    /// table holds what recording the records of the scanned part one by one gives.
    #[verifier::spinoff_prover]
    #[verifier::rlimit(50)]
    pub fn scan_loop(&self, aggregator: &mut AggrInfo) -> (ok: bool)
        requires
            old(aggregator).linar_hash_table@.len() == TABLE_SLOTS,
        ensures
            final(aggregator).linar_hash_table@.len() == TABLE_SLOTS,
            ({
                let q = scanned(self.bytes());
                let f = fold_lines(old(aggregator).slots_of(), q, records(q));
                &&& ok ==> paired(q) && windows_in(records(q)) && f is Some && final(aggregator).slots_of() == f->0
                &&& paired(q) && windows_in(records(q)) && f is Some ==> ok
            }),
    {
        let buf = self.buffer;
        let ghost s = buf@;
        let ghost q = scanned(buf@);
        let ghost m0 = aggregator.slots_of();
        let ghost rval = |s: Seq<u8>, r: (int, int, int)| line_value(s, r);
        let ghost code = |h: (u64, u64)| hash_code_of(h);
        let ghost key_of = |n: Seq<u8>| long_hash_of(n);
        let mut scanner = BlockScanner::new(buf);
        let mut blk: usize = 0;
        let mut cpos: usize = 0;
        let mut cnt: usize = 0;
        let mut total: usize = 0;
        let mut started = false;
        proof {
            lemma_records_shape(q, 0);
        }
        loop
            invariant
                scanner.inv(buf@),
                s == buf@,
                q == scanned(buf@),
                buf@ == self.bytes(),
                q.len() <= s.len(),
                q == s.take(q.len() as int),
                q.len() % 64 == 0,
                aggregator.linar_hash_table@.len() == TABLE_SLOTS,
                windows_in(scanner.done@),
                records(q) == scanner.done@ + records_from(q, scanner.line_start as int),
                forall|i: int| 0 <= i < records(q).len() ==> record_shape(q, #[trigger] records(q)[i]),
                fold_lines(m0, q, scanner.done@) == Some(aggregator.slots_of()),
                m0 == old(aggregator).slots_of(),
                started ==> {
                    &&& blk <= cpos <= scanner.line_start
                    &&& cpos <= blk + 64 <= q.len()
                    &&& cnt == count_newlines(q, blk as int, cpos as int)
                    &&& cnt <= cpos - blk
                    &&& total == count_newlines(q, blk as int, blk + 64)
                },
                rval == (|s: Seq<u8>, r: (int, int, int)| line_value(s, r)),
                code == (|h: (u64, u64)| hash_code_of(h)),
                key_of == (|n: Seq<u8>| long_hash_of(n)),
            decreases records(q).len() - scanner.done@.len(),
        {
            let ghost done = scanner.done@;
            let ghost ls = scanner.line_start as int;
            match scanner.next_line(buf) {
                Scan::Line(start, p1, p2) => {
                    let ghost r = (start as int, p1 as int, p2 as int);
                    proof {
                        assert(records(q)[done.len() as int] == r);
                        assert(record_shape(q, r));
                        lemma_records_shape(q, ls);
                        assert(r.0 >= ls);
                    }
                    if p2 < 8 {
                        proof {
                            assert(records(q)[done.len() as int].2 < 8);
                        }
                        return false;
                    }
                    let b = p2 / 64 * 64;
                    if !started || b != blk || cpos > p2 {
                        started = true;
                        blk = b;
                        cpos = b;
                        cnt = 0;
                        total = newlines_in_block(buf, b);
                        proof {
                            lemma_count_prefix(q, s, b as int, b + 64);
                        }
                    }
                    while cpos < p2
                        invariant
                            blk <= cpos <= p2 < blk + 64 <= q.len(),
                            q.len() <= s.len(),
                            q == s.take(q.len() as int),
                            s == buf@,
                            cnt <= cpos - blk,
                            cnt == count_newlines(q, blk as int, cpos as int),
                        decreases p2 - cpos,
                    {
                        if buf[cpos] == NEWLINE {
                            cnt = cnt + 1;
                        }
                        cpos = cpos + 1;
                    }
                    let batch = cnt < total / 4 * 4;
                    let ghost cur = aggregator.slots_of();
                    proof {
                        assert(in_batch(q, r) == batch);
                        lemma_fold_push(m0, q, done, r, rval, code, key_of);
                        assert(rec_name(q, r) =~= s.subrange(start as int, p1 as int));
                        assert(q.subrange(r.2 - 8, r.2) =~= s.subrange(p2 - 8, p2 as int));
                        assert(line_fits(self.bytes(), (start, p1, p2)));
                    }
                    if !self.record_line(aggregator, (start, p1, p2), batch) {
                        proof {
                            assert(records(q).take(done.len() + 1int) =~= done.push(r));
                            lemma_fold_none_extends(m0, q, records(q), done.len() + 1int, rval, code, key_of);
                        }
                        return false;
                    }
                    proof {
                        assert forall|i: int| 0 <= i < scanner.done@.len() implies (#[trigger] scanner.done@[i]).2 >= 8 by {
                            if i < done.len() {
                                assert(scanner.done@[i] == done[i]);
                            }
                        }
                    }
                },
                Scan::End => {
                    proof {
                        assert(records(q) =~= done);
                    }
                    return true;
                },
                Scan::Stuck => {
                    return false;
                },
            }
        }
    }
}

/// The number of stations the table holds, and the number of them whose slot before
/// holds a key with a non-zero first half.
pub fn check_result(aggr: &AggrInfo) -> (r: (usize, usize))
    ensures
        r.0 == crate::table::occupied_count(aggr.slots_of()),
        r.1 == crate::table::displaced_count(aggr.slots_of()),
{
    crate::table::count_entries(&aggr.linar_hash_table)
}

/// On a buffer made of valid lines whose scanned records end at byte 8 or later, have
/// names shorter than 256 bytes and clear signs ([`crate::ver22::windows_fit`]),
/// distinct keys for distinct names, counts and sums in tenths that fit `i32` after
/// every line, and fewer than 1024 stations, a scan into a fresh table owes success,
/// and the table then holds exactly the minimum, maximum, count and sum of every
/// station of the scanned part.
pub proof fn lemma_valid_scan(s: Seq<u8>, m0: Seq<EntryModel>)
    requires
        fresh_slots(m0, agg_zero()),
        crate::format::valid_buffer(s),
        windows_fit(scanned(s)),
        keys_distinct(scanned(s), records(scanned(s)), |n: Seq<u8>| long_hash_of(n)),
        fits_throughout(scanned(s), records(scanned(s)), |v: Seq<u8>| tenths(v), i32::MIN as int, i32::MAX as int),
        aggregate_buffer(scanned(s)).dom().len() < 1024,
    ensures
        paired(scanned(s)),
        windows_in(records(scanned(s))),
        fold_lines(m0, scanned(s), records(scanned(s))) is Some,
        slots_hold(fold_lines(m0, scanned(s), records(scanned(s)))->0, aggregate_buffer(scanned(s))),
{
    let q = scanned(s);
    let recs = records(q);
    let rval = |s: Seq<u8>, r: (int, int, int)| line_value(s, r);
    let code = |h: (u64, u64)| hash_code_of(h);
    let key_of = |n: Seq<u8>| long_hash_of(n);
    crate::scan::lemma_valid_paired(s);
    lemma_records_shape(q, 0);
    assert forall|i: int| 0 <= i < recs.len() implies rval(q, #[trigger] recs[i]) == tenths(rec_value(q, recs[i])) by {
        assert(record_shape(q, recs[i]));
        assert(valid_record(q, recs[i]));
        lemma_window_tenths(q, recs[i]);
    }
    lemma_aggregate_rec_tenths(q, recs, rval);
    assert(fits_rec_throughout(q, recs, rval)) by {
        assert forall|k: int| 0 <= k <= recs.len() implies stats_fit(
            #[trigger] aggregate_rec(q, recs.take(k), rval),
            i32::MIN as int,
            i32::MAX as int,
        ) by {
            assert forall|i: int| 0 <= i < recs.take(k).len() implies rval(q, #[trigger] recs.take(k)[i]) == tenths(
                rec_value(q, recs.take(k)[i]),
            ) by {
                assert(recs.take(k)[i] == recs[i]);
            }
            lemma_aggregate_rec_tenths(q, recs.take(k), rval);
            assert(stats_fit(aggregate_with(q, recs.take(k), |v: Seq<u8>| tenths(v)), i32::MIN as int, i32::MAX as int));
        }
    }
    assert(names_ok(q, recs, rval, code, key_of)) by {
        assert forall|i: int| 0 <= i < recs.len() implies {
            let n = rec_name(q, #[trigger] recs[i]);
            &&& n.len() > 0
            &&& key_of(n) != (0u64, 0u64)
            &&& 0 <= code(key_of(n)) < HOME_SLOTS
            &&& i32::MIN <= rval(q, recs[i]) <= i32::MAX
        } by {
            let r = recs[i];
            assert(record_shape(q, r));
            assert(valid_record(q, r));
            let n = rec_name(q, r);
            assert(n[0] == q[r.0]);
            lemma_key_nonzero(n);
            crate::format::lemma_tenths_range(rec_value(q, r));
            lemma_window_tenths(q, r);
        }
    }
    lemma_fold_some(m0, agg_zero(), q, recs, rval, code, key_of);
    lemma_fold_holds(m0, agg_zero(), q, recs, rval, code, key_of);
}

} // verus!
