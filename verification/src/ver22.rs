//! Whole 64-byte blocks scanned with one `;` and one `\n` bitmask each; a name keyed by
//! its first sixteen bytes (cut at its length modulo 256), a value read from the eight
//! bytes that end it, and statistics kept in an open-addressing table whose home slot is
//! a 20-bit fold of the key.
use vstd::prelude::*;
use crate::bits::{
    le_value, lemma_le_value_bound, lemma_pow256_values, lemma_packed_take16, lemma_truncated_packed, min_int, packed_key, preload_key_u64x2,
    truncate_key_normal, truncated_key,
};
use crate::format::{
    lemma_records_shape, rec_name, rec_value, record_shape, records, tenths, valid_record,
    valid_records, MINUS,
};
use crate::stats::{aggregate_buffer, lemma_aggregate_rec_tenths};
use crate::scan::{paired, scanned, BlockScanner, Scan};
use crate::table::{
    agg_extremes, empty_entry, entry_model, fold_save, fresh_slots, keys_distinct,
    lemma_fold_holds, lemma_fold_none_extends, lemma_fold_push, names_ok, save_from, save_slots,
    slots, slots_hold, wf_slots, Aggregation, EntryModel, HashEntry, HOME_SLOTS, TABLE_SLOTS,
};
use crate::ver20_preload_entry::window_value_34;

pub use crate::ver20_preload_entry::{parse_numbers_batch4, parse_value_u8x8};

verus! {

/// The 128-bit key `h.0 | h.1 << 64`.
pub open spec fn key_u128(h: (u64, u64)) -> u128 {
    (h.0 as u128) | ((h.1 as u128) << 64u128)
}

/// The xor of the seven 20-bit chunks of a 128-bit key: bits 0..20, 20..40, 40..60,
/// 60..80, 80..100, 100..120 and 120..128.
pub open spec fn chunk_xor(k: u128) -> u128 {
    (k & 0xF_FFFFu128) ^ ((k >> 20u128) & 0xF_FFFFu128) ^ ((k >> 40u128) & 0xF_FFFFu128) ^ ((k
        >> 60u128) & 0xF_FFFFu128) ^ ((k >> 80u128) & 0xF_FFFFu128) ^ ((k >> 100u128) & 0xF_FFFFu128)
        ^ ((k >> 120u128) & 0xF_FFFFu128)
}

/// The home slot of a key: the xor of the 20-bit chunks of the 128-bit key, a number
/// below 2^20 (taking it modulo 2^20 changes nothing).
pub open spec fn hash_code_of(h: (u64, u64)) -> int {
    (chunk_xor(key_u128(h)) % 0x10_0000u128) as int
}

/// The home slot of every key is below 2^20.
pub proof fn lemma_hash_code_range(h: (u64, u64))
    ensures
        0 <= hash_code_of(h) < HOME_SLOTS,
{
    let k = key_u128(h);
    assert(chunk_xor(k) < 0x10_0000u128) by (bit_vector);
}

/// The home slot is the xor of the chunks itself.
pub proof fn lemma_hash_code_xor(h: (u64, u64))
    ensures
        hash_code_of(h) == chunk_xor(key_u128(h)) as int,
{
    let k = key_u128(h);
    assert(chunk_xor(k) < 0x10_0000u128) by (bit_vector);
}

/// The key of a name: its first `len % 256` bytes packed, where `len` is its length.
pub open spec fn long_hash_of(name: Seq<u8>) -> (u64, u64) {
    packed_key(name.take(name.len() as int % 256))
}

/// The eight bytes that end the value of record `r`.
pub open spec fn value_window(s: Seq<u8>, r: (int, int, int)) -> Seq<u8> {
    s.subrange(r.2 - 8, r.2)
}

/// The value this variant reads for record `r`.
pub open spec fn window_value(s: Seq<u8>, r: (int, int, int)) -> int {
    window_value_34(value_window(s, r))
}

/// Every record of `recs` ends at byte 8 or later, so its value window lies in the
/// buffer.
pub open spec fn windows_in(recs: Seq<(int, int, int)>) -> bool {
    forall|i: int| 0 <= i < recs.len() ==> (#[trigger] recs[i]).2 >= 8
}

/// The slots after recording the records `recs` of `s` into slots `m0` as this variant
/// does.
pub open spec fn fold_table(m0: Seq<EntryModel>, s: Seq<u8>, recs: Seq<(int, int, int)>) -> Option<
    Seq<EntryModel>,
> {
    fold_save(
        m0,
        s,
        recs,
        |s: Seq<u8>, r: (int, int, int)| window_value(s, r),
        |h: (u64, u64)| hash_code_of(h),
        |n: Seq<u8>| long_hash_of(n),
    )
}

/// Cuts a loaded 16-byte key to a name of `len` bytes as a byte-lane compare with
/// `len as u8` does: bytes from `len % 256` on are zeroed.
pub fn truncate_key_simd(key: (u64, u64), len: usize) -> (r: (u64, u64))
    ensures
        r == truncated_key(key, len as int % 256),
{
    truncate_key_normal(key, len % 256)
}

/// The statistics table: `TABLE_SLOTS` slots, a key probed for from its home slot on.
pub struct AggrHashTable {
    pub linear_hash_table: Vec<HashEntry>,
}

impl AggrHashTable {
    /// The slots of the table as values.
    pub open spec fn slots_of(&self) -> Seq<EntryModel> {
        slots(self.linear_hash_table@)
    }

    /// An empty slot: zero key, no name, statistics [`Aggregation::new`].
    pub fn new_item() -> (e: HashEntry)
        ensures
            entry_model(e) == (EntryModel {
                key_hash: (0u64, 0u64),
                data: agg_extremes(),
                key: Seq::empty(),
            }),
    {
        empty_entry(Aggregation::new())
    }

    /// A table of `TABLE_SLOTS` empty slots.
    pub fn new() -> (t: AggrHashTable)
        ensures
            fresh_slots(t.slots_of(), agg_extremes()),
    {
        AggrHashTable { linear_hash_table: crate::table::fresh_table(Aggregation::new()) }
    }

    /// The home slot of a key.
    pub fn compute_hash_code(long_hash: (u64, u64)) -> (r: usize)
        ensures
            r == hash_code_of(long_hash),
            r < HOME_SLOTS,
    {
        let k: u128 = (long_hash.0 as u128) | ((long_hash.1 as u128) << 64u128);
        let x: u128 = (k & 0xF_FFFFu128) ^ ((k >> 20u128) & 0xF_FFFFu128) ^ ((k >> 40u128) & 0xF_FFFFu128)
            ^ ((k >> 60u128) & 0xF_FFFFu128) ^ ((k >> 80u128) & 0xF_FFFFu128) ^ ((k >> 100u128)
            & 0xF_FFFFu128) ^ ((k >> 120u128) & 0xF_FFFFu128);
        proof {
            lemma_hash_code_xor(long_hash);
        }
        x as usize
    }

    /// Records `value` for the station named `key` with key `long_hash`, probing from
    /// its home slot. False, with the table unchanged, when no slot of the probe holds
    /// the key or is empty, or when the count or sum would overflow.
    pub fn save_item_u64x2(&mut self, key: &[u8], long_hash: (u64, u64), value: i16) -> (ok: bool)
        requires
            old(self).linear_hash_table@.len() == TABLE_SLOTS,
        ensures
            final(self).linear_hash_table@.len() == TABLE_SLOTS,
            ok == save_slots(old(self).slots_of(), hash_code_of(long_hash), key@, long_hash, value as i32) is Some,
            ok ==> final(self).slots_of() == save_slots(
                old(self).slots_of(),
                hash_code_of(long_hash),
                key@,
                long_hash,
                value as i32,
            )->0,
            !ok ==> final(self).linear_hash_table@ == old(self).linear_hash_table@,
    {
        let hash_code = Self::compute_hash_code(long_hash);
        self.slow_save(key, long_hash, value, hash_code)
    }

    /// Records `value` for the station named `key` with key `key_hash`, probing the
    /// 1024 slots from `from` on: the first slot holding the key takes the value, else
    /// the first empty slot takes the station. False, with the table unchanged, when
    /// neither is found or the count or sum would overflow.
    pub fn slow_save(&mut self, key: &[u8], key_hash: (u64, u64), value: i16, from: usize) -> (ok: bool)
        requires
            old(self).linear_hash_table@.len() == TABLE_SLOTS,
            from + 1024 <= TABLE_SLOTS,
        ensures
            final(self).linear_hash_table@.len() == TABLE_SLOTS,
            ok == save_slots(old(self).slots_of(), from as int, key@, key_hash, value as i32) is Some,
            ok ==> final(self).slots_of() == save_slots(
                old(self).slots_of(),
                from as int,
                key@,
                key_hash,
                value as i32,
            )->0,
            !ok ==> final(self).linear_hash_table@ == old(self).linear_hash_table@,
    {
        let ok = save_from(&mut self.linear_hash_table, from, key, key_hash, value as i32);
        proof {
            if ok {
                assert(self.linear_hash_table@.len() == slots(self.linear_hash_table@).len());
            }
        }
        ok
    }
}

/// The eight bytes of `buf` from `start` on.
pub fn preload_val_u8x8(buf: &[u8], start: usize) -> (r: [u8; 8])
    requires
        start + 8 <= buf@.len(),
    ensures
        r@ == buf@.subrange(start as int, start + 8),
{
    let r = [
        buf[start],
        buf[start + 1],
        buf[start + 2],
        buf[start + 3],
        buf[start + 4],
        buf[start + 5],
        buf[start + 6],
        buf[start + 7],
    ];
    assert(r@ =~= buf@.subrange(start as int, start + 8));
    r
}

/// A measurement buffer read block by block.
pub struct FileReader<'a> {
    buffer: &'a [u8],
}

impl<'a> FileReader<'a> {
    /// The bytes the reader reads.
    pub closed spec fn bytes(&self) -> Seq<u8> {
        self.buffer@
    }

    /// A reader over `buffer`.
    pub fn new(buffer: &'a [u8]) -> (r: FileReader<'a>)
        ensures
            r.bytes() == buffer@,
    {
        FileReader { buffer }
    }

    /// The number of bytes.
    pub fn length(&self) -> (n: usize)
        ensures
            n == self.bytes().len(),
    {
        self.buffer.len()
    }

    /// The key of the name `buffer[start..semicolon]`: the sixteen bytes from `start`
    /// on, fewer where the buffer ends, cut to the name's length modulo 256.
    pub fn line_key(&self, start: usize, semicolon: usize) -> (h: (u64, u64))
        requires
            start <= semicolon <= self.bytes().len(),
        ensures
            h == long_hash_of(self.bytes().subrange(start as int, semicolon as int)),
    {
        let buf = self.buffer;
        let preload_key = preload_key_u64x2(buf, start);
        let key_hash = truncate_key_simd(preload_key, semicolon - start);
        proof {
            let name = buf@.subrange(start as int, semicolon as int);
            let x = buf@.subrange(start as int, min_int(start + 16, buf@.len() as int));
            let l = (semicolon - start) as int % 256;
            assert(name.len() == semicolon - start);
            lemma_truncated_packed(x, l);
            assert(key_hash == truncated_key(packed_key(x), l));
            if l <= x.len() {
                assert(x.take(l) =~= name.take(l));
                assert(key_hash == packed_key(name.take(l)));
            } else {
                assert(x.len() == 16);
                assert(x =~= name.take(16));
                lemma_packed_take16(name.take(l), l);
                assert(name.take(l).take(l) =~= name.take(l));
                assert(name.take(l).take(16) =~= name.take(16));
                assert(x.take(x.len() as int) =~= x);
                assert(key_hash == packed_key(x));
            }
        }
        key_hash
    }

    /// Records the line `(start, semicolon, newline)`: its name keyed by the sixteen
    /// bytes from its start cut to its length, its value read from the eight bytes
    /// before its line break.
    pub fn process_single(&self, aggregator: &mut AggrHashTable, line: (usize, usize, usize)) -> (ok: bool)
        requires
            line_fits(self.bytes(), line),
            old(aggregator).linear_hash_table@.len() == TABLE_SLOTS,
        ensures
            ({
                let f = fold_table(old(aggregator).slots_of(), self.bytes(), seq![line_record(line)]);
                &&& final(aggregator).linear_hash_table@.len() == TABLE_SLOTS
                &&& ok == f is Some
                &&& ok ==> final(aggregator).slots_of() == f->0
            }),
    {
        let buf = self.buffer;
        let (start, p1, p2) = line;
        let key_hash = self.line_key(start, p1);
        let val = parse_value_u8x8(preload_val_u8x8(buf, p2 - 8));
        proof {
            lemma_fold_one(old(aggregator).slots_of(), buf@, line_record(line));
        }
        aggregator.save_item_u64x2(&buf[start..p1], key_hash, val)
    }

    /// Records four lines in order: their keys and value windows are loaded first and
    /// the four values read together, then each is recorded as
    /// [`FileReader::process_single`] records it. False as soon as a recording fails.
    pub fn process_batch_4(&self, aggregator: &mut AggrHashTable, lines: [(usize, usize, usize); 4]) -> (ok: bool)
        requires
            forall|k: int| 0 <= k < 4 ==> line_fits(self.bytes(), #[trigger] lines@[k]),
            old(aggregator).linear_hash_table@.len() == TABLE_SLOTS,
        ensures
            ({
                let f = fold_table(old(aggregator).slots_of(), self.bytes(), lines_records(lines@));
                &&& final(aggregator).linear_hash_table@.len() == TABLE_SLOTS
                &&& ok == f is Some
                &&& ok ==> final(aggregator).slots_of() == f->0
            }),
    {
        let buf = self.buffer;
        let l1 = lines[0];
        let l2 = lines[1];
        let l3 = lines[2];
        let l4 = lines[3];
        assert(line_fits(buf@, l1) && line_fits(buf@, l2) && line_fits(buf@, l3) && line_fits(buf@, l4)) by {
            assert(line_fits(self.bytes(), lines@[0]));
            assert(line_fits(self.bytes(), lines@[1]));
            assert(line_fits(self.bytes(), lines@[2]));
            assert(line_fits(self.bytes(), lines@[3]));
        }
        let k1 = self.line_key(l1.0, l1.1);
        let k2 = self.line_key(l2.0, l2.1);
        let k3 = self.line_key(l3.0, l3.1);
        let k4 = self.line_key(l4.0, l4.1);
        let (v1, v2, v3, v4) = parse_numbers_batch4(
            preload_val_u8x8(buf, l1.2 - 8),
            preload_val_u8x8(buf, l2.2 - 8),
            preload_val_u8x8(buf, l3.2 - 8),
            preload_val_u8x8(buf, l4.2 - 8),
        );
        let ghost s = buf@;
        let ghost m0 = aggregator.slots_of();
        let ghost recs = lines_records(lines@);
        let ghost rval = |s: Seq<u8>, r: (int, int, int)| window_value(s, r);
        let ghost code = |h: (u64, u64)| hash_code_of(h);
        let ghost key_of = |n: Seq<u8>| long_hash_of(n);
        proof {
            assert(recs.take(1) =~= seq![line_record(l1)]);
            assert(recs.take(2) =~= recs.take(1).push(line_record(l2)));
            assert(recs.take(3) =~= recs.take(2).push(line_record(l3)));
            assert(recs =~= recs.take(3).push(line_record(l4)));
            lemma_fold_one(m0, s, line_record(l1));
            lemma_fold_push(m0, s, recs.take(1), line_record(l2), rval, code, key_of);
            lemma_fold_push(m0, s, recs.take(2), line_record(l3), rval, code, key_of);
            lemma_fold_push(m0, s, recs.take(3), line_record(l4), rval, code, key_of);
        }
        if !aggregator.save_item_u64x2(&buf[l1.0..l1.1], k1, v1) {
            proof {
                lemma_fold_none_extends(m0, s, recs, 1, rval, code, key_of);
            }
            return false;
        }
        if !aggregator.save_item_u64x2(&buf[l2.0..l2.1], k2, v2) {
            proof {
                lemma_fold_none_extends(m0, s, recs, 2, rval, code, key_of);
            }
            return false;
        }
        if !aggregator.save_item_u64x2(&buf[l3.0..l3.1], k3, v3) {
            proof {
                lemma_fold_none_extends(m0, s, recs, 3, rval, code, key_of);
            }
            return false;
        }
        aggregator.save_item_u64x2(&buf[l4.0..l4.1], k4, v4)
    }

    /// Scans the whole 64-byte blocks of the buffer and records every line found into
    /// `aggregator`, four at a time while four are at hand. True when every line was
    /// recorded; false when a line ends before byte 8, when the bitmasks do not pair a
    /// line's `;` with its `\n`, or when a recording fails. On success the table holds
    /// what recording the records of the scanned part one by one gives.
    pub fn scan_loop(&self, aggregator: &mut AggrHashTable) -> (ok: bool)
        requires
            old(aggregator).linear_hash_table@.len() == TABLE_SLOTS,
        ensures
            ({
                let q = scanned(self.bytes());
                let f = fold_table(old(aggregator).slots_of(), q, records(q));
                &&& ok ==> paired(q) && windows_in(records(q)) && f is Some && final(aggregator).slots_of() == f->0
                &&& paired(q) && windows_in(records(q)) && f is Some ==> ok
            }),
    {
        let buf = self.buffer;
        let ghost q = scanned(buf@);
        let ghost m0 = aggregator.slots_of();
        let ghost rval = |s: Seq<u8>, r: (int, int, int)| window_value(s, r);
        let ghost code = |h: (u64, u64)| hash_code_of(h);
        let ghost key_of = |n: Seq<u8>| long_hash_of(n);
        let mut scanner = BlockScanner::new(buf);
        let mut pending: Vec<(usize, usize, usize)> = Vec::new();
        let ghost mut recorded: Seq<(int, int, int)> = Seq::empty();
        proof {
            assert(recorded + lines_records(pending@) =~= scanner.done@);
        }
        loop
            invariant
                scanner.inv(buf@),
                q == scanned(buf@),
                buf@ == self.bytes(),
                aggregator.linear_hash_table@.len() == TABLE_SLOTS,
                windows_in(scanner.done@),
                pending@.len() < 4,
                scanner.done@ == recorded + lines_records(pending@),
                forall|k: int| 0 <= k < pending@.len() ==> line_fits(q, #[trigger] pending@[k]),
                fold_table(m0, q, recorded) is Some,
                aggregator.slots_of() == fold_table(m0, q, recorded)->0,
                m0 == old(aggregator).slots_of(),
                rval == (|s: Seq<u8>, r: (int, int, int)| window_value(s, r)),
                code == (|h: (u64, u64)| hash_code_of(h)),
                key_of == (|n: Seq<u8>| long_hash_of(n)),
            decreases records(q).len() - scanner.done@.len(),
        {
            let ghost done = scanner.done@;
            match scanner.next_line(buf) {
                Scan::Line(start, p1, p2) => {
                    let ghost r = (start as int, p1 as int, p2 as int);
                    proof {
                        assert(records(q)[done.len() as int] == r);
                        lemma_records_shape(q, 0);
                        assert(record_shape(q, r));
                        assert(records(q).take(done.len() + 1int) =~= done.push(r));
                    }
                    if p2 < 8 {
                        return false;
                    }
                    let ghost before = pending@;
                    pending.push((start, p1, p2));
                    proof {
                        assert(lines_records(pending@) =~= lines_records(before).push(r));
                        assert(scanner.done@ =~= recorded + lines_records(pending@));
                        assert forall|i: int| 0 <= i < scanner.done@.len() implies (
                        #[trigger] scanner.done@[i]).2 >= 8 by {
                            if i < done.len() {
                                assert(scanner.done@[i] == done[i]);
                            }
                        }
                        assert forall|k: int| 0 <= k < pending@.len() implies line_fits(
                            q,
                            #[trigger] pending@[k],
                        ) by {
                            if k < before.len() {
                                assert(pending@[k] == before[k]);
                            }
                        }
                    }
                    if pending.len() == 4 {
                        let batch = [pending[0], pending[1], pending[2], pending[3]];
                        proof {
                            assert(batch@ =~= pending@);
                            lemma_fold_prefix(aggregator.slots_of(), q, buf@, lines_records(batch@));
                            lemma_fold_append_table(m0, q, recorded, lines_records(batch@));
                        }
                        let ok = self.process_batch_4(aggregator, batch);
                        if !ok {
                            proof {
                                assert(records(q).take(scanner.done@.len() as int) =~= scanner.done@);
                                lemma_fold_none_extends(
                                    m0,
                                    q,
                                    records(q),
                                    scanner.done@.len() as int,
                                    rval,
                                    code,
                                    key_of,
                                );
                            }
                            return false;
                        }
                        proof {
                            recorded = recorded + lines_records(pending@);
                        }
                        pending = Vec::new();
                        proof {
                            assert(scanner.done@ =~= recorded + lines_records(pending@));
                        }
                    }
                },
                Scan::End => {
                    proof {
                        assert(records(q) =~= done);
                    }
                    let mut k: usize = 0;
                    while k < pending.len()
                        invariant
                            k <= pending@.len() < 4,
                            q == scanned(buf@),
                            buf@ == self.bytes(),
                            aggregator.linear_hash_table@.len() == TABLE_SLOTS,
                            records(q) == recorded + lines_records(pending@),
                            forall|j: int| 0 <= j < pending@.len() ==> line_fits(q, #[trigger] pending@[j]),
                            fold_table(m0, q, recorded + lines_records(pending@).take(k as int)) is Some,
                            aggregator.slots_of() == fold_table(
                                m0,
                                q,
                                recorded + lines_records(pending@).take(k as int),
                            )->0,
                            windows_in(records(q)),
                            m0 == old(aggregator).slots_of(),
                            rval == (|s: Seq<u8>, r: (int, int, int)| window_value(s, r)),
                            code == (|h: (u64, u64)| hash_code_of(h)),
                            key_of == (|n: Seq<u8>| long_hash_of(n)),
                        decreases pending@.len() - k,
                    {
                        let line = pending[k];
                        let ghost before = recorded + lines_records(pending@).take(k as int);
                        proof {
                            assert(line_fits(q, pending@[k as int]));
                            lemma_fold_prefix(aggregator.slots_of(), q, buf@, seq![line_record(line)]);
                            lemma_fold_append_table(m0, q, before, seq![line_record(line)]);
                            assert(recorded + lines_records(pending@).take(k + 1) =~= before + seq![line_record(line)]);
                        }
                        let ok = self.process_single(aggregator, line);
                        if !ok {
                            proof {
                                assert(records(q).take(before.len() + 1int) =~= before + seq![line_record(line)]);
                                lemma_fold_none_extends(m0, q, records(q), before.len() + 1int, rval, code, key_of);
                            }
                            return false;
                        }
                        k += 1;
                    }
                    proof {
                        assert(lines_records(pending@).take(k as int) =~= lines_records(pending@));
                    }
                    return true;
                },
                Scan::Stuck => {
                    return false;
                },
            }
        }
    }
}

/// A line as a record triple.
pub open spec fn line_record(l: (usize, usize, usize)) -> (int, int, int) {
    (l.0 as int, l.1 as int, l.2 as int)
}

/// Lines as record triples.
pub open spec fn lines_records(ls: Seq<(usize, usize, usize)>) -> Seq<(int, int, int)> {
    ls.map_values(|l: (usize, usize, usize)| line_record(l))
}

/// A line whose name and value window lie in `s`.
pub open spec fn line_fits(s: Seq<u8>, l: (usize, usize, usize)) -> bool {
    l.0 <= l.1 < l.2 <= s.len() && l.2 >= 8
}

/// Recording one record is one probe.
pub proof fn lemma_fold_one(m: Seq<EntryModel>, s: Seq<u8>, r: (int, int, int))
    ensures
        fold_table(m, s, seq![r]) == save_slots(
            m,
            hash_code_of(long_hash_of(rec_name(s, r))),
            rec_name(s, r),
            long_hash_of(rec_name(s, r)),
            window_value(s, r) as i32,
        ),
{
    let rval = |s: Seq<u8>, r: (int, int, int)| window_value(s, r);
    let code = |h: (u64, u64)| hash_code_of(h);
    let key_of = |n: Seq<u8>| long_hash_of(n);
    assert(seq![r].drop_last() =~= Seq::<(int, int, int)>::empty());
    assert(fold_save(m, s, Seq::<(int, int, int)>::empty(), rval, code, key_of) == Some(m));
    assert(seq![r].last() == r);
}

/// Recording `a` and then `b` is recording `a + b`.
pub proof fn lemma_fold_append_table(m0: Seq<EntryModel>, s: Seq<u8>, a: Seq<(int, int, int)>, b: Seq<(int, int, int)>)
    ensures
        fold_table(m0, s, a + b) == (match fold_table(m0, s, a) {
            None => None,
            Some(m) => fold_table(m, s, b),
        }),
{
    crate::table::lemma_fold_append(
        m0,
        s,
        a,
        b,
        |s: Seq<u8>, r: (int, int, int)| window_value(s, r),
        |h: (u64, u64)| hash_code_of(h),
        |n: Seq<u8>| long_hash_of(n),
    );
}

/// Records whose names and windows lie in `q`, a prefix of `s`, are recorded alike
/// from either.
pub proof fn lemma_fold_prefix(m: Seq<EntryModel>, q: Seq<u8>, s: Seq<u8>, recs: Seq<(int, int, int)>)
    requires
        q.len() <= s.len(),
        q == s.take(q.len() as int),
        forall|i: int| 0 <= i < recs.len() ==> {
            let r = #[trigger] recs[i];
            0 <= r.0 <= r.1 < r.2 <= q.len() && r.2 >= 8
        },
    ensures
        fold_table(m, q, recs) == fold_table(m, s, recs),
    decreases recs.len(),
{
    if recs.len() > 0 {
        let prev = recs.drop_last();
        assert forall|i: int| 0 <= i < prev.len() implies {
            let r = #[trigger] prev[i];
            0 <= r.0 <= r.1 < r.2 <= q.len() && r.2 >= 8
        } by {
            assert(prev[i] == recs[i]);
        }
        lemma_fold_prefix(m, q, s, prev);
        let r = recs[recs.len() - 1];
        assert(rec_name(q, r) =~= rec_name(s, r));
        assert(value_window(q, r) =~= value_window(s, r));
    }
}

/// A three-byte value `d.d` shares its window with the last byte of its name, which the
/// window reads as a sign: that byte is not `-`.
pub open spec fn sign_clear(s: Seq<u8>, r: (int, int, int)) -> bool {
    rec_value(s, r).len() == 3 ==> s[r.1 - 1] != MINUS
}

/// The window of a record written as the format says reads as its tenths, when the
/// record ends at byte 8 or later and its sign is clear.
pub proof fn lemma_window_tenths(s: Seq<u8>, r: (int, int, int))
    requires
        record_shape(s, r),
        valid_record(s, r),
        r.2 >= 8,
        sign_clear(s, r),
    ensures
        window_value(s, r) == tenths(rec_value(s, r)),
{
    let v = rec_value(s, r);
    let w = value_window(s, r);
    let n = v.len() as int;
    assert(n == r.2 - r.1 - 1);
    assert forall|k: int| 0 <= k < n implies #[trigger] w[8 - n + k] == v[k] by {}
    assert(w[7 - n] == s[r.1]);
    if n == 3 {
        assert(w[3] == s[r.1 - 1]);
    }
}

/// A name of 1 to 255 bytes that does not start with a zero byte has a non-zero key.
pub proof fn lemma_key_nonzero(name: Seq<u8>)
    requires
        0 < name.len() < 256,
        name[0] != 0,
    ensures
        long_hash_of(name) != (0u64, 0u64),
{
    assert(name.take(name.len() as int % 256) =~= name);
    let a = name.subrange(0, min_int(name.len() as int, 8));
    lemma_le_value_bound(a);
    crate::bits::lemma_pow_mono(a.len(), 8);
    lemma_pow256_values();
    assert(le_value(a) >= a[0]);
}

/// Every scanned record of `s` ends at byte 8 or later, has a name shorter than 256
/// bytes, and a clear sign.
pub open spec fn windows_fit(s: Seq<u8>) -> bool {
    forall|i: int|
        0 <= i < records(s).len() ==> {
            let r = #[trigger] records(s)[i];
            &&& r.2 >= 8
            &&& r.1 - r.0 < 256
            &&& sign_clear(s, r)
        }
}

/// On a scanned part whose records are written as the format says, end at byte 8 or
/// later, have names shorter than 256 bytes and clear signs, and whose distinct names
/// have distinct keys, a fresh table that records every record successfully holds
/// exactly the minimum, maximum, count and sum of every station of the scanned part,
/// each station once, within 1024 slots of its home slot.
pub proof fn lemma_scan_stats(q: Seq<u8>, m0: Seq<EntryModel>)
    requires
        fresh_slots(m0, agg_extremes()),
        valid_records(q),
        windows_fit(q),
        keys_distinct(q, records(q), |n: Seq<u8>| long_hash_of(n)),
        fold_table(m0, q, records(q)) is Some,
    ensures
        wf_slots(
            fold_table(m0, q, records(q))->0,
            |h: (u64, u64)| hash_code_of(h),
            |n: Seq<u8>| long_hash_of(n),
            agg_extremes(),
        ),
        slots_hold(fold_table(m0, q, records(q))->0, aggregate_buffer(q)),
{
    let recs = records(q);
    let rval = |s: Seq<u8>, r: (int, int, int)| window_value(s, r);
    let code = |h: (u64, u64)| hash_code_of(h);
    let key_of = |n: Seq<u8>| long_hash_of(n);
    lemma_records_shape(q, 0);
    assert forall|i: int| 0 <= i < recs.len() implies rval(q, #[trigger] recs[i]) == tenths(
        rec_value(q, recs[i]),
    ) by {
        assert(record_shape(q, recs[i]));
        assert(valid_record(q, recs[i]));
        lemma_window_tenths(q, recs[i]);
    }
    assert(names_ok(q, recs, rval, code, key_of)) by {
        assert forall|i: int| 0 <= i < recs.len() implies {
            let n = rec_name(q, #[trigger] recs[i]);
            &&& n.len() > 0
            &&& key_of(n) != (0u64, 0u64)
            &&& 0 <= code(key_of(n)) < HOME_SLOTS
            &&& i32::MIN <= rval(q, recs[i]) <= i32::MAX
        } by {
            let r = recs[i];
            assert(record_shape(q, r));
            assert(valid_record(q, r));
            let n = rec_name(q, r);
            assert(n[0] == q[r.0]);
            lemma_key_nonzero(n);
            lemma_hash_code_range(long_hash_of(n));
        }
    }
    lemma_fold_holds(m0, agg_extremes(), q, recs, rval, code, key_of);
    lemma_aggregate_rec_tenths(q, recs, rval);
}

/// The number of stations the table holds, and the number of them whose slot before
/// holds a key with a non-zero first half.
pub fn check_result(aggr: &AggrHashTable) -> (r: (usize, usize))
    ensures
        r.0 == crate::table::occupied_count(aggr.slots_of()),
        r.1 == crate::table::displaced_count(aggr.slots_of()),
{
    crate::table::count_entries(&aggr.linear_hash_table)
}

/// On a buffer made of valid lines, when the scanned part holds fewer than 1024
/// stations, distinct names have distinct keys, and the counts and sums in tenths fit
/// their widths after every line, a scan into a fresh table owes success: the bitmasks
/// pair every line, every recording succeeds, and the table then holds exactly the
/// minimum, maximum, count and sum of every station of the scanned part.
pub proof fn lemma_valid_scan(s: Seq<u8>, m0: Seq<EntryModel>)
    requires
        fresh_slots(m0, agg_extremes()),
        crate::format::valid_buffer(s),
        windows_fit(scanned(s)),
        keys_distinct(scanned(s), records(scanned(s)), |n: Seq<u8>| long_hash_of(n)),
        crate::stats::fits_throughout(
            scanned(s),
            records(scanned(s)),
            |v: Seq<u8>| tenths(v),
            i32::MIN as int,
            i32::MAX as int,
        ),
        aggregate_buffer(scanned(s)).dom().len() < 1024,
    ensures
        paired(scanned(s)),
        windows_in(records(scanned(s))),
        fold_table(m0, scanned(s), records(scanned(s))) is Some,
        slots_hold(fold_table(m0, scanned(s), records(scanned(s)))->0, aggregate_buffer(scanned(s))),
{
    let q = scanned(s);
    let recs = records(q);
    let rval = |s: Seq<u8>, r: (int, int, int)| window_value(s, r);
    let code = |h: (u64, u64)| hash_code_of(h);
    let key_of = |n: Seq<u8>| long_hash_of(n);
    crate::scan::lemma_valid_paired(s);
    lemma_records_shape(q, 0);
    assert forall|i: int| 0 <= i < recs.len() implies rval(q, #[trigger] recs[i]) == tenths(
        rec_value(q, recs[i]),
    ) by {
        assert(record_shape(q, recs[i]));
        assert(valid_record(q, recs[i]));
        lemma_window_tenths(q, recs[i]);
    }
    lemma_aggregate_rec_tenths(q, recs, rval);
    assert(crate::table::fits_rec_throughout(q, recs, rval)) by {
        assert forall|k: int| 0 <= k <= recs.len() implies crate::stats::stats_fit(
            #[trigger] crate::stats::aggregate_rec(q, recs.take(k), rval),
            i32::MIN as int,
            i32::MAX as int,
        ) by {
            assert forall|i: int| 0 <= i < recs.take(k).len() implies rval(q, #[trigger] recs.take(k)[i])
                == tenths(rec_value(q, recs.take(k)[i])) by {
                assert(recs.take(k)[i] == recs[i]);
            }
            lemma_aggregate_rec_tenths(q, recs.take(k), rval);
            assert(crate::stats::stats_fit(
                crate::stats::aggregate_with(q, recs.take(k), |v: Seq<u8>| tenths(v)),
                i32::MIN as int,
                i32::MAX as int,
            ));
        }
    }
    assert(names_ok(q, recs, rval, code, key_of)) by {
        assert forall|i: int| 0 <= i < recs.len() implies {
            let n = rec_name(q, #[trigger] recs[i]);
            &&& n.len() > 0
            &&& key_of(n) != (0u64, 0u64)
            &&& 0 <= code(key_of(n)) < HOME_SLOTS
            &&& i32::MIN <= rval(q, recs[i]) <= i32::MAX
        } by {
            let r = recs[i];
            assert(record_shape(q, r));
            assert(valid_record(q, r));
            let n = rec_name(q, r);
            assert(n[0] == q[r.0]);
            lemma_key_nonzero(n);
            lemma_hash_code_range(long_hash_of(n));
            crate::format::lemma_tenths_range(rec_value(q, r));
            lemma_window_tenths(q, r);
        }
    }
    crate::table::lemma_fold_some(m0, agg_extremes(), q, recs, rval, code, key_of);
    lemma_fold_holds(m0, agg_extremes(), q, recs, rval, code, key_of);
}

} // verus!
