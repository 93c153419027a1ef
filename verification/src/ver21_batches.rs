//! Which batches the scan of [`crate::ver21`] forms. The lines of a 64-byte block are
//! read four at a time while four are left, the rest one by one; on the whole blocks of
//! a buffer of valid lines each batch is four consecutive records of one block, and the
//! scan records every record once, as recording them one by one would.
use vstd::prelude::*;
use crate::format::{
    lemma_records_shape, rec_value, record_shape, records, tenths, valid_buffer, valid_record, NEWLINE,
};
use crate::layout::{
    count_below, increasing, lemma_count_below, lemma_count_below_is, lemma_count_below_mono,
    lemma_count_below_step, lemma_records_take, marks, newline_at,
};
use crate::scan::{paired, scanned};
use crate::stats::{
    aggregate_buffer, aggregate_rec, aggregate_with, fits_throughout, lemma_aggregate_rec_tenths, stats_fit,
};
use crate::format::rec_name;
use crate::table::{
    agg_zero, first_stop, fits_rec_throughout, fold_save, fresh_slots, keys_distinct, lemma_fold_holds, lemma_fold_some,
    names_ok, slots_hold, stops, EntryModel, HOME_SLOTS, TABLE_SLOTS,
};
use crate::ver22::hash_code_of;
use crate::ver20::{count_newlines, in_batch};
use crate::ver21::{quad_step, rec_val, run_records};
use crate::ver22::long_hash_of;

verus! {

/// On the whole blocks of a buffer, counting line breaks between `b` and `e` counts the
/// records whose line break lies between them.
pub proof fn lemma_count_newlines(s: Seq<u8>, nl: Seq<int>, w: int, b: int, e: int)
    requires
        increasing(nl),
        marks(s, nl, NEWLINE),
        0 <= b <= e <= w <= s.len(),
    ensures
        count_newlines(s.take(w), b, e) == count_below(nl, e) - count_below(nl, b),
    decreases e - b,
{
    if b < e {
        lemma_count_newlines(s, nl, w, b, e - 1);
        lemma_count_below_step(nl, e - 1);
        assert(s.take(w)[e - 1] == s[e - 1]);
        if s[e - 1] == NEWLINE {
            assert(exists|i: int| 0 <= i < nl.len() && nl[i] == e - 1);
        } else if exists|i: int| 0 <= i < nl.len() && nl[i] == e - 1 {
            let i = choose|i: int| 0 <= i < nl.len() && nl[i] == e - 1;
            assert(s[nl[i]] == NEWLINE);
        }
    }
}

/// Where the whole 64-byte blocks of `s` end.
pub open spec fn scan_end(s: Seq<u8>) -> int {
    s.len() as int / 64 * 64
}

/// The facts about the records of the whole blocks of a buffer of valid lines that the
/// lemmas below use: they are the records of the buffer whose line break lies in the
/// whole blocks, and the line breaks of the buffer are exactly those of its records.
pub open spec fn scan_layout(s: Seq<u8>, nl: Seq<int>) -> bool {
    &&& nl == newline_at(records(s))
    &&& increasing(nl)
    &&& marks(s, nl, NEWLINE)
    &&& scanned(s) == s.take(scan_end(s))
    &&& 0 <= scan_end(s) <= s.len()
    &&& scan_end(s) % 64 == 0
    &&& records(scanned(s)) == records(s).take(count_below(nl, scan_end(s)))
    &&& count_below(nl, scan_end(s)) <= records(s).len()
}

/// A buffer of valid lines has the scan layout.
pub proof fn lemma_scan_layout(s: Seq<u8>)
    requires
        valid_buffer(s),
    ensures
        scan_layout(s, newline_at(records(s))),
{
    let nl = newline_at(records(s));
    let w = scan_end(s);
    crate::layout::lemma_valid_layout(s);
    assert(0 <= w <= s.len() && w % 64 == 0) by (nonlinear_arith)
        requires
            w == s.len() as int / 64 * 64,
    ;
    let k = lemma_records_take(s, w, 0);
    assert forall|j: int| 0 <= j < k implies nl[j] < w by {
        assert(records(s)[j].2 < w);
    }
    assert forall|j: int| k <= j < nl.len() implies nl[j] >= w by {
        if j > k {
            assert(nl[k] < nl[j]);
        }
    }
    lemma_count_below_is(nl, w, k);
}

/// The block of record `i` of the scanned part: it lies among the records of its block,
/// its position there counts the records of the block before it, and the block's line
/// breaks are its records'.
pub proof fn lemma_block_of(s: Seq<u8>, nl: Seq<int>, i: int)
    requires
        scan_layout(s, nl),
        0 <= i < records(scanned(s)).len(),
    ensures
        ({
            let q = scanned(s);
            let r = records(q)[i];
            let b = r.2 / 64 * 64;
            &&& r == records(s)[i]
            &&& r.2 == nl[i]
            &&& 0 <= b
            &&& b + 64 <= scan_end(s)
            &&& count_below(nl, b) <= i < count_below(nl, b + 64) <= records(q).len()
            &&& count_newlines(q, b, r.2) == i - count_below(nl, b)
            &&& count_newlines(q, b, b + 64) == count_below(nl, b + 64) - count_below(nl, b)
        }),
{
    let q = scanned(s);
    let w = scan_end(s);
    let k = count_below(nl, w);
    lemma_count_below(nl, w);
    let r = records(q)[i];
    assert(records(q) == records(s).take(k));
    assert(records(s).take(k)[i] == records(s)[i]);
    assert(nl[i] == records(s)[i].2);
    lemma_count_below(nl, w);
    assert(r.2 < w);
    assert(0 <= r.2) by {
        assert(0 <= nl[i]);
    }
    let b = r.2 / 64 * 64;
    assert(0 <= b <= r.2 && b + 64 <= w) by (nonlinear_arith)
        requires
            b == r.2 / 64 * 64,
            0 <= r.2 < w,
            w % 64 == 0,
    ;
    lemma_count_newlines(s, nl, w, b, r.2);
    lemma_count_newlines(s, nl, w, b, b + 64);
    assert forall|j: int| 0 <= j < i implies nl[j] < r.2 by {
        assert(nl[j] < nl[i]);
    }
    assert forall|j: int| i <= j < nl.len() implies nl[j] >= r.2 by {
        if j > i {
            assert(nl[i] < nl[j]);
        }
    }
    lemma_count_below_is(nl, r.2, i);
    lemma_count_below_mono(nl, b, r.2);
    lemma_count_below_mono(nl, b + 64, w);
    lemma_count_below(nl, b + 64);
}

/// The position of record `r` among the line breaks of its block.
pub open spec fn line_pos(q: Seq<u8>, r: (int, int, int)) -> int {
    count_newlines(q, r.2 / 64 * 64, r.2) as int
}

/// The number of line breaks of the block of record `r`.
pub open spec fn block_count(q: Seq<u8>, r: (int, int, int)) -> int {
    count_newlines(q, r.2 / 64 * 64, r.2 / 64 * 64 + 64) as int
}

/// Two consecutive records of the scanned part lie in one block, one position apart, or
/// the first is the last of its block and the second the first of the next.
pub proof fn lemma_next_in_scan(s: Seq<u8>, nl: Seq<int>, i: int)
    requires
        scan_layout(s, nl),
        0 < i < records(scanned(s)).len(),
    ensures
        ({
            let q = scanned(s);
            let p = records(q)[i - 1];
            let r = records(q)[i];
            ||| (p.2 / 64 == r.2 / 64 && line_pos(q, r) == line_pos(q, p) + 1 && block_count(q, r) == block_count(q, p))
            ||| (line_pos(q, r) == 0 && line_pos(q, p) == block_count(q, p) - 1)
        }),
{
    let q = scanned(s);
    lemma_block_of(s, nl, i - 1);
    lemma_block_of(s, nl, i);
    let p = records(q)[i - 1];
    let r = records(q)[i];
    let b1 = p.2 / 64 * 64;
    let b2 = r.2 / 64 * 64;
    lemma_count_below(nl, scan_end(s));
    assert(nl.len() == records(s).len());
    assert(nl[i - 1] < nl[i]);
    assert(b1 <= b2) by (nonlinear_arith)
        requires
            b1 == p.2 / 64 * 64,
            b2 == r.2 / 64 * 64,
            p.2 < r.2,
    ;
    if b1 == b2 {
        assert(p.2 / 64 == r.2 / 64) by (nonlinear_arith)
            requires
                p.2 / 64 * 64 == r.2 / 64 * 64,
        ;
    } else {
        assert(b1 + 64 <= b2 && p.2 < b1 + 64 && r.2 >= b2) by (nonlinear_arith)
            requires
                b1 == p.2 / 64 * 64,
                b2 == r.2 / 64 * 64,
                b1 < b2,
                p.2 >= 0,
        ;
        lemma_count_below(nl, b2);
        lemma_count_below(nl, b1 + 64);
        if count_below(nl, b2) < i {
            let c = count_below(nl, b2);
            if c < i - 1 {
                assert(nl[c] < nl[i - 1]);
            }
        }
        if count_below(nl, b1 + 64) > i {
            assert(nl[i] < b1 + 64);
        }
    }
}

/// The first record of the scanned part is the first of its block, and the last the
/// last of its block.
pub proof fn lemma_ends_of_scan(s: Seq<u8>, nl: Seq<int>)
    requires
        scan_layout(s, nl),
        records(scanned(s)).len() > 0,
    ensures
        line_pos(scanned(s), records(scanned(s))[0]) == 0,
        line_pos(scanned(s), records(scanned(s)).last()) == block_count(scanned(s), records(scanned(s)).last()) - 1,
{
    let q = scanned(s);
    let n = records(q).len() as int;
    lemma_block_of(s, nl, 0);
    lemma_block_of(s, nl, n - 1);
}

/// How many records of a batch are waiting after the first `i` records of `recs`: the
/// records read in a batch since the last complete batch.
pub open spec fn pend(q: Seq<u8>, recs: Seq<(int, int, int)>, i: int) -> int {
    if i <= 0 {
        0
    } else if in_batch(q, recs[i - 1]) {
        (line_pos(q, recs[i - 1]) + 1) % 4
    } else {
        0
    }
}

/// A record read in a batch comes at its place in the batch, and any other finds no
/// batch open; a record that completes a batch follows the three others of it.
pub proof fn lemma_pend(s: Seq<u8>, nl: Seq<int>, i: int)
    requires
        scan_layout(s, nl),
        0 <= i < records(scanned(s)).len(),
    ensures
        ({
            let q = scanned(s);
            let recs = records(q);
            let r = recs[i];
            &&& in_batch(q, r) ==> pend(q, recs, i) == line_pos(q, r) % 4
            &&& !in_batch(q, r) ==> pend(q, recs, i) == 0
            &&& in_batch(q, r) && pend(q, recs, i) == 3 ==> i >= 3 && in_batch(q, recs[i - 3]) && line_pos(
                q,
                recs[i - 3],
            ) % 4 == 0
        }),
{
    let q = scanned(s);
    let recs = records(q);
    let r = recs[i];
    if i == 0 {
        lemma_ends_of_scan(s, nl);
    } else {
        lemma_next_in_scan(s, nl, i);
        let p = recs[i - 1];
        if in_batch(q, r) && line_pos(q, r) % 4 == 3 {
            assert(line_pos(q, r) >= 3);
            assert(i >= 3) by {
                lemma_block_of(s, nl, i);
                lemma_count_below(nl, r.2 / 64 * 64);
            }
            lemma_next_in_scan(s, nl, i - 1);
            lemma_next_in_scan(s, nl, i - 2);
            assert(i - 3 >= 0);
        }
    }
}

/// No batch is open after the last record.
pub proof fn lemma_pend_end(s: Seq<u8>, nl: Seq<int>)
    requires
        scan_layout(s, nl),
    ensures
        pend(scanned(s), records(scanned(s)), records(scanned(s)).len() as int) == 0,
{
    if records(scanned(s)).len() > 0 {
        lemma_ends_of_scan(s, nl);
    }
}

/// The slots after recording `recs` of `q` into `m0` one by one as this variant reads
/// each record.
pub open spec fn fold_recs(m0: Seq<EntryModel>, q: Seq<u8>, recs: Seq<(int, int, int)>) -> Option<Seq<EntryModel>> {
    fold_save(
        m0,
        q,
        recs,
        |s: Seq<u8>, r: (int, int, int)| rec_val(s, r) as int,
        |h: (u64, u64)| hash_code_of(h),
        |n: Seq<u8>| long_hash_of(n),
    )
}

/// Recording keeps the number of slots.
proof fn lemma_fold_len(
    m0: Seq<EntryModel>,
    s: Seq<u8>,
    recs: Seq<(int, int, int)>,
    rval: spec_fn(Seq<u8>, (int, int, int)) -> int,
    code: spec_fn((u64, u64)) -> int,
    key_of: spec_fn(Seq<u8>) -> (u64, u64),
)
    requires
        fold_save(m0, s, recs, rval, code, key_of) is Some,
    ensures
        fold_save(m0, s, recs, rval, code, key_of)->0.len() == m0.len(),
    decreases recs.len(),
{
    if recs.len() > 0 {
        lemma_fold_len(m0, s, recs.drop_last(), rval, code, key_of);
        let m = fold_save(m0, s, recs.drop_last(), rval, code, key_of)->0;
        let r = recs.last();
        let n = rec_name(s, r);
        let from = code(key_of(n));
        lemma_first_stop_range(m, key_of(n), from, from);
    }
}

/// Where a probe stops lies in the table.
proof fn lemma_first_stop_range(m: Seq<EntryModel>, h: (u64, u64), from: int, i: int)
    ensures
        first_stop(m, h, from, i) == -1 || 0 <= first_stop(m, h, from, i) < m.len(),
    decreases from + 1024 - i,
{
    if 0 <= i < m.len() && i < from + 1024 && !stops(m[i], h) {
        lemma_first_stop_range(m, h, from, i + 1);
    }
}

/// Recording a batch of four records after the records `pre` is recording the four one
/// by one after them.
proof fn lemma_quad_fold(m0: Seq<EntryModel>, q: Seq<u8>, pre: Seq<(int, int, int)>, rs: Seq<(int, int, int)>)
    requires
        rs.len() == 4,
        fold_recs(m0, q, pre) is Some,
        fold_recs(m0, q, pre)->0.len() == TABLE_SLOTS,
    ensures
        quad_step(fold_recs(m0, q, pre)->0, q, rs) == fold_recs(m0, q, pre + rs),
{
    let rval = |s: Seq<u8>, r: (int, int, int)| rec_val(s, r) as int;
    let code = |h: (u64, u64)| hash_code_of(h);
    let key_of = |n: Seq<u8>| long_hash_of(n);
    let m = fold_recs(m0, q, pre)->0;
    reveal(quad_step);
    crate::table::lemma_fold_append(m0, q, pre, rs, rval, code, key_of);
    let d0 = Seq::<(int, int, int)>::empty();
    crate::table::lemma_fold_push(m, q, d0, rs[0], rval, code, key_of);
    crate::table::lemma_fold_push(m, q, d0.push(rs[0]), rs[1], rval, code, key_of);
    crate::table::lemma_fold_push(m, q, d0.push(rs[0]).push(rs[1]), rs[2], rval, code, key_of);
    crate::table::lemma_fold_push(m, q, d0.push(rs[0]).push(rs[1]).push(rs[2]), rs[3], rval, code, key_of);
    assert(d0.push(rs[0]).push(rs[1]).push(rs[2]).push(rs[3]) =~= rs);
}

/// One more record of the scan, from the state after the first `k` records.
proof fn lemma_run_step(m0: Seq<EntryModel>, q: Seq<u8>, recs: Seq<(int, int, int)>, k: int)
    requires
        0 <= k < recs.len(),
        m0.len() == TABLE_SLOTS,
        in_batch(q, recs[k]) ==> pend(q, recs, k) == line_pos(q, recs[k]) % 4,
        !in_batch(q, recs[k]) ==> pend(q, recs, k) == 0,
        in_batch(q, recs[k]) && pend(q, recs, k) == 3 ==> k >= 3,
        0 <= k - pend(q, recs, k) <= k,
        fold_recs(m0, q, recs.take(k - pend(q, recs, k))) is Some,
        run_records(m0, q, recs.take(k)) == Some(
            (fold_recs(m0, q, recs.take(k - pend(q, recs, k)))->0, recs.subrange(k - pend(q, recs, k), k)),
        ),
        fold_recs(m0, q, recs.take(k + 1)) is Some,
    ensures
        ({
            let i = k + 1;
            let j = i - pend(q, recs, i);
            &&& 0 <= j <= i
            &&& fold_recs(m0, q, recs.take(j)) is Some
            &&& run_records(m0, q, recs.take(i)) == Some((fold_recs(m0, q, recs.take(j))->0, recs.subrange(j, i)))
        }),
{
    let rval = |s: Seq<u8>, r: (int, int, int)| rec_val(s, r) as int;
    let code = |h: (u64, u64)| hash_code_of(h);
    let key_of = |n: Seq<u8>| long_hash_of(n);
    let i = k + 1;
    let j = k - pend(q, recs, k);
    let m = fold_recs(m0, q, recs.take(j))->0;
    let p = recs.subrange(j, k);
    let r = recs[k];
    assert(recs.take(i).drop_last() =~= recs.take(k));
    assert(recs.take(i).last() == r);
    lemma_fold_len(m0, q, recs.take(j), rval, code, key_of);
    if in_batch(q, r) {
        if pend(q, recs, k) == 3 {
            let rs = p.push(r);
            assert(rs =~= recs.subrange(k - 3, k + 1));
            assert(recs.take(i) =~= recs.take(j) + rs);
            lemma_quad_fold(m0, q, recs.take(j), rs);
            assert(recs.subrange(i, i) =~= Seq::<(int, int, int)>::empty());
        } else {
            assert(recs.subrange(j, i) =~= p.push(r));
        }
    } else {
        crate::table::lemma_fold_push(m0, q, recs.take(k), r, rval, code, key_of);
        assert(recs.take(k).push(r) =~= recs.take(i));
        assert(recs.subrange(i, i) =~= Seq::<(int, int, int)>::empty());
        assert(recs.subrange(k, k) =~= Seq::<(int, int, int)>::empty());
    }
}

/// After the first `i` records, the scan has recorded those before the open batch one
/// by one and holds the open batch's records.
proof fn lemma_run_prefix(s: Seq<u8>, nl: Seq<int>, m0: Seq<EntryModel>, i: int)
    requires
        scan_layout(s, nl),
        0 <= i <= records(scanned(s)).len(),
        m0.len() == TABLE_SLOTS,
        fold_recs(m0, scanned(s), records(scanned(s))) is Some,
    ensures
        ({
            let q = scanned(s);
            let recs = records(q);
            let j = i - pend(q, recs, i);
            &&& 0 <= j <= i
            &&& fold_recs(m0, q, recs.take(j)) is Some
            &&& run_records(m0, q, recs.take(i)) == Some((fold_recs(m0, q, recs.take(j))->0, recs.subrange(j, i)))
        }),
    decreases i,
{
    let q = scanned(s);
    let recs = records(q);
    if i == 0 {
        assert(recs.take(0) =~= Seq::<(int, int, int)>::empty());
        assert(recs.subrange(0, 0) =~= Seq::<(int, int, int)>::empty());
    } else {
        let k = i - 1;
        lemma_run_prefix(s, nl, m0, k);
        lemma_pend(s, nl, k);
        if fold_recs(m0, q, recs.take(i)) is None {
            crate::table::lemma_fold_none_extends(
                m0,
                q,
                recs,
                i,
                |s: Seq<u8>, r: (int, int, int)| rec_val(s, r) as int,
                |h: (u64, u64)| hash_code_of(h),
                |n: Seq<u8>| long_hash_of(n),
            );
        }
        lemma_run_step(m0, q, recs, k);
    }
}

/// A record written as the format says, ending at byte 8 or later with a clear sign, is
/// read by this variant as its value in tenths: bytes 5 and 6 of its window belong to
/// the value's last three bytes `d.d` and hold no `-`.
pub proof fn lemma_rec_val_tenths(q: Seq<u8>, r: (int, int, int))
    requires
        record_shape(q, r),
        valid_record(q, r),
        r.2 >= 8,
        crate::ver22::sign_clear(q, r),
    ensures
        rec_val(q, r) == tenths(rec_value(q, r)),
{
    crate::ver22::lemma_window_tenths(q, r);
    crate::format::lemma_tenths_range(rec_value(q, r));
    let v = rec_value(q, r);
    let w = q.subrange(r.2 - 8, r.2);
    let n = v.len() as int;
    crate::format::lemma_value_len(v);
    assert(3 <= n <= 5);
    assert(w[5] == v[n - 3]);
    assert(w[6] == v[n - 2]);
}

/// On a buffer made of valid lines whose scanned records end at byte 8 or later, have
/// names shorter than 256 bytes and clear signs ([`crate::ver22::windows_fit`]),
/// distinct keys for distinct names, counts and sums in tenths that fit `i32` after
/// every line, and fewer than 1024 stations, the scan of [`crate::ver21`] into a fresh
/// table records every line, leaves no batch open, and the table then holds exactly the
/// minimum, maximum, count and sum of every station of the scanned part.
pub proof fn lemma_valid_scan(s: Seq<u8>, m0: Seq<EntryModel>)
    requires
        fresh_slots(m0, agg_zero()),
        valid_buffer(s),
        crate::ver22::windows_fit(scanned(s)),
        keys_distinct(scanned(s), records(scanned(s)), |n: Seq<u8>| long_hash_of(n)),
        fits_throughout(scanned(s), records(scanned(s)), |v: Seq<u8>| tenths(v), i32::MIN as int, i32::MAX as int),
        aggregate_buffer(scanned(s)).dom().len() < 1024,
    ensures
        paired(scanned(s)),
        run_records(m0, scanned(s), records(scanned(s))) matches Some((m, p)) && p.len() == 0 && slots_hold(
            m,
            aggregate_buffer(scanned(s)),
        ),
{
    let q = scanned(s);
    let recs = records(q);
    let rval = |s: Seq<u8>, r: (int, int, int)| rec_val(s, r) as int;
    let code = |h: (u64, u64)| hash_code_of(h);
    let key_of = |n: Seq<u8>| long_hash_of(n);
    crate::scan::lemma_valid_paired(s);
    lemma_records_shape(q, 0);
    assert forall|i: int| 0 <= i < recs.len() implies rval(q, #[trigger] recs[i]) == tenths(rec_value(q, recs[i])) by {
        assert(record_shape(q, recs[i]));
        assert(valid_record(q, recs[i]));
        lemma_rec_val_tenths(q, recs[i]);
    }
    lemma_aggregate_rec_tenths(q, recs, rval);
    assert(fits_rec_throughout(q, recs, rval)) by {
        assert forall|k: int| 0 <= k <= recs.len() implies stats_fit(
            #[trigger] aggregate_rec(q, recs.take(k), rval),
            i32::MIN as int,
            i32::MAX as int,
        ) by {
            assert forall|i: int| 0 <= i < recs.take(k).len() implies rval(q, #[trigger] recs.take(k)[i]) == tenths(
                rec_value(q, recs.take(k)[i]),
            ) by {
                assert(recs.take(k)[i] == recs[i]);
            }
            lemma_aggregate_rec_tenths(q, recs.take(k), rval);
            assert(stats_fit(aggregate_with(q, recs.take(k), |v: Seq<u8>| tenths(v)), i32::MIN as int, i32::MAX as int));
        }
    }
    assert(names_ok(q, recs, rval, code, key_of)) by {
        assert forall|i: int| 0 <= i < recs.len() implies {
            let n = rec_name(q, #[trigger] recs[i]);
            &&& n.len() > 0
            &&& key_of(n) != (0u64, 0u64)
            &&& 0 <= code(key_of(n)) < HOME_SLOTS
            &&& i32::MIN <= rval(q, recs[i]) <= i32::MAX
        } by {
            let r = recs[i];
            assert(record_shape(q, r));
            assert(valid_record(q, r));
            lemma_rec_val_tenths(q, r);
            let n = rec_name(q, r);
            assert(n[0] == q[r.0]);
            crate::ver22::lemma_key_nonzero(n);
            crate::format::lemma_tenths_range(rec_value(q, r));
        }
    }
    lemma_fold_some(m0, agg_zero(), q, recs, rval, code, key_of);
    lemma_fold_holds(m0, agg_zero(), q, recs, rval, code, key_of);
    lemma_scan_layout(s);
    let nl = newline_at(records(s));
    lemma_run_prefix(s, nl, m0, recs.len() as int);
    lemma_pend_end(s, nl);
    assert(recs.take(recs.len() as int) =~= recs);
    assert(recs.subrange(recs.len() as int, recs.len() as int) =~= Seq::<(int, int, int)>::empty());
}

} // verus!
