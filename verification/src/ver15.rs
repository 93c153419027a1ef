//! Four records at a time: values read through signed lanes, names packed into two
//! `u64` halves, statistics in a linear-probing table.
use vstd::prelude::*;

use crate::bits::{packed_key, str_to_hash_normal};
use crate::delims::{delim_records, delim_records_from, lemma_next_delim};
use crate::format::{rec_name, rec_value, scalar_bytes, scalar_digits, scalar_value, scalar_within};
use crate::reader::{lemma_read_end, lemma_read_one, lemma_refused, reader_ok, whole_end, FileReader};
use crate::table::{
    agg_zero, fold_save, fresh_model, lemma_fold_push, lemma_fresh_model, save_slots, EntryModel,
    TABLE_SLOTS,
};
use crate::ver12::{home_slot, short_value};
use crate::ver18::lane_value;

pub use crate::ver12::{parse_value, AggrInfo, AggrItem};
use crate::ver18::{parse_value_simd, signed_lane_value};

verus! {

/// Reads four value texts of one to eight bytes each as
/// [`crate::ver18::parse_value_simd`] reads one.
pub fn parse_values(val1: &[u8], val2: &[u8], val3: &[u8], val4: &[u8]) -> (r: (i16, i16, i16, i16))
    requires
        1 <= val1@.len() <= 8,
        1 <= val2@.len() <= 8,
        1 <= val3@.len() <= 8,
        1 <= val4@.len() <= 8,
    ensures
        r.0 == signed_lane_value(val1@),
        r.1 == signed_lane_value(val2@),
        r.2 == signed_lane_value(val3@),
        r.3 == signed_lane_value(val4@),
{
    (parse_value_simd(val1), parse_value_simd(val2), parse_value_simd(val3), parse_value_simd(val4))
}

/// Records one line: the name is keyed by its first sixteen bytes and the value text
/// read by [`parse_value`].
pub fn process_one(name: &[u8], value: &[u8], aggr: &mut AggrInfo) -> (ok: bool)
    requires
        old(aggr).hashes@.len() == TABLE_SLOTS,
        scalar_bytes(value@),
        scalar_digits(value@) <= i32::MAX,
    ensures
        final(aggr).hashes@.len() == TABLE_SLOTS,
        ({
            let k = packed_key(name@);
            let saved = save_slots(old(aggr).slots_of(), home_slot(k.0, k.1), name@, k, (scalar_value(value@) as i16) as i32);
            &&& ok == saved is Some
            &&& ok ==> final(aggr).slots_of() == saved->0
        }),
{
    let (key_a, key_b) = str_to_hash_normal(name);
    let v = parse_value(value);
    aggr.save_item(name, key_a, key_b, v)
}

/// The slots after recording `recs` of `s` into `m0`, each value read by `rval`, each
/// name keyed by its first sixteen bytes with this variant's home slot.
pub open spec fn fold_with(
    m0: Seq<EntryModel>,
    s: Seq<u8>,
    recs: Seq<(int, int, int)>,
    rval: spec_fn(Seq<u8>, (int, int, int)) -> int,
) -> Option<Seq<EntryModel>> {
    fold_save(m0, s, recs, rval, |h: (u64, u64)| home_slot(h.0, h.1), |n: Seq<u8>| packed_key(n))
}

/// Every record of `recs` has a value of one to eight bytes.
pub open spec fn lane_values_ok(recs: Seq<(int, int, int)>) -> bool {
    forall|i: int| 0 <= i < recs.len() ==> 1 <= (#[trigger] recs[i]).2 - recs[i].1 - 1 <= 8
}

/// One line from the reader, appended to the lines read so far.
fn fetch(reader: &mut FileReader, buf: &[u8], got: Ghost<Seq<(int, int, int)>>, done: Ghost<Seq<(int, int, int)>>) -> (r: Option<
    (usize, usize, usize),
>)
    requires
        old(reader).inv(buf@),
        !old(reader).failed,
        old(reader).block == 128,
        old(reader).pos@ == old(reader).line_begin,
        delim_records(buf@) == done@ + got@ + delim_records_from(buf@, old(reader).line_begin as int),
        old(reader).line_begin <= buf@.len(),
        old(reader).after(buf@, done@ + got@),
    ensures
        !final(reader).failed ==> final(reader).after(
            buf@,
            done@ + (match r {
                Some((a, p1, p2)) => got@.push((a as int, p1 as int, p2 as int)),
                None => got@,
            }),
        ),
        final(reader).failed ==> !reader_ok(buf@, 128),
        final(reader).block == 128,
        !final(reader).failed ==> final(reader).inv(buf@) && final(reader).pos@ == final(reader).line_begin,
        r is None && !final(reader).failed ==> *final(reader) == *old(reader) && delim_records(buf@) == done@ + got@
            && reader_ok(buf@, 128),
        r matches Some((a, p1, p2)) ==> {
            &&& !final(reader).failed
            &&& a == old(reader).line_begin
            &&& final(reader).line_begin == p2 + 1
            &&& a <= p1 < p2 < buf@.len()
            &&& delim_records(buf@) == done@ + got@.push((a as int, p1 as int, p2 as int)) + delim_records_from(
                buf@,
                p2 + 1,
            )
            &&& final(reader).eof <==> p2 >= whole_end(buf@.len() as int, 128)
        },
{
    let ghost lb = reader.line_begin as int;
    let ghost all = done@ + got@;
    proof {
        reveal(FileReader::after);
    }
    let r = reader.next(buf);
    proof {
        if reader.failed {
            lemma_refused(buf@, 128, all, lb);
        } else if r is None {
            lemma_read_end(buf@, 128, all, lb);
        }
        if let Some((a, p1, p2)) = r {
            lemma_read_one(buf@, 128, all, (a as int, p1 as int, p2 as int));
            assert(done@ + got@.push((a as int, p1 as int, p2 as int)) =~= all.push((a as int, p1 as int, p2 as int)));
            lemma_next_delim(buf@, lb);
            lemma_next_delim(buf@, p1 + 1);
            assert(delim_records_from(buf@, lb) == seq![(a as int, p1 as int, p2 as int)] + delim_records_from(buf@, p2 + 1));
            assert(done@ + got@.push((a as int, p1 as int, p2 as int)) + delim_records_from(buf@, p2 + 1) =~= done@ + got@
                + delim_records_from(buf@, lb));
        }
    }
    r
}

/// Records one line as [`process_one`] does, its value read by [`parse_value`].
fn save_single(aggr: &mut AggrInfo, buf: &[u8], l: (usize, usize, usize)) -> (ok: bool)
    requires
        old(aggr).hashes@.len() == TABLE_SLOTS,
        l.0 <= l.1 < l.2 <= buf@.len(),
    ensures
        final(aggr).hashes@.len() == TABLE_SLOTS,
        ({
            let folded = fold_with(
                old(aggr).slots_of(),
                buf@,
                seq![(l.0 as int, l.1 as int, l.2 as int)],
                |s: Seq<u8>, r: (int, int, int)| short_value(s, r),
            );
            &&& ok == (crate::ver7::value_ok(rec_value(buf@, (l.0 as int, l.1 as int, l.2 as int))) && folded is Some)
            &&& ok ==> folded == Some(final(aggr).slots_of())
        }),
{
    let ghost r = (l.0 as int, l.1 as int, l.2 as int);
    let name = vstd::slice::slice_subrange(buf, l.0, l.1);
    let text = vstd::slice::slice_subrange(buf, l.1 + 1, l.2);
    if !scalar_within(text, 2147483647) {
        return false;
    }
    let ghost m = aggr.slots_of();
    let ok = process_one(name, text, aggr);
    proof {
        let short = |s: Seq<u8>, r: (int, int, int)| short_value(s, r);
        let code = |h: (u64, u64)| home_slot(h.0, h.1);
        let key_of = |n: Seq<u8>| packed_key(n);
        lemma_fold_push(m, buf@, Seq::empty(), r, short, code, key_of);
        assert(Seq::<(int, int, int)>::empty().push(r) =~= seq![r]);
        assert(rec_name(buf@, r) =~= name@ && rec_value(buf@, r) =~= text@);
    }
    ok
}

/// Records four lines, their values read together by [`parse_values`].
fn save_batch(
    aggr: &mut AggrInfo,
    buf: &[u8],
    l1: (usize, usize, usize),
    l2: (usize, usize, usize),
    l3: (usize, usize, usize),
    l4: (usize, usize, usize),
) -> (ok: bool)
    requires
        old(aggr).hashes@.len() == TABLE_SLOTS,
        l1.0 <= l1.1 < l1.2 <= buf@.len(),
        l2.0 <= l2.1 < l2.2 <= buf@.len(),
        l3.0 <= l3.1 < l3.2 <= buf@.len(),
        l4.0 <= l4.1 < l4.2 <= buf@.len(),
    ensures
        final(aggr).hashes@.len() == TABLE_SLOTS,
        ({
            let rs = seq![
                (l1.0 as int, l1.1 as int, l1.2 as int),
                (l2.0 as int, l2.1 as int, l2.2 as int),
                (l3.0 as int, l3.1 as int, l3.2 as int),
                (l4.0 as int, l4.1 as int, l4.2 as int),
            ];
            let folded = fold_with(old(aggr).slots_of(), buf@, rs, |s: Seq<u8>, r: (int, int, int)| lane_value(s, r));
            &&& ok == (lane_values_ok(rs) && folded is Some)
            &&& ok ==> folded == Some(final(aggr).slots_of())
        }),
{
    if l1.2 - l1.1 - 1 == 0 || l1.2 - l1.1 - 1 > 8 || l2.2 - l2.1 - 1 == 0 || l2.2 - l2.1 - 1 > 8 || l3.2 - l3.1 - 1
        == 0 || l3.2 - l3.1 - 1 > 8 || l4.2 - l4.1 - 1 == 0 || l4.2 - l4.1 - 1 > 8 {
        return false;
    }
    let ghost rs = seq![
        (l1.0 as int, l1.1 as int, l1.2 as int),
        (l2.0 as int, l2.1 as int, l2.2 as int),
        (l3.0 as int, l3.1 as int, l3.2 as int),
        (l4.0 as int, l4.1 as int, l4.2 as int),
    ];
    let ghost m = aggr.slots_of();
    let v1 = vstd::slice::slice_subrange(buf, l1.1 + 1, l1.2);
    let v2 = vstd::slice::slice_subrange(buf, l2.1 + 1, l2.2);
    let v3 = vstd::slice::slice_subrange(buf, l3.1 + 1, l3.2);
    let v4 = vstd::slice::slice_subrange(buf, l4.1 + 1, l4.2);
    let n1 = vstd::slice::slice_subrange(buf, l1.0, l1.1);
    let n2 = vstd::slice::slice_subrange(buf, l2.0, l2.1);
    let n3 = vstd::slice::slice_subrange(buf, l3.0, l3.1);
    let n4 = vstd::slice::slice_subrange(buf, l4.0, l4.1);
    let (x1, x2, x3, x4) = parse_values(v1, v2, v3, v4);
    let (a1, b1) = str_to_hash_normal(n1);
    let (a2, b2) = str_to_hash_normal(n2);
    let (a3, b3) = str_to_hash_normal(n3);
    let (a4, b4) = str_to_hash_normal(n4);
    proof {
        let lane = |s: Seq<u8>, r: (int, int, int)| lane_value(s, r);
        let code = |h: (u64, u64)| home_slot(h.0, h.1);
        let key_of = |n: Seq<u8>| packed_key(n);
        let d0 = Seq::<(int, int, int)>::empty();
        let d1 = d0.push(rs[0]);
        let d2 = d1.push(rs[1]);
        let d3 = d2.push(rs[2]);
        lemma_fold_push(m, buf@, d0, rs[0], lane, code, key_of);
        lemma_fold_push(m, buf@, d1, rs[1], lane, code, key_of);
        lemma_fold_push(m, buf@, d2, rs[2], lane, code, key_of);
        lemma_fold_push(m, buf@, d3, rs[3], lane, code, key_of);
        assert(rec_name(buf@, rs[0]) =~= n1@ && rec_value(buf@, rs[0]) =~= v1@);
        assert(rec_name(buf@, rs[1]) =~= n2@ && rec_value(buf@, rs[1]) =~= v2@);
        assert(rec_name(buf@, rs[2]) =~= n3@ && rec_value(buf@, rs[2]) =~= v3@);
        assert(rec_name(buf@, rs[3]) =~= n4@ && rec_value(buf@, rs[3]) =~= v4@);
        assert(d3.push(rs[3]) =~= rs);
    }
    if !aggr.save_item(n1, a1, b1, x1) {
        return false;
    }
    if !aggr.save_item(n2, a2, b2, x2) {
        return false;
    }
    if !aggr.save_item(n3, a3, b3, x3) {
        return false;
    }
    aggr.save_item(n4, a4, b4, x4)
}

/// Records the lines left at the end one by one, as [`process_one`] does.
fn save_pending(aggr: &mut AggrInfo, buf: &[u8], pending: &Vec<(usize, usize, usize)>) -> (ok: bool)
    requires
        old(aggr).hashes@.len() == TABLE_SLOTS,
        forall|i: int| 0 <= i < pending@.len() ==> (#[trigger] pending@[i]).0 <= pending@[i].1 < pending@[i].2 < buf@.len(),
    ensures
        final(aggr).hashes@.len() == TABLE_SLOTS,
        ({
            let folded = fold_with(
                old(aggr).slots_of(),
                buf@,
                crate::ver22::lines_records(pending@),
                |s: Seq<u8>, r: (int, int, int)| short_value(s, r),
            );
            &&& ok == (crate::ver7::values_ok(buf@, crate::ver22::lines_records(pending@)) && folded is Some)
            &&& ok ==> folded == Some(final(aggr).slots_of())
        }),
{
    let ghost s = buf@;
    let ghost mb = aggr.slots_of();
    let ghost short = |s: Seq<u8>, r: (int, int, int)| short_value(s, r);
    let ghost code = |h: (u64, u64)| home_slot(h.0, h.1);
    let ghost key_of = |n: Seq<u8>| packed_key(n);
    let mut k: usize = 0;
    proof {
        assert(crate::ver22::lines_records(pending@).take(0) =~= Seq::<(int, int, int)>::empty());
    }
    while k < pending.len()
        invariant
            s == buf@,
            k <= pending@.len(),
            forall|i: int| 0 <= i < pending@.len() ==> (#[trigger] pending@[i]).0 <= pending@[i].1 < pending@[i].2 < s.len(),
            aggr.hashes@.len() == TABLE_SLOTS,
            mb == old(aggr).slots_of(),
            fold_save(mb, s, crate::ver22::lines_records(pending@).take(k as int), short, code, key_of) == Some(aggr.slots_of()),
            crate::ver7::values_ok(s, crate::ver22::lines_records(pending@).take(k as int)),
            short == (|s: Seq<u8>, r: (int, int, int)| short_value(s, r)),
            code == (|h: (u64, u64)| home_slot(h.0, h.1)),
            key_of == (|n: Seq<u8>| packed_key(n)),
        decreases pending@.len() - k,
    {
        let l = pending[k];
        let ghost r = (l.0 as int, l.1 as int, l.2 as int);
        let ghost pre = crate::ver22::lines_records(pending@).take(k as int);
        proof {
            assert(pending@[k as int] == l);
            crate::table::lemma_fold_append(mb, s, pre, seq![r], short, code, key_of);
            assert(crate::ver22::lines_records(pending@).take(k + 1) =~= pre + seq![r]);
        }
        if !save_single(aggr, buf, l) {
            proof {
                let all = crate::ver22::lines_records(pending@);
                assert(all.take(k + 1) =~= pre + seq![r]);
                if !crate::ver7::value_ok(rec_value(s, r)) {
                    assert(all[k as int] == r);
                } else {
                    crate::table::lemma_fold_none_extends(mb, s, all, k + 1, short, code, key_of);
                }
            }
            return false;
        }
        proof {
            let now = pre + seq![r];
            assert forall|i: int| 0 <= i < now.len() implies crate::ver7::value_ok(rec_value(s, #[trigger] now[i])) by {
                if i < pre.len() {
                    assert(now[i] == pre[i]);
                }
            }
        }
        k = k + 1;
    }
    proof {
        assert(crate::ver22::lines_records(pending@).take(k as int) =~= crate::ver22::lines_records(pending@));
    }
    true
}

/// The slots after recording `lines` of `s` as [`read_all`] does: the lines of the
/// whole batches of four with their values read through signed lanes, then the lines
/// left one by one.
pub open spec fn fold_batched(s: Seq<u8>, lines: Seq<(int, int, int)>) -> Option<Seq<EntryModel>> {
    let j = lines.len() as int / 4 * 4;
    match fold_with(fresh_model(agg_zero()), s, lines.take(j), |s: Seq<u8>, r: (int, int, int)| lane_value(s, r)) {
        Some(m) => fold_with(m, s, lines.subrange(j, lines.len() as int), |s: Seq<u8>, r: (int, int, int)| short_value(s, r)),
        None => None,
    }
}

/// The values of `lines` can be read as [`read_all`] reads them: those of the whole
/// batches of four have one to eight bytes, the others are read by [`parse_value`]
/// without overflow.
pub open spec fn batch_values_ok(s: Seq<u8>, lines: Seq<(int, int, int)>) -> bool {
    let j = lines.len() as int / 4 * 4;
    lane_values_ok(lines.take(j)) && crate::ver7::values_ok(s, lines.subrange(j, lines.len() as int))
}

/// [`read_all`] reads `s` through: it holds one block, the reader does not break down,
/// and the lines it reads have values it can read and can all be recorded.
pub open spec fn read_all_ok(s: Seq<u8>) -> bool {
    let lines = delim_records(s);
    &&& s.len() >= 128
    &&& reader_ok(s, 128)
    &&& batch_values_ok(s, lines)
    &&& fold_batched(s, lines) is Some
}

/// A batch of four lines that cannot be recorded, after the whole batches `done`, shows
/// that the buffer is not one [`read_all`] reads through.
#[verifier::spinoff_prover]
#[verifier::rlimit(50)]
proof fn lemma_batch_refused(s: Seq<u8>, done: Seq<(int, int, int)>, rs: Seq<(int, int, int)>, rest: Seq<(int, int, int)>)
    requires
        delim_records(s) == done + rs + rest,
        rs.len() == 4,
        done.len() % 4 == 0,
        fold_with(fresh_model(agg_zero()), s, done, |s: Seq<u8>, r: (int, int, int)| lane_value(s, r)) is Some,
        !(lane_values_ok(rs) && fold_with(
            fold_with(fresh_model(agg_zero()), s, done, |s: Seq<u8>, r: (int, int, int)| lane_value(s, r))->0,
            s,
            rs,
            |s: Seq<u8>, r: (int, int, int)| lane_value(s, r),
        ) is Some),
    ensures
        !read_all_ok(s),
{
    let recs = delim_records(s);
    let all = done + rs;
    let d = done.len() as int;
    assert(recs =~= all + rest);
    let k = recs.len() as int;
    let j = k / 4 * 4;
    assert(j >= d + 4) by (nonlinear_arith)
        requires
            d % 4 == 0,
            d + 4 <= k,
            j == k / 4 * 4,
            d >= 0,
    ;
    if read_all_ok(s) {
        let lane = |s: Seq<u8>, r: (int, int, int)| lane_value(s, r);
        let code = |h: (u64, u64)| home_slot(h.0, h.1);
        let key_of = |n: Seq<u8>| packed_key(n);
        let lines = recs;
        let front = lines.take(j);
        assert(front.take(d + 4) =~= all);
        if !lane_values_ok(rs) {
            let i = choose|i: int| 0 <= i < 4 && !(1 <= (#[trigger] rs[i]).2 - rs[i].1 - 1 <= 8);
            assert(front[d + i] == rs[i]);
        } else {
            crate::table::lemma_fold_append(fresh_model(agg_zero()), s, done, rs, lane, code, key_of);
            crate::table::lemma_fold_none_extends(fresh_model(agg_zero()), s, front, d + 4, lane, code, key_of);
        }
    }
}

/// Recording whole batches `done` and then the lines `got` left over.
proof fn lemma_batched_split(s: Seq<u8>, done: Seq<(int, int, int)>, got: Seq<(int, int, int)>)
    requires
        done.len() % 4 == 0,
        got.len() < 4,
    ensures
        batch_values_ok(s, done + got) == (lane_values_ok(done) && crate::ver7::values_ok(s, got)),
        fold_batched(s, done + got) == (match fold_with(
            fresh_model(agg_zero()),
            s,
            done,
            |s: Seq<u8>, r: (int, int, int)| lane_value(s, r),
        ) {
            Some(m) => fold_with(m, s, got, |s: Seq<u8>, r: (int, int, int)| short_value(s, r)),
            None => None,
        }),
{
    let all = done + got;
    let kk = all.len() as int;
    assert(kk / 4 * 4 == done.len());
    assert(all.take(done.len() as int) =~= done);
    assert(all.subrange(done.len() as int, kk) =~= got);
}

/// The reader has read its last line: the lines are the whole batches `done` and the
/// lines `got` left over, and whether [`read_all`] reads the buffer through rests on
/// recording `got` after `done`.
proof fn lemma_last_lines(s: Seq<u8>, done: Seq<(int, int, int)>, got: Seq<(int, int, int)>)
    requires
        delim_records(s) == done + got,
        s.len() >= 128,
        reader_ok(s, 128),
    ensures
        read_all_ok(s) == (batch_values_ok(s, done + got) && fold_batched(s, done + got) is Some),
{
}

/// The lines of `pending` lie in `s`.
pub open spec fn pending_fits(s: Seq<u8>, pending: Seq<(usize, usize, usize)>) -> bool {
    forall|i: int| 0 <= i < pending.len() ==> (#[trigger] pending[i]).0 <= pending[i].1 < pending[i].2 < s.len()
}

/// Records a batch of four lines after the whole batches `done`, as [`read_all`] does;
/// false only on a buffer that it does not read through.
fn record_batch(
    aggr: &mut AggrInfo,
    buf: &[u8],
    pending: &Vec<(usize, usize, usize)>,
    Ghost(done): Ghost<Seq<(int, int, int)>>,
    Ghost(rest): Ghost<Seq<(int, int, int)>>,
) -> (ok: bool)
    requires
        old(aggr).hashes@.len() == TABLE_SLOTS,
        pending@.len() == 4,
        pending_fits(buf@, pending@),
        done.len() % 4 == 0,
        delim_records(buf@) == done + crate::ver22::lines_records(pending@) + rest,
        lane_values_ok(done),
        fold_with(fresh_model(agg_zero()), buf@, done, |s: Seq<u8>, r: (int, int, int)| lane_value(s, r)) == Some(
            old(aggr).slots_of(),
        ),
    ensures
        final(aggr).hashes@.len() == TABLE_SLOTS,
        !ok ==> !read_all_ok(buf@),
        ok ==> lane_values_ok(done + crate::ver22::lines_records(pending@)),
        ok ==> fold_with(
            fresh_model(agg_zero()),
            buf@,
            done + crate::ver22::lines_records(pending@),
            |s: Seq<u8>, r: (int, int, int)| lane_value(s, r),
        ) == Some(final(aggr).slots_of()),
{
    let ghost s = buf@;
    let ghost lane = |s: Seq<u8>, r: (int, int, int)| lane_value(s, r);
    let ghost code = |h: (u64, u64)| home_slot(h.0, h.1);
    let ghost key_of = |n: Seq<u8>| packed_key(n);
    let l1 = pending[0];
    let l2 = pending[1];
    let l3 = pending[2];
    let l4 = pending[3];
    let ghost rs = crate::ver22::lines_records(pending@);
    proof {
        assert(pending@[0] == l1 && pending@[1] == l2 && pending@[2] == l3 && pending@[3] == l4);
        assert(rs =~= seq![
            (l1.0 as int, l1.1 as int, l1.2 as int),
            (l2.0 as int, l2.1 as int, l2.2 as int),
            (l3.0 as int, l3.1 as int, l3.2 as int),
            (l4.0 as int, l4.1 as int, l4.2 as int),
        ]);
        crate::table::lemma_fold_append(fresh_model(agg_zero()), s, done, rs, lane, code, key_of);
    }
    if !save_batch(aggr, buf, l1, l2, l3, l4) {
        proof {
            lemma_batch_refused(s, done, rs, rest);
        }
        return false;
    }
    proof {
        let all = done + rs;
        assert forall|i: int| 0 <= i < all.len() implies 1 <= (#[trigger] all[i]).2 - all[i].1 - 1 <= 8 by {
            if i < done.len() {
                assert(all[i] == done[i]);
            } else {
                assert(all[i] == rs[i - done.len()]);
            }
        }
    }
    true
}

/// Records the lines left after the whole batches `done` once the reader has read its
/// last line; true exactly on a buffer that [`read_all`] reads through.
fn record_rest(
    aggr: &mut AggrInfo,
    buf: &[u8],
    pending: &Vec<(usize, usize, usize)>,
    Ghost(done): Ghost<Seq<(int, int, int)>>,
) -> (ok: bool)
    requires
        old(aggr).hashes@.len() == TABLE_SLOTS,
        reader_ok(buf@, 128),
        pending@.len() < 4,
        pending_fits(buf@, pending@),
        done.len() % 4 == 0,
        buf@.len() >= 128,
        delim_records(buf@) == done + crate::ver22::lines_records(pending@),
        lane_values_ok(done),
        fold_with(fresh_model(agg_zero()), buf@, done, |s: Seq<u8>, r: (int, int, int)| lane_value(s, r)) == Some(
            old(aggr).slots_of(),
        ),
    ensures
        final(aggr).hashes@.len() == TABLE_SLOTS,
        ok == read_all_ok(buf@),
        ok ==> fold_batched(buf@, delim_records(buf@)) == Some(final(aggr).slots_of()),
{
    let ghost got = crate::ver22::lines_records(pending@);
    proof {
        lemma_last_lines(buf@, done, got);
        lemma_batched_split(buf@, done, got);
    }
    save_pending(aggr, buf, pending)
}

/// Reads every line the reader yields, four at a time while four are at hand: the
/// values of a batch of four read by [`parse_values`], the lines left at the end one by
/// one by [`process_one`], each name keyed by its first sixteen bytes. The reader yields
/// every record read between delimiters, those in the bytes after the last whole
/// 128-byte block included. Returns the table and the number of lines. `None` exactly when the buffer is shorter than one block,
/// when the reader breaks down, when a value cannot be read (a batched value must have
/// one to eight bytes), or when a recording fails (see [`read_all_ok`]).
pub fn read_all(buf: &[u8]) -> (r: Option<(AggrInfo, usize)>)
    ensures
        r is Some <==> read_all_ok(buf@),
        r matches Some((t, k)) ==> {
            let recs = delim_records(buf@);
            &&& k == recs.len()
            &&& k >= 1
            &&& t.hashes@.len() == TABLE_SLOTS
            &&& fold_batched(buf@, recs) == Some(t.slots_of())
        },
{
    if buf.len() < 128 {
        return None;
    }
    let ghost s = buf@;
    let ghost w = whole_end(buf@.len() as int, 128);
    let mut reader = FileReader::new(buf, 128);
    let mut aggr = AggrInfo::new();
    proof {
        lemma_fresh_model(aggr.slots_of(), agg_zero());
    }
    let mut count: usize = 0;
    let ghost mut done: Seq<(int, int, int)> = seq![];
    let mut pending: Vec<(usize, usize, usize)> = Vec::new();
    proof {
        reveal(FileReader::after);
        assert(done + crate::ver22::lines_records(pending@) + delim_records_from(s, 0) =~= delim_records(s));
        assert(done + crate::ver22::lines_records(pending@) =~= done);
    }
    loop
        invariant
            s == buf@,
            s.len() >= 128,
            reader.inv(s),
            !reader.failed,
            reader.block == 128,
            reader.pos@ == reader.line_begin,
            reader.after(s, done + crate::ver22::lines_records(pending@)),
            w == whole_end(s.len() as int, 128),
            delim_records(s) == done + crate::ver22::lines_records(pending@) + delim_records_from(s, reader.line_begin as int),
            count == done.len(),
            count + pending@.len() <= reader.line_begin,
            reader.line_begin <= s.len(),
            done.len() % 4 == 0,
            pending@.len() < 4,
            pending_fits(s, pending@),
            lane_values_ok(done),
            aggr.hashes@.len() == TABLE_SLOTS,
            fold_with(fresh_model(agg_zero()), s, done, |s: Seq<u8>, r: (int, int, int)| lane_value(s, r)) == Some(
                aggr.slots_of(),
            ),
        decreases s.len() - reader.line_begin, (if reader.eof { 0int } else { 1int }),
    {
        let ghost pend = crate::ver22::lines_records(pending@);
        let r1 = fetch(&mut reader, buf, Ghost(pend), Ghost(done));
        if reader.failed {
            return None;
        }
        match r1 {
            Some(l) => {
                let ghost r = (l.0 as int, l.1 as int, l.2 as int);
                let ghost before = pending@;
                pending.push(l);
                proof {
                    assert(crate::ver22::lines_records(pending@) =~= pend.push(r));
                    assert forall|i: int| 0 <= i < pending@.len() implies (#[trigger] pending@[i]).0 <= pending@[i].1
                        < pending@[i].2 < s.len() by {
                        if i < before.len() {
                            assert(pending@[i] == before[i]);
                        }
                    }
                }
                if pending.len() == 4 {
                    let ghost rest = delim_records_from(s, reader.line_begin as int);
                    if !record_batch(&mut aggr, buf, &pending, Ghost(done), Ghost(rest)) {
                        return None;
                    }
                    count = count + 4;
                    proof {
                        done = done + crate::ver22::lines_records(pending@);
                    }
                    pending = Vec::new();
                    proof {
                        assert(done + crate::ver22::lines_records(pending@) =~= done);
                    }
                }
            },
            None => {
                if !record_rest(&mut aggr, buf, &pending, Ghost(done)) {
                    return None;
                }
                proof {
                    crate::reader::lemma_reader_ok_facts(s, 128);
                }
                return Some((aggr, count + pending.len()));
            },
        }
    }
}

/// The occupied slots among the first `n` of `m`, in order, each with its index and
/// whether the slot before it holds the same key.
pub open spec fn station_report(m: Seq<EntryModel>, n: int) -> Seq<(int, bool)>
    decreases n,
{
    if n <= 0 {
        seq![]
    } else {
        let prev = station_report(m, n - 1);
        let i = n - 1;
        if crate::table::occupied(m[i]) {
            prev.push((i, i > 0 && m[i - 1].key_hash == m[i].key_hash))
        } else {
            prev
        }
    }
}

/// The stations the table holds, in slot order: each slot's index and whether the slot
/// before it holds the same key.
pub fn check_result(aggr: &AggrInfo) -> (r: Vec<(usize, bool)>)
    ensures
        r@.len() == station_report(aggr.slots_of(), aggr.slots_of().len() as int).len(),
        forall|j: int|
            0 <= j < r@.len() ==> (#[trigger] r@[j]).0 as int == station_report(
                aggr.slots_of(),
                aggr.slots_of().len() as int,
            )[j].0 && r@[j].1 == station_report(aggr.slots_of(), aggr.slots_of().len() as int)[j].1,
{
    let t = &aggr.hashes;
    let ghost m = aggr.slots_of();
    let mut out: Vec<(usize, bool)> = Vec::new();
    let mut i: usize = 0;
    while i < t.len()
        invariant
            i <= t@.len(),
            m == crate::table::slots(t@),
            out@.len() == station_report(m, i as int).len(),
            forall|j: int|
                0 <= j < out@.len() ==> (#[trigger] out@[j]).0 as int == station_report(m, i as int)[j].0 && out@[j].1
                    == station_report(m, i as int)[j].1,
        decreases t@.len() - i,
    {
        proof {
            assert(m[i as int] == crate::table::entry_model(t@[i as int]));
            if i > 0 {
                assert(m[i - 1] == crate::table::entry_model(t@[i - 1]));
            }
        }
        if t[i].key.len() != 0 {
            let same = i > 0 && t[i].key_hash.0 == t[i - 1].key_hash.0 && t[i].key_hash.1 == t[i - 1].key_hash.1;
            let ghost before = out@;
            out.push((i, same));
            proof {
                let rep = station_report(m, i + 1);
                assert forall|j: int| 0 <= j < out@.len() implies (#[trigger] out@[j]).0 as int == rep[j].0 && out@[j].1
                    == rep[j].1 by {
                    if j < before.len() {
                        assert(out@[j] == before[j]);
                    }
                }
            }
        }
        i += 1;
    }
    out
}

/// On a buffer of at least one block made of valid lines that the reader reads through
/// to its last line, whose distinct names have distinct keys, whose counts and sums in
/// tenths fit `i32` after every line, and which holds fewer than 1024 stations,
/// [`read_all`] owes success, and its table then holds exactly the minimum, maximum,
/// count and sum of every station of the buffer: a batch of four reads each value as
/// one line alone would.
pub proof fn lemma_valid_read(s: Seq<u8>)
    requires
        crate::format::valid_buffer(s),
        s.len() >= 128,
        reader_ok(s, 128),
        crate::table::keys_distinct(s, crate::format::records(s), |n: Seq<u8>| packed_key(n)),
        crate::stats::fits_throughout(
            s,
            crate::format::records(s),
            |v: Seq<u8>| crate::format::tenths(v),
            i32::MIN as int,
            i32::MAX as int,
        ),
        crate::stats::aggregate_buffer(s).dom().len() < 1024,
    ensures
        read_all_ok(s),
        crate::table::slots_hold(fold_batched(s, crate::format::records(s))->0, crate::stats::aggregate_buffer(s)),
{
    let recs = crate::format::records(s);
    let m0 = fresh_model(agg_zero());
    let lane = |s: Seq<u8>, r: (int, int, int)| lane_value(s, r);
    let short = |s: Seq<u8>, r: (int, int, int)| short_value(s, r);
    let code = |h: (u64, u64)| home_slot(h.0, h.1);
    let key_of = |n: Seq<u8>| packed_key(n);
    crate::ver12::lemma_valid_fold(s);
    let j = recs.len() as int / 4 * 4;
    let front = recs.take(j);
    let back = recs.subrange(j, recs.len() as int);
    crate::format::lemma_records_shape(s, 0);
    assert forall|i: int| 0 <= i < recs.len() implies lane(s, #[trigger] recs[i]) == short(s, recs[i]) && 1 <= recs[i].2
        - recs[i].1 - 1 <= 8 by {
        let r = recs[i];
        assert(crate::format::record_shape(s, r));
        assert(crate::format::valid_record(s, r));
        crate::ver18::lemma_lane_tenths(rec_value(s, r));
        crate::ver12::lemma_short_tenths(s, r);
        assert(rec_value(s, r).len() == r.2 - r.1 - 1);
    }
    assert forall|i: int| 0 <= i < front.len() implies lane(s, #[trigger] front[i]) == short(s, front[i]) by {
        assert(front[i] == recs[i]);
    }
    assert(lane_values_ok(front)) by {
        assert forall|i: int| 0 <= i < front.len() implies 1 <= (#[trigger] front[i]).2 - front[i].1 - 1 <= 8 by {
            assert(front[i] == recs[i]);
        }
    }
    assert(crate::ver7::values_ok(s, back)) by {
        assert forall|i: int| 0 <= i < back.len() implies crate::ver7::value_ok(rec_value(s, #[trigger] back[i])) by {
            assert(back[i] == recs[j + i]);
        }
    }
    crate::table::lemma_fold_same_values(m0, s, front, lane, short, code, key_of);
    crate::table::lemma_fold_append(m0, s, front, back, short, code, key_of);
    assert(front + back =~= recs);
}

} // verus!
