//! Lines read as a buffered reader reads them, up to `;` and then up to `\n`, values
//! parsed into `i64`, statistics kept per name.
use vstd::prelude::*;
use crate::format::{
    find_from, has_byte, lemma_find_from, lemma_scalar_digits_mono, rec_name, rec_value,
    records_from, scalar_bytes, scalar_digits, scalar_value, scalar_within, DOT, MINUS, NEWLINE,
    SEMICOLON, ZERO,
};
use crate::stations::{lemma_fit_i64, Stations};
use crate::stats::{
    aggregate_with, fits_throughout, lemma_aggregate_push, lemma_fits_empty, lemma_fits_prefix,
    lemma_fits_push, stats_fit, StatsModel,
};
use crate::ver7::scalar_parse;

verus! {

/// How many bytes reading up to `d` from `pos` takes: through the first `d`, or to the
/// end when there is none.
pub open spec fn until_count(s: Seq<u8>, pos: int, d: u8) -> int {
    let f = find_from(s, d, pos);
    if f >= 0 {
        f - pos + 1
    } else {
        s.len() - pos
    }
}

/// The line read at `pos`: the name is what reading up to `;` took, without its last
/// byte; the value is what reading on up to `\n` took, without its last byte. `None`
/// when either read takes nothing.
pub open spec fn line_at(s: Seq<u8>, pos: int) -> Option<(int, int, int)> {
    let n1 = until_count(s, pos, SEMICOLON);
    if n1 <= 0 {
        None
    } else {
        let n2 = until_count(s, pos + n1, NEWLINE);
        if n2 <= 0 {
            None
        } else {
            Some((pos, pos + n1 - 1, pos + n1 + n2 - 1))
        }
    }
}

/// Reading `d` from `pos` takes at least one byte before the end and at most the rest.
pub proof fn lemma_until_count(s: Seq<u8>, pos: int, d: u8)
    requires
        0 <= pos <= s.len(),
    ensures
        pos < s.len() ==> 1 <= until_count(s, pos, d),
        until_count(s, pos, d) <= s.len() - pos,
        until_count(s, pos, d) >= 0,
{
    lemma_find_from(s, d, pos);
}

/// The lines read from `pos` on, one after the other.
pub open spec fn lines_from(s: Seq<u8>, pos: int) -> Seq<(int, int, int)>
    decreases s.len() - pos,
{
    if 0 <= pos <= s.len() {
        match line_at(s, pos) {
            Some(r) => {
                proof {
                    lemma_until_count(s, pos, SEMICOLON);
                    lemma_until_count(s, pos + until_count(s, pos, SEMICOLON), NEWLINE);
                }
                seq![r] + lines_from(s, r.2 + 1)
            },
            None => seq![],
        }
    } else {
        seq![]
    }
}

/// The lines of the whole buffer.
pub open spec fn read_lines(s: Seq<u8>) -> Seq<(int, int, int)> {
    lines_from(s, 0)
}

/// A value text this variant reads without overflow.
pub open spec fn value_ok(v: Seq<u8>) -> bool {
    scalar_bytes(v) && scalar_digits(v) <= i64::MAX
}

/// Every line of `ls` has a value text this variant reads.
pub open spec fn values_ok(s: Seq<u8>, ls: Seq<(int, int, int)>) -> bool {
    forall|i: int| 0 <= i < ls.len() ==> value_ok(rec_value(s, #[trigger] ls[i]))
}

/// How many bytes reading up to `d` from `pos` takes: through the first `d`, or to the
/// end of the buffer when there is none.
pub fn read_until(buf: &[u8], pos: usize, d: u8) -> (n: usize)
    requires
        pos <= buf@.len(),
    ensures
        n == until_count(buf@, pos as int, d),
{
    let mut i = pos;
    while i < buf.len()
        invariant
            pos <= i <= buf@.len(),
            find_from(buf@, d, pos as int) == find_from(buf@, d, i as int),
        decreases buf@.len() - i,
    {
        if buf[i] == d {
            return i - pos + 1;
        }
        i += 1;
    }
    buf.len() - pos
}

/// The line read at `pos`: its name, its value text, and where the next line starts;
/// `None` when reading up to `;` or on up to `\n` takes nothing.
pub fn read_line<'a>(buf: &'a [u8], pos: usize) -> (r: Option<(&'a [u8], &'a [u8], usize)>)
    requires
        pos <= buf@.len(),
    ensures
        match line_at(buf@, pos as int) {
            None => r is None,
            Some(l) => r matches Some((name, value, next)) && name@ == rec_name(buf@, l) && value@ == rec_value(buf@, l)
                && next == l.2 + 1,
        },
{
    let len = buf.len();
    proof {
        lemma_until_count(buf@, pos as int, SEMICOLON);
    }
    let n1 = read_until(buf, pos, SEMICOLON);
    assert(pos + n1 <= len);
    if n1 == 0 {
        return None;
    }
    proof {
        lemma_until_count(buf@, pos + n1, NEWLINE);
    }
    let n2 = read_until(buf, pos + n1, NEWLINE);
    if n2 == 0 {
        return None;
    }
    let name = vstd::slice::slice_subrange(buf, pos, pos + n1 - 1);
    let value = vstd::slice::slice_subrange(buf, pos + n1, pos + n1 + n2 - 1);
    Some((name, value, pos + n1 + n2))
}

/// Reads a value text as the number its digits spell, negative when it holds a `-`;
/// `.` is skipped, so `-12.3` reads as -123.
pub fn parse_value(text: &[u8]) -> (r: i64)
    requires
        value_ok(text@),
    ensures
        r == scalar_value(text@),
{
    let mut sign: i64 = 1;
    let mut value: i64 = 0;
    let mut i: usize = 0;
    while i < text.len()
        invariant
            0 <= i <= text.len(),
            value_ok(text@),
            value == scalar_digits(text@.take(i as int)),
            sign == (if has_byte(text@.take(i as int), MINUS) { -1int } else { 1int }),
        decreases text.len() - i,
    {
        let b = text[i];
        proof {
            assert(text@.take(i + 1).drop_last() =~= text@.take(i as int));
            lemma_scalar_digits_mono(text@, (i + 1) as int, text@.len() as int);
            assert(text@.take(text@.len() as int) =~= text@);
        }
        if b == DOT {
        } else if b == MINUS {
            sign = -1;
        } else {
            value = value * 10 + (b - ZERO) as i64;
        }
        i += 1;
    }
    assert(text@.take(text@.len() as int) =~= text@);
    proof {
        lemma_scalar_digits_mono(text@, text@.len() as int, text@.len() as int);
    }
    value * sign
}

/// The statistics of every station in `buf`, by name: the lines are read as
/// [`read_line`] reads them, to the end of the buffer, and the values by
/// [`parse_value`]. A last line without `\n` is read too, without its last byte. `None`
/// when a value text cannot be read into an `i64`, or when a count would leave `u32` or
/// a sum `i64`.
pub fn aggregate_lines(buf: &[u8]) -> (r: Option<Stations>)
    ensures
        r is Some <==> values_ok(buf@, read_lines(buf@)) && fits_throughout(
            buf@,
            read_lines(buf@),
            scalar_parse(),
            i64::MIN as int,
            i64::MAX as int,
        ),
        r matches Some(st) ==> st.wf() && st@ == aggregate_with(buf@, read_lines(buf@), scalar_parse()),
{
    let ghost s = buf@;
    let ghost all = read_lines(s);
    let ghost lo = i64::MIN as int;
    let ghost hi = i64::MAX as int;
    let mut stations = Stations::new();
    let mut pos: usize = 0;
    let ghost mut done: Seq<(int, int, int)> = seq![];
    proof {
        lemma_fits_empty(s, scalar_parse(), lo, hi);
        assert(aggregate_with(s, done, scalar_parse()) =~= Map::<Seq<u8>, StatsModel>::empty());
        assert(all =~= done + lines_from(s, 0));
    }
    loop
        invariant
            s == buf@,
            pos <= buf@.len(),
            all == read_lines(s),
            all == done + lines_from(s, pos as int),
            lo == i64::MIN as int,
            hi == i64::MAX as int,
            values_ok(s, done),
            fits_throughout(s, done, scalar_parse(), lo, hi),
            stations.wf(),
            stations@ == aggregate_with(s, done, scalar_parse()),
        decreases buf@.len() - pos,
    {
        match read_line(buf, pos) {
            None => {
                proof {
                    assert(all =~= done);
                }
                return Some(stations);
            },
            Some((name, text, next)) => {
                let ghost l = line_at(s, pos as int)->0;
                proof {
                    lemma_until_count(s, pos as int, SEMICOLON);
                    lemma_until_count(s, pos + until_count(s, pos as int, SEMICOLON), NEWLINE);
                    assert(lines_from(s, pos as int) == seq![l] + lines_from(s, next as int));
                    assert(all[done.len() as int] == l);
                    assert(all.take(done.len() + 1int) =~= done.push(l));
                }
                if !scalar_within(text, 9223372036854775807) {
                    proof {
                        assert(!value_ok(rec_value(s, all[done.len() as int])));
                    }
                    return None;
                }
                let value = parse_value(text);
                proof {
                    assert(done.take(done.len() as int) =~= done);
                    assert(stats_fit(aggregate_with(s, done.take(done.len() as int), scalar_parse()), lo, hi));
                    lemma_fit_i64(aggregate_with(s, done, scalar_parse()), name@, value as int);
                    lemma_aggregate_push(s, done, l, scalar_parse());
                }
                if !stations.record(name, value) {
                    proof {
                        if fits_throughout(s, all, scalar_parse(), lo, hi) {
                            lemma_fits_prefix(s, all, done.len() + 1int, scalar_parse(), lo, hi);
                            assert(done.push(l).take(done.len() + 1int) =~= done.push(l));
                        }
                    }
                    return None;
                }
                proof {
                    lemma_fits_push(s, done, l, scalar_parse(), lo, hi);
                    assert(done.push(l) + lines_from(s, next as int) =~= done + lines_from(s, pos as int));
                    done = done.push(l);
                }
                pos = next;
            },
        }
    }
}

/// In a buffer that is empty or ends with `\n`, the lines read are the records.
pub proof fn lemma_lines_records(s: Seq<u8>, pos: int)
    requires
        s.len() == 0 || s.last() == NEWLINE,
        0 <= pos <= s.len(),
    ensures
        lines_from(s, pos) == records_from(s, pos),
    decreases s.len() - pos,
{
    lemma_until_count(s, pos, SEMICOLON);
    if pos < s.len() {
        let p1 = find_from(s, SEMICOLON, pos);
        lemma_find_from(s, SEMICOLON, pos);
        if p1 >= 0 {
            assert(p1 != s.len() - 1);
            let p2 = find_from(s, NEWLINE, p1 + 1);
            lemma_find_from(s, NEWLINE, p1 + 1);
            if p2 < 0 {
                assert(s[s.len() - 1] != NEWLINE);
            }
            lemma_until_count(s, p1 + 1, NEWLINE);
            lemma_lines_records(s, p2 + 1);
        } else {
            lemma_until_count(s, s.len() as int, NEWLINE);
        }
    } else {
        lemma_find_from(s, SEMICOLON, pos);
    }
}

/// On a buffer made of valid lines, the lines this variant reads are the records, every
/// value reads, the statistics it computes are the statistics in tenths, and the counts
/// and sums fit exactly when they fit in tenths: what [`aggregate_lines`] returns is
/// then the per-station minimum, maximum, count and sum of the buffer.
pub proof fn lemma_valid_buffer(s: Seq<u8>)
    requires
        crate::format::valid_buffer(s),
    ensures
        read_lines(s) == crate::format::records(s),
        values_ok(s, read_lines(s)),
        aggregate_with(s, read_lines(s), scalar_parse()) == crate::stats::aggregate(s, read_lines(s)),
        fits_throughout(s, read_lines(s), scalar_parse(), i64::MIN as int, i64::MAX as int) == fits_throughout(
            s,
            read_lines(s),
            |v: Seq<u8>| crate::format::tenths(v),
            i64::MIN as int,
            i64::MAX as int,
        ),
{
    let recs = crate::format::records(s);
    if recs.len() > 0 {
        crate::format::lemma_records_shape(s, 0);
        assert(crate::format::record_shape(s, recs[recs.len() - 1]));
    }
    lemma_lines_records(s, 0);
    crate::ver7::lemma_valid_buffer(s);
    assert forall|i: int| 0 <= i < recs.len() implies value_ok(rec_value(s, #[trigger] recs[i])) by {
        assert(crate::ver7::value_ok(rec_value(s, recs[i])));
    }
    let t = |v: Seq<u8>| crate::format::tenths(v);
    let lo = i64::MIN as int;
    let hi = i64::MAX as int;
    assert forall|k: int| 0 <= k <= recs.len() implies #[trigger] aggregate_with(s, recs.take(k), scalar_parse())
        == aggregate_with(s, recs.take(k), t) by {
        assert forall|i: int| 0 <= i < recs.take(k).len() implies scalar_parse()(rec_value(s, #[trigger] recs.take(k)[i]))
            == crate::format::tenths(rec_value(s, recs.take(k)[i])) by {
            assert(recs.take(k)[i] == recs[i]);
            crate::format::lemma_scalar_valid(rec_value(s, recs[i]));
        }
        crate::stats::lemma_aggregate_same(s, recs.take(k), scalar_parse());
    }
    if fits_throughout(s, recs, scalar_parse(), lo, hi) {
        assert forall|k: int| 0 <= k <= recs.len() implies stats_fit(#[trigger] aggregate_with(s, recs.take(k), t), lo, hi) by {
            assert(stats_fit(aggregate_with(s, recs.take(k), scalar_parse()), lo, hi));
        }
    }
    if fits_throughout(s, recs, t, lo, hi) {
        assert forall|k: int| 0 <= k <= recs.len() implies stats_fit(
            #[trigger] aggregate_with(s, recs.take(k), scalar_parse()),
            lo,
            hi,
        ) by {
            assert(stats_fit(aggregate_with(s, recs.take(k), t), lo, hi));
        }
    }
}

} // verus!
