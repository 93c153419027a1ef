//! Bitmask delimiter scanning over 64-byte blocks, values read from a zero-padded
//! four-lane window, statistics kept in an `FxHashMap`.
use vstd::prelude::*;
use crate::delims::{
    delim_records, delim_records_from, is_delim, lemma_next_delim, next_delim, DelimScanner,
};
use crate::format::{rec_value, records, tenths, valid_buffer, valid_record, MINUS, ZERO};
use crate::fxmap::{
    fx_contents, fx_models, fx_with_capacity, lemma_fx_fit, lemma_fx_record, record_station,
    FxStations,
};
use crate::stats::{
    aggregate, aggregate_with, fits_throughout, lemma_aggregate_same, stats_fit,
    lemma_aggregate_push, lemma_fits_empty, lemma_fits_prefix, lemma_fits_push, StatsModel,
};

verus! {

/// The value text without its leading `-`, if it has one.
pub open spec fn after_sign(buf: Seq<u8>) -> Seq<u8> {
    if buf[0] == MINUS {
        buf.drop_first()
    } else {
        buf
    }
}

/// Byte `j` of the eight-byte window that holds `t` right-aligned after `0` padding.
pub open spec fn padded_byte(t: Seq<u8>, j: int) -> u8 {
    if j < 8 - t.len() {
        ZERO
    } else {
        t[j - (8 - t.len())]
    }
}

/// The last four bytes of the padded window read as digits of weight 100, 10, 0 and 1:
/// `dd.d` is its tenths, and other bytes count as `byte - 48`.
pub open spec fn window_number(t: Seq<u8>) -> int {
    (padded_byte(t, 4) - 48) * 100 + (padded_byte(t, 5) - 48) * 10 + (padded_byte(t, 7) - 48)
}

/// Reads a value text of at most eight bytes after its sign: the text is right-aligned
/// in eight bytes of `0`, the last four read with weights 100, 10, 0 and 1, and the
/// result negated when the text starts with `-`. `10.2` reads as 102, `-2.0` as -20.
pub fn parse_value(buf: &[u8]) -> (r: i16)
    requires
        buf@.len() >= 1,
        after_sign(buf@).len() <= 8,
    ensures
        r == (if buf@[0] == MINUS { -window_number(after_sign(buf@)) } else { window_number(
            after_sign(buf@),
        ) }),
{
    let negative = buf[0] == MINUS;
    let offset: usize = if negative { 1 } else { 0 };
    let t = &buf[offset..buf.len()];
    assert(t@ =~= after_sign(buf@));
    let pad = 8 - t.len();
    let mut arr: [u8; 8] = [ZERO; 8];
    let mut i: usize = pad;
    while i < 8
        invariant
            pad <= i <= 8,
            pad == 8 - t@.len(),
            forall|j: int| 0 <= j < pad ==> arr@[j] == ZERO,
            forall|j: int| pad <= j < i ==> arr@[j] == t@[j - pad],
            arr@.len() == 8,
        decreases 8 - i,
    {
        arr[i] = t[i - pad];
        i += 1;
    }
    assert forall|j: int| 0 <= j < 8 implies arr@[j] == padded_byte(t@, j) by {}
    let a = arr[4] as i32 - 48;
    let b = arr[5] as i32 - 48;
    let d = arr[7] as i32 - 48;
    let magnitude: i32 = a * 100 + b * 10 + d;
    let value = magnitude as i16;
    if negative {
        -value
    } else {
        value
    }
}

/// The number [`parse_value`] reads from a value text.
pub open spec fn window_value(v: Seq<u8>) -> int {
    if v[0] == MINUS {
        -window_number(after_sign(v))
    } else {
        window_number(after_sign(v))
    }
}

/// How this variant reads a value text.
pub open spec fn window_parse() -> spec_fn(Seq<u8>) -> int {
    |v: Seq<u8>| window_value(v)
}

/// A value text [`parse_value`] reads: not empty, at most eight bytes after its sign.
pub open spec fn value_ok(v: Seq<u8>) -> bool {
    v.len() >= 1 && after_sign(v).len() <= 8
}

/// Every record of `recs` has a value text [`parse_value`] reads.
pub open spec fn values_ok(s: Seq<u8>, recs: Seq<(int, int, int)>) -> bool {
    forall|i: int| 0 <= i < recs.len() ==> value_ok(rec_value(s, #[trigger] recs[i]))
}

/// A buffer this variant reads to its end: at least one whole block, and a delimiter as
/// its last byte, where the search stops.
pub open spec fn ends_on_delim(s: Seq<u8>) -> bool {
    s.len() >= 64 && is_delim(s[s.len() - 1])
}

/// The statistics of every station in `buf`, keyed by name: records are read between
/// delimiters (a name runs to the next `;` or `\n`, its value to the one after) and
/// values by [`parse_value`]. `None` when the buffer is shorter than one block or does
/// not end on a delimiter, when a value text cannot be read, or when a count would leave
/// `u32` or a sum `i32`.
pub fn aggregate_stations(buf: &[u8]) -> (r: Option<FxStations>)
    ensures
        r is Some <==> ends_on_delim(buf@) && values_ok(buf@, delim_records(buf@)) && fits_throughout(
            buf@,
            delim_records(buf@),
            window_parse(),
            i32::MIN as int,
            i32::MAX as int,
        ),
        r matches Some(m) ==> fx_models(fx_contents(m), aggregate_with(buf@, delim_records(buf@), window_parse())),
{
    let n = buf.len();
    if n < 64 {
        return None;
    }
    let ghost s = buf@;
    let ghost mut done: Seq<(int, int, int)> = seq![];
    let mut hash = fx_with_capacity(16384);
    let mut scanner = DelimScanner::new(buf);
    let mut line_begin: usize = 0;
    proof {
        lemma_fits_empty(s, window_parse(), i32::MIN as int, i32::MAX as int);
        assert(aggregate_with(s, done, window_parse()) == Map::<Seq<u8>, StatsModel>::empty());
        assert(fx_contents(hash).dom() =~= Set::<Seq<u8>>::empty());
        assert(done + delim_records_from(s, 0) =~= delim_records(s));
    }
    loop
        invariant
            s == buf@,
            n == s.len(),
            n >= 64,
            scanner.inv(s),
            scanner.pos@ == line_begin,
            line_begin < n,
            delim_records(s) == done + delim_records_from(s, line_begin as int),
            values_ok(s, done),
            fits_throughout(s, done, window_parse(), i32::MIN as int, i32::MAX as int),
            fx_models(fx_contents(hash), aggregate_with(s, done, window_parse())),
        decreases n - line_begin,
    {
        proof {
            lemma_next_delim(s, line_begin as int);
        }
        let pos1 = match scanner.next(buf) {
            Some(p) => p,
            None => {
                return None;
            },
        };
        if pos1 + 1 == n {
            proof {
                assert(next_delim(s, pos1 + 1) == -1);
                assert(delim_records(s) =~= done);
            }
            return Some(hash);
        }
        proof {
            lemma_next_delim(s, pos1 + 1);
        }
        let pos2 = match scanner.next(buf) {
            Some(p) => p,
            None => {
                proof {
                    assert(!is_delim(s[n - 1]));
                }
                return None;
            },
        };
        let ghost r = (line_begin as int, pos1 as int, pos2 as int);
        proof {
            assert(delim_records_from(s, line_begin as int) == seq![r] + delim_records_from(s, pos2 + 1));
            assert(delim_records(s)[done.len() as int] == r);
            assert(delim_records(s).take(done.len() + 1int) =~= done.push(r));
        }
        let text = vstd::slice::slice_subrange(buf, pos1 + 1, pos2);
        if text.len() == 0 || (text[0] == MINUS && text.len() > 9) || (text[0] != MINUS && text.len() > 8) {
            proof {
                assert(!value_ok(rec_value(s, delim_records(s)[done.len() as int])));
            }
            return None;
        }
        let value = parse_value(text) as i32;
        let name = vstd::slice::slice_subrange(buf, line_begin, pos1);
        proof {
            lemma_fx_fit(fx_contents(hash), aggregate_with(s, done, window_parse()), name@, value);
            lemma_aggregate_push(s, done, r, window_parse());
            assert(done.take(done.len() as int) =~= done);
        }
        let ghost before = fx_contents(hash);
        if !record_station(&mut hash, name, value) {
            proof {
                if fits_throughout(s, delim_records(s), window_parse(), i32::MIN as int, i32::MAX as int) {
                    lemma_fits_prefix(
                        s,
                        delim_records(s),
                        done.len() + 1int,
                        window_parse(),
                        i32::MIN as int,
                        i32::MAX as int,
                    );
                    assert(done.push(r).take(done.len() + 1int) =~= done.push(r));
                }
            }
            return None;
        }
        proof {
            lemma_fx_record(before, aggregate_with(s, done, window_parse()), name@, value);
            lemma_fits_push(s, done, r, window_parse(), i32::MIN as int, i32::MAX as int);
            assert(done.push(r) + delim_records_from(s, pos2 + 1) =~= done + delim_records_from(
                s,
                line_begin as int,
            ));
            done = done.push(r);
        }
        line_begin = pos2 + 1;
        if pos2 + 1 == n {
            proof {
                assert(delim_records(s) =~= done);
            }
            return Some(hash);
        }
    }
}

/// A value written as the format says reads as its tenths.
pub proof fn lemma_window_tenths(v: Seq<u8>)
    requires
        crate::format::valid_value(v),
    ensures
        value_ok(v),
        window_value(v) == tenths(v),
{
}

/// On a buffer of at least one block made of valid lines, [`aggregate_stations`] reads
/// every record of the format, every value reads as its tenths, and the counts and sums
/// fit exactly when they fit in tenths: what it returns is then the per-station
/// minimum, maximum, count and sum of the buffer, and it returns it exactly when those
/// fit their widths.
pub proof fn lemma_valid_buffer(s: Seq<u8>)
    requires
        valid_buffer(s),
        s.len() >= 64,
    ensures
        ends_on_delim(s),
        delim_records(s) == records(s),
        values_ok(s, records(s)),
        aggregate_with(s, records(s), window_parse()) == aggregate(s, records(s)),
        fits_throughout(s, records(s), window_parse(), i32::MIN as int, i32::MAX as int)
            == fits_throughout(s, records(s), |v: Seq<u8>| tenths(v), i32::MIN as int, i32::MAX as int),
{
    crate::delims::lemma_delim_records_valid(s);
    let recs = records(s);
    crate::format::lemma_records_shape(s, 0);
    assert(recs.len() > 0);
    assert(crate::format::record_shape(s, recs.last()));
    assert forall|i: int| 0 <= i < recs.len() implies value_ok(rec_value(s, #[trigger] recs[i]))
        && window_parse()(rec_value(s, recs[i])) == tenths(rec_value(s, recs[i])) by {
        assert(valid_record(s, recs[i]));
        lemma_window_tenths(rec_value(s, recs[i]));
    }
    lemma_aggregate_same(s, recs, window_parse());
    let lo = i32::MIN as int;
    let hi = i32::MAX as int;
    let t = |v: Seq<u8>| tenths(v);
    assert forall|k: int| 0 <= k <= recs.len() implies #[trigger] aggregate_with(s, recs.take(k), window_parse())
        == aggregate_with(s, recs.take(k), t) by {
        assert forall|i: int| 0 <= i < recs.take(k).len() implies window_parse()(
            rec_value(s, #[trigger] recs.take(k)[i]),
        ) == tenths(rec_value(s, recs.take(k)[i])) by {
            assert(recs.take(k)[i] == recs[i]);
        }
        lemma_aggregate_same(s, recs.take(k), window_parse());
    }
    if fits_throughout(s, recs, window_parse(), lo, hi) {
        assert forall|k: int| 0 <= k <= recs.len() implies stats_fit(
            #[trigger] aggregate_with(s, recs.take(k), t),
            lo,
            hi,
        ) by {
            assert(stats_fit(aggregate_with(s, recs.take(k), window_parse()), lo, hi));
        }
    }
    if fits_throughout(s, recs, t, lo, hi) {
        assert forall|k: int| 0 <= k <= recs.len() implies stats_fit(
            #[trigger] aggregate_with(s, recs.take(k), window_parse()),
            lo,
            hi,
        ) by {
            assert(stats_fit(aggregate_with(s, recs.take(k), t), lo, hi));
        }
    }
}

} // verus!
