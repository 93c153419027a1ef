//! Records found with `memchr`, values read by a scalar loop, statistics kept in an
//! `FxHashMap`.
use vstd::prelude::*;
use crate::format::{
    find_from, has_byte, lemma_find_from_is, lemma_find_from_none, lemma_scalar_digits_mono,
    lemma_scalar_valid, rec_value, records, records_from, scalar_bytes, scalar_digits, scalar_value,
    scalar_within, tenths, valid_records, DOT, MINUS, NEWLINE, SEMICOLON, ZERO,
};
use crate::fxmap::{
    fx_contents, fx_models, fx_with_capacity, lemma_fx_fit, lemma_fx_record, record_station,
    FxStations,
};
use crate::search::memchr;
use crate::stats::{
    aggregate, aggregate_with, fits_throughout, lemma_aggregate_push, lemma_aggregate_same,
    lemma_fits_empty, lemma_fits_prefix, lemma_fits_push, stats_fit, StatsModel,
};

verus! {

/// Reads a value text as the number its digits spell, negative when it holds a `-`;
/// `.` is skipped, so `-12.3` reads as -123.
pub fn parse_value(buf: &[u8]) -> (r: i32)
    requires
        scalar_bytes(buf@),
        scalar_digits(buf@) <= i32::MAX,
    ensures
        r == scalar_value(buf@),
{
    let mut sign: i32 = 1;
    let mut value: i32 = 0;
    let mut i: usize = 0;
    while i < buf.len()
        invariant
            0 <= i <= buf.len(),
            scalar_bytes(buf@),
            scalar_digits(buf@) <= i32::MAX,
            value == scalar_digits(buf@.take(i as int)),
            sign == (if has_byte(buf@.take(i as int), MINUS) { -1int } else { 1int }),
        decreases buf.len() - i,
    {
        let b = buf[i];
        proof {
            assert(buf@.take(i + 1).drop_last() =~= buf@.take(i as int));
            lemma_scalar_digits_mono(buf@, (i + 1) as int, buf@.len() as int);
            assert(buf@.take(buf@.len() as int) =~= buf@);
        }
        if b == MINUS {
            sign = -1;
        } else if b == DOT {
        } else {
            value = value * 10 + (b - ZERO) as i32;
        }
        i += 1;
    }
    assert(buf@.take(buf@.len() as int) =~= buf@);
    proof {
        lemma_scalar_digits_mono(buf@, buf@.len() as int, buf@.len() as int);
    }
    value * sign
}


/// A value text this variant reads without overflow.
pub open spec fn value_ok(v: Seq<u8>) -> bool {
    scalar_bytes(v) && scalar_digits(v) <= i32::MAX
}

/// Every record in `recs` has a value text this variant reads without overflow.
pub open spec fn values_ok(s: Seq<u8>, recs: Seq<(int, int, int)>) -> bool {
    forall|i: int| 0 <= i < recs.len() ==> value_ok(rec_value(s, #[trigger] recs[i]))
}

/// How this variant reads a value text.
pub open spec fn scalar_parse() -> spec_fn(Seq<u8>) -> int {
    |v: Seq<u8>| scalar_value(v)
}

/// The records of `s` from `start` on: the first, if any, starts at `start`, its name
/// runs to the first `;` and its value to the first `\\n` after that.
pub proof fn lemma_records_step(s: Seq<u8>, start: int)
    requires
        0 <= start <= s.len(),
    ensures
        ({
            let p1 = find_from(s, SEMICOLON, start);
            let p2 = find_from(s, NEWLINE, p1 + 1);
            if p1 >= 0 && p2 >= 0 {
                records_from(s, start) == seq![(start, p1, p2)] + records_from(s, p2 + 1)
            } else {
                records_from(s, start) == Seq::<(int, int, int)>::empty()
            }
        }),
{
}

/// The statistics of every station in `buf`, keyed by name: the records are found with
/// `memchr` (the name up to the first `;`, the value up to the next `\\n`; an
/// unfinished last line is left out) and the values read by [`parse_value`]. `None`
/// when a value text cannot be read into an `i32`, or when a count would leave `u32`
/// or a sum `i32`.
pub fn aggregate_stations(buf: &[u8]) -> (r: Option<FxStations>)
    ensures
        r is Some <==> values_ok(buf@, records(buf@)) && fits_throughout(
            buf@,
            records(buf@),
            scalar_parse(),
            i32::MIN as int,
            i32::MAX as int,
        ),
        r matches Some(m) ==> fx_models(
            fx_contents(m),
            aggregate_with(buf@, records(buf@), scalar_parse()),
        ),
{
    let mut hash = fx_with_capacity(16384);
    let mut start: usize = 0;
    let ghost s = buf@;
    let ghost mut done: Seq<(int, int, int)> = seq![];
    proof {
        lemma_fits_empty(s, scalar_parse(), i32::MIN as int, i32::MAX as int);
        assert(aggregate_with(s, done, scalar_parse()) == Map::<Seq<u8>, StatsModel>::empty());
        assert(fx_contents(hash).dom() =~= Set::<Seq<u8>>::empty());
    }
    loop
        invariant
            s == buf@,
            start <= buf.len(),
            records(s) == done + records_from(s, start as int),
            values_ok(s, done),
            fits_throughout(s, done, scalar_parse(), i32::MIN as int, i32::MAX as int),
            fx_models(fx_contents(hash), aggregate_with(s, done, scalar_parse())),
        decreases buf.len() - start,
    {
        let rest = &buf[start..buf.len()];
        let found1 = memchr(SEMICOLON, rest);
        proof {
            lemma_records_step(s, start as int);
        }
        match found1 {
            Some(i) => {
                let pos1 = start + i;
                proof {
                    assert(s[pos1 as int] == SEMICOLON);
                    assert forall|j: int| start <= j < pos1 implies s[j] != SEMICOLON by {
                        assert(rest@[j - start] == s[j]);
                    }
                    lemma_find_from_is(s, SEMICOLON, start as int, pos1 as int);
                }
                let remain = &buf[pos1 + 1..buf.len()];
                let found2 = memchr(NEWLINE, remain);
                match found2 {
                    Some(j) => {
                        let pos2 = pos1 + 1 + j;
                        let ghost r = (start as int, pos1 as int, pos2 as int);
                        proof {
                            assert(s[pos2 as int] == NEWLINE);
                            assert forall|k: int| pos1 + 1 <= k < pos2 implies s[k] != NEWLINE by {
                                assert(remain@[k - pos1 - 1] == s[k]);
                            }
                            lemma_find_from_is(s, NEWLINE, pos1 + 1, pos2 as int);
                            assert(records(s)[done.len() as int] == r);
                            assert(records(s).take(done.len() + 1int) =~= done.push(r));
                        }
                        let text = &buf[pos1 + 1..pos2];
                        if !scalar_within(text, 2147483647) {
                            proof {
                                assert(!value_ok(rec_value(s, records(s)[done.len() as int])));
                            }
                            return None;
                        }
                        let value = parse_value(text);
                        let name = &buf[start..pos1];
                        proof {
                            lemma_fx_fit(
                                fx_contents(hash),
                                aggregate_with(s, done, scalar_parse()),
                                name@,
                                value,
                            );
                            lemma_aggregate_push(s, done, r, scalar_parse());
                            assert(fits_throughout(s, done, scalar_parse(), i32::MIN as int, i32::MAX as int));
                            assert(done.take(done.len() as int) =~= done);
                        }
                        let ghost before = fx_contents(hash);
                        if !record_station(&mut hash, name, value) {
                            proof {
                                if fits_throughout(
                                    s,
                                    records(s),
                                    scalar_parse(),
                                    i32::MIN as int,
                                    i32::MAX as int,
                                ) {
                                    lemma_fits_prefix(
                                        s,
                                        records(s),
                                        done.len() + 1int,
                                        scalar_parse(),
                                        i32::MIN as int,
                                        i32::MAX as int,
                                    );
                                    assert(done.push(r).take(done.len() + 1int) =~= done.push(r));
                                }
                            }
                            return None;
                        }
                        proof {
                            lemma_fx_record(
                                before,
                                aggregate_with(s, done, scalar_parse()),
                                name@,
                                value,
                            );
                            lemma_fits_push(s, done, r, scalar_parse(), i32::MIN as int, i32::MAX as int);
                            assert(done.push(r) + records_from(s, pos2 + 1) =~= done + records_from(
                                s,
                                start as int,
                            ));
                            done = done.push(r);
                        }
                        start = pos2 + 1;
                    },
                    None => {
                        proof {
                            assert forall|k: int| pos1 + 1 <= k < s.len() implies s[k] != NEWLINE by {
                                assert(remain@[k - pos1 - 1] == s[k]);
                            }
                            lemma_find_from_none(s, NEWLINE, pos1 + 1);
                            assert(records(s) =~= done);
                        }
                        return Some(hash);
                    },
                }
            },
            None => {
                proof {
                    assert forall|k: int| start <= k < s.len() implies s[k] != SEMICOLON by {
                        assert(rest@[k - start] == s[k]);
                    }
                    lemma_find_from_none(s, SEMICOLON, start as int);
                    assert(records(s) =~= done);
                }
                return Some(hash);
            },
        }
    }
}


/// On a buffer whose records are written as the format says, every value reads, the
/// counts and sums fit exactly when they fit in tenths, and the statistics this variant
/// computes are the statistics in tenths: what [`aggregate_stations`] returns is then
/// the per-station minimum, maximum, count and sum of the buffer.
pub proof fn lemma_valid_buffer(s: Seq<u8>)
    requires
        valid_records(s),
    ensures
        values_ok(s, records(s)),
        aggregate_with(s, records(s), scalar_parse()) == aggregate(s, records(s)),
        fits_throughout(s, records(s), scalar_parse(), i32::MIN as int, i32::MAX as int)
            == fits_throughout(
            s,
            records(s),
            |v: Seq<u8>| tenths(v),
            i32::MIN as int,
            i32::MAX as int,
        ),
{
    let recs = records(s);
    assert forall|i: int| 0 <= i < recs.len() implies value_ok(rec_value(s, #[trigger] recs[i]))
        && scalar_parse()(rec_value(s, recs[i])) == tenths(rec_value(s, recs[i])) by {
        lemma_scalar_valid(rec_value(s, recs[i]));
        reveal_with_fuel(scalar_digits, 6);
    }
    lemma_aggregate_same(s, recs, scalar_parse());
    assert forall|k: int| 0 <= k <= recs.len() implies #[trigger] aggregate_with(
        s,
        recs.take(k),
        scalar_parse(),
    ) == aggregate_with(s, recs.take(k), |v: Seq<u8>| tenths(v)) by {
        assert forall|i: int| 0 <= i < recs.take(k).len() implies scalar_parse()(
            rec_value(s, #[trigger] recs.take(k)[i]),
        ) == tenths(rec_value(s, recs.take(k)[i])) by {
            assert(recs.take(k)[i] == recs[i]);
        }
        lemma_aggregate_same(s, recs.take(k), scalar_parse());
    }
    let lo = i32::MIN as int;
    let hi = i32::MAX as int;
    let t = |v: Seq<u8>| tenths(v);
    if fits_throughout(s, recs, scalar_parse(), lo, hi) {
        assert forall|k: int| 0 <= k <= recs.len() implies stats_fit(
            #[trigger] aggregate_with(s, recs.take(k), t),
            lo,
            hi,
        ) by {
            assert(stats_fit(aggregate_with(s, recs.take(k), scalar_parse()), lo, hi));
        }
    }
    if fits_throughout(s, recs, t, lo, hi) {
        assert forall|k: int| 0 <= k <= recs.len() implies stats_fit(
            #[trigger] aggregate_with(s, recs.take(k), scalar_parse()),
            lo,
            hi,
        ) by {
            assert(stats_fit(aggregate_with(s, recs.take(k), t), lo, hi));
        }
    }
}

} // verus!
