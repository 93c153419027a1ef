//! Bitmask delimiter scanning over 64-byte blocks driven by a two-state line machine,
//! values read by a scalar loop, statistics kept in an `FxHashMap`.
use vstd::prelude::*;
use crate::delims::{
    delim_records, delim_records_from, lemma_next_delim, reads_to_end, DelimScanner,
};
use crate::format::{rec_value, records, scalar_within, tenths, valid_buffer};
use crate::fxmap::{
    fx_contents, fx_models, fx_with_capacity, lemma_fx_fit, lemma_fx_record, record_station,
    FxStations,
};
use crate::stats::{
    aggregate_with, fits_throughout, lemma_aggregate_push, lemma_fits_empty, lemma_fits_prefix,
    lemma_fits_push, StatsModel,
};
use crate::ver7::{scalar_parse, value_ok, values_ok};

pub use crate::ver7::parse_value;

verus! {

/// A buffer this variant reads to its end: at least one whole block, and no line
/// without both delimiters.
pub open spec fn complete(s: Seq<u8>) -> bool {
    s.len() >= 64 && reads_to_end(s, 0)
}

/// The statistics of every station in `buf`, keyed by name: records are read between
/// delimiters (a name runs to the next `;` or `\n`, its value to the one after) and
/// values by [`parse_value`]. `None` when the buffer is shorter than one block or ends in
/// a line without both delimiters, when a value text cannot be read into an `i32`, or
/// when a count would leave `u32` or a sum `i32`.
pub fn aggregate_stations(buf: &[u8]) -> (r: Option<FxStations>)
    ensures
        r is Some <==> complete(buf@) && values_ok(buf@, delim_records(buf@)) && fits_throughout(
            buf@,
            delim_records(buf@),
            scalar_parse(),
            i32::MIN as int,
            i32::MAX as int,
        ),
        r matches Some(m) ==> fx_models(fx_contents(m), aggregate_with(buf@, delim_records(buf@), scalar_parse())),
{
    let n = buf.len();
    if n < 64 {
        return None;
    }
    let ghost s = buf@;
    let ghost mut done: Seq<(int, int, int)> = seq![];
    let mut hash = fx_with_capacity(16384);
    let mut scanner = DelimScanner::new(buf);
    let mut line_begin: usize = 0;
    proof {
        lemma_fits_empty(s, scalar_parse(), i32::MIN as int, i32::MAX as int);
        assert(aggregate_with(s, done, scalar_parse()) == Map::<Seq<u8>, StatsModel>::empty());
        assert(fx_contents(hash).dom() =~= Set::<Seq<u8>>::empty());
        assert(done + delim_records_from(s, 0) =~= delim_records(s));
    }
    loop
        invariant
            s == buf@,
            n == s.len(),
            n >= 64,
            scanner.inv(s),
            scanner.pos@ == line_begin,
            line_begin <= n,
            delim_records(s) == done + delim_records_from(s, line_begin as int),
            reads_to_end(s, 0) == reads_to_end(s, line_begin as int),
            values_ok(s, done),
            fits_throughout(s, done, scalar_parse(), i32::MIN as int, i32::MAX as int),
            fx_models(fx_contents(hash), aggregate_with(s, done, scalar_parse())),
        decreases n - line_begin,
    {
        if line_begin >= n {
            proof {
                assert(delim_records(s) =~= done);
            }
            return Some(hash);
        }
        proof {
            lemma_next_delim(s, line_begin as int);
        }
        let pos1 = match scanner.next(buf) {
            Some(p) => p,
            None => {
                return None;
            },
        };
        proof {
            lemma_next_delim(s, pos1 + 1);
        }
        let pos2 = match scanner.next(buf) {
            Some(p) => p,
            None => {
                return None;
            },
        };
        let ghost r = (line_begin as int, pos1 as int, pos2 as int);
        proof {
            assert(delim_records_from(s, line_begin as int) == seq![r] + delim_records_from(s, pos2 + 1));
            assert(delim_records(s)[done.len() as int] == r);
            assert(delim_records(s).take(done.len() + 1int) =~= done.push(r));
        }
        let text = vstd::slice::slice_subrange(buf, pos1 + 1, pos2);
        if !scalar_within(text, 2147483647) {
            proof {
                assert(!value_ok(rec_value(s, delim_records(s)[done.len() as int])));
            }
            return None;
        }
        let value = parse_value(text);
        let name = vstd::slice::slice_subrange(buf, line_begin, pos1);
        proof {
            lemma_fx_fit(fx_contents(hash), aggregate_with(s, done, scalar_parse()), name@, value);
            lemma_aggregate_push(s, done, r, scalar_parse());
            assert(done.take(done.len() as int) =~= done);
        }
        let ghost before = fx_contents(hash);
        if !record_station(&mut hash, name, value) {
            proof {
                if fits_throughout(s, delim_records(s), scalar_parse(), i32::MIN as int, i32::MAX as int) {
                    lemma_fits_prefix(
                        s,
                        delim_records(s),
                        done.len() + 1int,
                        scalar_parse(),
                        i32::MIN as int,
                        i32::MAX as int,
                    );
                    assert(done.push(r).take(done.len() + 1int) =~= done.push(r));
                }
            }
            return None;
        }
        proof {
            lemma_fx_record(before, aggregate_with(s, done, scalar_parse()), name@, value);
            lemma_fits_push(s, done, r, scalar_parse(), i32::MIN as int, i32::MAX as int);
            assert(done.push(r) + delim_records_from(s, pos2 + 1) =~= done + delim_records_from(
                s,
                line_begin as int,
            ));
            done = done.push(r);
        }
        line_begin = pos2 + 1;
    }
}

/// On a buffer of at least one block made of valid lines, [`aggregate_stations`] reads
/// every record of the format to the end of the buffer, every value reads as its
/// tenths, and the counts and sums fit exactly when they fit in tenths: what it returns
/// is then the per-station minimum, maximum, count and sum of the buffer, and it
/// returns it exactly when those fit their widths.
pub proof fn lemma_valid_buffer(s: Seq<u8>)
    requires
        valid_buffer(s),
        s.len() >= 64,
    ensures
        complete(s),
        delim_records(s) == records(s),
        values_ok(s, records(s)),
        aggregate_with(s, records(s), scalar_parse()) == crate::stats::aggregate(s, records(s)),
        fits_throughout(s, records(s), scalar_parse(), i32::MIN as int, i32::MAX as int)
            == fits_throughout(s, records(s), |v: Seq<u8>| tenths(v), i32::MIN as int, i32::MAX as int),
{
    crate::delims::lemma_delim_records_valid(s);
    crate::ver7::lemma_valid_buffer(s);
}

/// On a buffer of at least one block made of lines whose names hold no `\n` and whose
/// value texts hold no `;` or `\n`, the last ending the buffer, this variant and
/// [`crate::ver7::aggregate_stations`] succeed on the same buffers and then describe
/// the same statistics: both find the same records, and each returns a map exactly when
/// those records' values read and their counts and sums fit.
pub proof fn lemma_agrees_with_ver7(s: Seq<u8>)
    requires
        crate::delims::plain_buffer(s),
        s.len() >= 64,
    ensures
        (complete(s) && values_ok(s, delim_records(s)) && fits_throughout(
            s,
            delim_records(s),
            scalar_parse(),
            i32::MIN as int,
            i32::MAX as int,
        )) == (values_ok(s, records(s)) && fits_throughout(
            s,
            records(s),
            scalar_parse(),
            i32::MIN as int,
            i32::MAX as int,
        )),
        aggregate_with(s, delim_records(s), scalar_parse()) == aggregate_with(s, records(s), scalar_parse()),
{
    crate::delims::lemma_delim_records_plain(s);
}

} // verus!
