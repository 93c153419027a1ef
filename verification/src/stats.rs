//! Statistics of one station, and the statistics of every station over a list of records.
use vstd::prelude::*;
use crate::format::{rec_name, rec_value, records, tenths};

verus! {

/// Minimum, maximum, number and sum of the values of one station, in tenths.
pub struct StatsModel {
    pub min: int,
    pub max: int,
    pub count: nat,
    pub sum: int,
}

/// The statistics of a single value.
pub open spec fn stats_first(v: int) -> StatsModel {
    StatsModel { min: v, max: v, count: 1, sum: v }
}

/// The statistics after one more value.
pub open spec fn stats_add(s: StatsModel, v: int) -> StatsModel {
    StatsModel {
        min: if v < s.min { v } else { s.min },
        max: if v > s.max { v } else { s.max },
        count: s.count + 1,
        sum: s.sum + v,
    }
}

/// The statistics map after recording `v` for `name`.
pub open spec fn record_value(m: Map<Seq<u8>, StatsModel>, name: Seq<u8>, v: int) -> Map<
    Seq<u8>,
    StatsModel,
> {
    m.insert(
        name,
        if m.contains_key(name) {
            stats_add(m[name], v)
        } else {
            stats_first(v)
        },
    )
}

/// The statistics of every station over the records `recs` of buffer `s`, each value
/// text read by `parse`.
pub open spec fn aggregate_with(
    s: Seq<u8>,
    recs: Seq<(int, int, int)>,
    parse: spec_fn(Seq<u8>) -> int,
) -> Map<Seq<u8>, StatsModel>
    decreases recs.len(),
{
    if recs.len() == 0 {
        Map::empty()
    } else {
        let r = recs.last();
        record_value(
            aggregate_with(s, recs.drop_last(), parse),
            rec_name(s, r),
            parse(rec_value(s, r)),
        )
    }
}

/// The statistics of every station over the records `recs` of buffer `s`, each value
/// read as tenths.
pub open spec fn aggregate(s: Seq<u8>, recs: Seq<(int, int, int)>) -> Map<Seq<u8>, StatsModel> {
    aggregate_with(s, recs, |v: Seq<u8>| tenths(v))
}

/// Every count of `m` fits a `u32` and every sum lies in `lo..=hi`.
pub open spec fn stats_fit(m: Map<Seq<u8>, StatsModel>, lo: int, hi: int) -> bool {
    forall|k: Seq<u8>| #[trigger] m.contains_key(k) ==> m[k].count <= u32::MAX && lo <= m[k].sum <= hi
}

/// After every prefix of `recs` the statistics fit: counting the records one by one
/// never leaves the widths that hold the counts and sums.
pub open spec fn fits_throughout(
    s: Seq<u8>,
    recs: Seq<(int, int, int)>,
    parse: spec_fn(Seq<u8>) -> int,
    lo: int,
    hi: int,
) -> bool {
    forall|k: int| 0 <= k <= recs.len() ==> stats_fit(#[trigger] aggregate_with(s, recs.take(k), parse), lo, hi)
}

/// When every record of `recs` satisfies `p`, and `parse` agrees with tenths on those
/// records, the statistics read by `parse` are the statistics in tenths.
pub proof fn lemma_aggregate_same(
    s: Seq<u8>,
    recs: Seq<(int, int, int)>,
    parse: spec_fn(Seq<u8>) -> int,
)
    requires
        forall|i: int| 0 <= i < recs.len() ==> parse(rec_value(s, #[trigger] recs[i])) == tenths(rec_value(s, recs[i])),
    ensures
        aggregate_with(s, recs, parse) == aggregate(s, recs),
    decreases recs.len(),
{
    if recs.len() > 0 {
        lemma_aggregate_same(s, recs.drop_last(), parse);
        assert(parse(rec_value(s, recs[recs.len() - 1])) == tenths(rec_value(s, recs[recs.len() - 1])));
    }
}

/// The statistics of every station in the buffer.
pub open spec fn aggregate_buffer(s: Seq<u8>) -> Map<Seq<u8>, StatsModel> {
    aggregate(s, records(s))
}


/// Recording one more record extends the statistics by that record's value.
pub proof fn lemma_aggregate_push(
    s: Seq<u8>,
    recs: Seq<(int, int, int)>,
    r: (int, int, int),
    parse: spec_fn(Seq<u8>) -> int,
)
    ensures
        aggregate_with(s, recs.push(r), parse) == record_value(
            aggregate_with(s, recs, parse),
            rec_name(s, r),
            parse(rec_value(s, r)),
        ),
{
    assert(recs.push(r).drop_last() =~= recs);
}

/// The statistics fit throughout one more record when they fit throughout the records
/// before it and after it.
pub proof fn lemma_fits_push(
    s: Seq<u8>,
    recs: Seq<(int, int, int)>,
    r: (int, int, int),
    parse: spec_fn(Seq<u8>) -> int,
    lo: int,
    hi: int,
)
    requires
        fits_throughout(s, recs, parse, lo, hi),
        stats_fit(aggregate_with(s, recs.push(r), parse), lo, hi),
    ensures
        fits_throughout(s, recs.push(r), parse, lo, hi),
{
    assert forall|k: int| 0 <= k <= recs.push(r).len() implies stats_fit(
        #[trigger] aggregate_with(s, recs.push(r).take(k), parse),
        lo,
        hi,
    ) by {
        if k <= recs.len() {
            assert(recs.push(r).take(k) =~= recs.take(k));
        } else {
            assert(recs.push(r).take(k) =~= recs.push(r));
        }
    }
}

/// The statistics do not fit throughout the records when they do not fit after some
/// prefix of them.
pub proof fn lemma_fits_prefix(
    s: Seq<u8>,
    recs: Seq<(int, int, int)>,
    k: int,
    parse: spec_fn(Seq<u8>) -> int,
    lo: int,
    hi: int,
)
    requires
        0 <= k <= recs.len(),
        fits_throughout(s, recs, parse, lo, hi),
    ensures
        fits_throughout(s, recs.take(k), parse, lo, hi),
{
    assert forall|j: int| 0 <= j <= recs.take(k).len() implies stats_fit(
        #[trigger] aggregate_with(s, recs.take(k).take(j), parse),
        lo,
        hi,
    ) by {
        assert(recs.take(k).take(j) =~= recs.take(j));
    }
}

/// No record so far: the statistics are empty and fit.
pub proof fn lemma_fits_empty(s: Seq<u8>, parse: spec_fn(Seq<u8>) -> int, lo: int, hi: int)
    ensures
        fits_throughout(s, seq![], parse, lo, hi),
{
    assert forall|k: int| 0 <= k <= 0 implies stats_fit(
        #[trigger] aggregate_with(s, Seq::<(int, int, int)>::empty().take(k), parse),
        lo,
        hi,
    ) by {
        assert(Seq::<(int, int, int)>::empty().take(k) =~= seq![]);
    }
}


/// The statistics of every station over the records `recs` of buffer `s`, each record's
/// value read by `rval` from the buffer and the record's positions.
pub open spec fn aggregate_rec(
    s: Seq<u8>,
    recs: Seq<(int, int, int)>,
    rval: spec_fn(Seq<u8>, (int, int, int)) -> int,
) -> Map<Seq<u8>, StatsModel>
    decreases recs.len(),
{
    if recs.len() == 0 {
        Map::empty()
    } else {
        let r = recs.last();
        record_value(aggregate_rec(s, recs.drop_last(), rval), rec_name(s, r), rval(s, r))
    }
}

/// When `rval` reads every record of `recs` as its tenths, the statistics read by
/// `rval` are the statistics in tenths.
pub proof fn lemma_aggregate_rec_tenths(
    s: Seq<u8>,
    recs: Seq<(int, int, int)>,
    rval: spec_fn(Seq<u8>, (int, int, int)) -> int,
)
    requires
        forall|i: int| 0 <= i < recs.len() ==> rval(s, #[trigger] recs[i]) == tenths(rec_value(s, recs[i])),
    ensures
        aggregate_rec(s, recs, rval) == aggregate(s, recs),
    decreases recs.len(),
{
    if recs.len() > 0 {
        let prev = recs.drop_last();
        assert forall|i: int| 0 <= i < prev.len() implies rval(s, #[trigger] prev[i]) == tenths(
            rec_value(s, prev[i]),
        ) by {
            assert(prev[i] == recs[i]);
        }
        lemma_aggregate_rec_tenths(s, prev, rval);
        assert(rval(s, recs[recs.len() - 1]) == tenths(rec_value(s, recs[recs.len() - 1])));
    }
}

} // verus!
