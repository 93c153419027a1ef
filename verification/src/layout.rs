//! Where the records of a buffer lie: the records of the format lie end to end, the
//! positions of their `;` and `\n` grow, and on a buffer of valid lines these are all
//! the `;` and `\n` it holds. Counting the entries of a growing sequence below a bound
//! locates a position among them.
use vstd::prelude::*;
use crate::format::{
    find_from, lemma_find_from, lemma_find_from_is, lemma_find_from_none, lemma_records_shape, lemma_value_plain,
    rec_value, record_shape, records, records_from, valid_buffer, valid_record, NEWLINE, SEMICOLON,
};

verus! {

/// The entries of `xs` grow strictly.
pub open spec fn increasing(xs: Seq<int>) -> bool {
    forall|i: int, j: int| 0 <= i < j < xs.len() ==> #[trigger] xs[i] < #[trigger] xs[j]
}

/// The index of the first entry of `xs` from `i` on that is at least `w`, or the length
/// when there is none.
pub open spec fn count_below_from(xs: Seq<int>, w: int, i: int) -> int
    decreases xs.len() - i,
{
    if 0 <= i < xs.len() {
        if xs[i] >= w {
            i
        } else {
            count_below_from(xs, w, i + 1)
        }
    } else {
        xs.len() as int
    }
}

/// The number of entries of an increasing `xs` below `w`.
pub open spec fn count_below(xs: Seq<int>, w: int) -> int {
    count_below_from(xs, w, 0)
}

pub proof fn lemma_count_below_from(xs: Seq<int>, w: int, i: int)
    requires
        increasing(xs),
        0 <= i <= xs.len(),
        forall|j: int| 0 <= j < i ==> xs[j] < w,
    ensures
        ({
            let k = count_below_from(xs, w, i);
            &&& i <= k <= xs.len()
            &&& forall|j: int| 0 <= j < k ==> xs[j] < w
            &&& forall|j: int| k <= j < xs.len() ==> xs[j] >= w
        }),
    decreases xs.len() - i,
{
    if i < xs.len() {
        if xs[i] >= w {
            assert forall|j: int| i <= j < xs.len() implies xs[j] >= w by {
                if j > i {
                    assert(xs[i] < xs[j]);
                }
            }
        } else {
            lemma_count_below_from(xs, w, i + 1);
        }
    }
}

/// The entries below `w` come first.
pub proof fn lemma_count_below(xs: Seq<int>, w: int)
    requires
        increasing(xs),
    ensures
        0 <= count_below(xs, w) <= xs.len(),
        forall|j: int| 0 <= j < count_below(xs, w) ==> xs[j] < w,
        forall|j: int| count_below(xs, w) <= j < xs.len() ==> xs[j] >= w,
{
    lemma_count_below_from(xs, w, 0);
}

/// The split point between the entries below `w` and the others is `k`.
pub proof fn lemma_count_below_is(xs: Seq<int>, w: int, k: int)
    requires
        increasing(xs),
        0 <= k <= xs.len(),
        forall|j: int| 0 <= j < k ==> xs[j] < w,
        forall|j: int| k <= j < xs.len() ==> xs[j] >= w,
    ensures
        count_below(xs, w) == k,
{
    lemma_count_below(xs, w);
    let k0 = count_below(xs, w);
    if k0 < k {
        assert(xs[k0] < w);
    } else if k0 > k {
        assert(xs[k] < w);
    }
}

/// Fewer entries lie below a smaller bound.
pub proof fn lemma_count_below_mono(xs: Seq<int>, w1: int, w2: int)
    requires
        increasing(xs),
        w1 <= w2,
    ensures
        count_below(xs, w1) <= count_below(xs, w2),
{
    lemma_count_below(xs, w1);
    lemma_count_below(xs, w2);
    if count_below(xs, w1) > count_below(xs, w2) {
        assert(xs[count_below(xs, w2)] < w1);
    }
}

/// Moving the bound past `w` counts `w` itself when it is an entry.
pub proof fn lemma_count_below_step(xs: Seq<int>, w: int)
    requires
        increasing(xs),
    ensures
        (exists|i: int| 0 <= i < xs.len() && xs[i] == w) ==> count_below(xs, w) < xs.len() && xs[count_below(xs, w)]
            == w && count_below(xs, w + 1) == count_below(xs, w) + 1,
        !(exists|i: int| 0 <= i < xs.len() && xs[i] == w) ==> count_below(xs, w + 1) == count_below(xs, w),
{
    lemma_count_below(xs, w);
    let k = count_below(xs, w);
    if exists|i: int| 0 <= i < xs.len() && xs[i] == w {
        let i = choose|i: int| 0 <= i < xs.len() && xs[i] == w;
        if i > k {
            assert(xs[k] < xs[i]);
        }
        assert(i == k);
        assert forall|j: int| k + 1 <= j < xs.len() implies xs[j] >= w + 1 by {
            assert(xs[k] < xs[j]);
        }
        lemma_count_below_is(xs, w + 1, k + 1);
    } else {
        assert forall|j: int| k <= j < xs.len() implies xs[j] >= w + 1 by {
            assert(xs[j] != w);
        }
        lemma_count_below_is(xs, w + 1, k);
    }
}

/// Where the records end.
pub open spec fn newline_at(recs: Seq<(int, int, int)>) -> Seq<int> {
    recs.map_values(|r: (int, int, int)| r.2)
}

/// Where the names of the records end.
pub open spec fn semi_at(recs: Seq<(int, int, int)>) -> Seq<int> {
    recs.map_values(|r: (int, int, int)| r.1)
}

/// The records from `start` on lie end to end from `start`.
pub proof fn lemma_records_contiguous(s: Seq<u8>, start: int)
    requires
        0 <= start,
    ensures
        records_from(s, start).len() > 0 ==> records_from(s, start)[0].0 == start,
        forall|i: int|
            0 < i < records_from(s, start).len() ==> (#[trigger] records_from(s, start)[i]).0 == records_from(
                s,
                start,
            )[i - 1].2 + 1,
    decreases s.len() - start,
{
    if 0 <= start < s.len() {
        let p1 = find_from(s, SEMICOLON, start);
        lemma_find_from(s, SEMICOLON, start);
        if p1 >= 0 {
            let p2 = find_from(s, NEWLINE, p1 + 1);
            lemma_find_from(s, NEWLINE, p1 + 1);
            if p2 >= 0 {
                lemma_records_contiguous(s, p2 + 1);
                let all = records_from(s, start);
                let rest = records_from(s, p2 + 1);
                assert(all == seq![(start, p1, p2)] + rest);
                assert forall|i: int| 0 < i < all.len() implies (#[trigger] all[i]).0 == all[i - 1].2 + 1 by {
                    assert(all[i] == rest[i - 1]);
                    if i > 1 {
                        assert(all[i - 1] == rest[i - 2]);
                    }
                }
            }
        }
    }
}

/// The layout of a buffer of valid lines: the records lie end to end from the first
/// byte, their `;` and `\n` positions grow, and these are the only `;` and `\n` of the
/// buffer.
pub proof fn lemma_valid_layout(s: Seq<u8>)
    requires
        valid_buffer(s),
    ensures
        ({
            let recs = records(s);
            &&& laid_out(recs)
            &&& increasing(newline_at(recs))
            &&& increasing(semi_at(recs))
            &&& forall|i: int| 0 <= i < recs.len() ==> record_shape(s, #[trigger] recs[i])
            &&& marks(s, newline_at(recs), NEWLINE)
            &&& marks(s, semi_at(recs), SEMICOLON)
        }),
{
    let recs = records(s);
    let nl = newline_at(recs);
    let sm = semi_at(recs);
    lemma_records_contiguous(s, 0);
    lemma_records_shape(s, 0);
    assert forall|i: int| 0 <= i < recs.len() implies (#[trigger] recs[i]).0 <= recs[i].1 < recs[i].2 by {
        assert(record_shape(s, recs[i]));
    }
    lemma_laid_out_increasing(recs);
    assert forall|i: int| 0 <= i < recs.len() implies record_shape(s, #[trigger] recs[i]) && valid_record(s, recs[i]) by {
        assert(record_shape(s, recs[i]));
    }
    assert forall|p: int| 0 <= p < s.len() && s[p] == NEWLINE implies exists|i: int|
        0 <= i < nl.len() && nl[i] == p by {
        lemma_valid_byte(s, recs, p);
    }
    assert forall|p: int| 0 <= p < s.len() && s[p] == SEMICOLON implies exists|i: int|
        0 <= i < sm.len() && sm[i] == p by {
        lemma_valid_byte(s, recs, p);
    }
    assert forall|i: int| 0 <= i < nl.len() implies 0 <= #[trigger] nl[i] < s.len() && s[nl[i]] == NEWLINE by {
        assert(record_shape(s, recs[i]));
    }
    assert forall|i: int| 0 <= i < sm.len() implies 0 <= #[trigger] sm[i] < s.len() && s[sm[i]] == SEMICOLON by {
        assert(record_shape(s, recs[i]));
    }
}

/// Records laid end to end from byte 0, each with its name before its `;` and its
/// value before its `\n`.
pub open spec fn laid_out(recs: Seq<(int, int, int)>) -> bool {
    &&& recs.len() > 0 ==> recs[0].0 == 0
    &&& forall|i: int| 0 < i < recs.len() ==> (#[trigger] recs[i]).0 == recs[i - 1].2 + 1
    &&& forall|i: int| 0 <= i < recs.len() ==> (#[trigger] recs[i]).0 <= recs[i].1 < recs[i].2
}

/// A record laid out after another has its `;` after the other's `\n`.
pub proof fn lemma_laid_out_order(recs: Seq<(int, int, int)>, i: int, j: int)
    requires
        laid_out(recs),
        0 <= i < j < recs.len(),
    ensures
        recs[i].2 < recs[j].1,
    decreases j - i,
{
    assert(recs[j].0 == recs[j - 1].2 + 1);
    assert(recs[j].0 <= recs[j].1 < recs[j].2);
    if j > i + 1 {
        lemma_laid_out_order(recs, i, j - 1);
        assert(recs[j - 1].0 <= recs[j - 1].1 < recs[j - 1].2);
    }
}

/// The `;` and `\n` positions of records laid out grow.
pub proof fn lemma_laid_out_increasing(recs: Seq<(int, int, int)>)
    requires
        laid_out(recs),
    ensures
        increasing(newline_at(recs)),
        increasing(semi_at(recs)),
{
    let nl = newline_at(recs);
    let sm = semi_at(recs);
    assert forall|i: int, j: int| 0 <= i < j < nl.len() implies #[trigger] nl[i] < #[trigger] nl[j] by {
        lemma_laid_out_order(recs, i, j);
        assert(recs[j].0 <= recs[j].1 < recs[j].2);
    }
    assert forall|i: int, j: int| 0 <= i < j < sm.len() implies #[trigger] sm[i] < #[trigger] sm[j] by {
        lemma_laid_out_order(recs, i, j);
        assert(recs[i].0 <= recs[i].1 < recs[i].2);
    }
}

/// A `;` or `\n` of a buffer of valid lines ends the name or the value of the record
/// whose value ends at or after it.
pub proof fn lemma_valid_byte(s: Seq<u8>, recs: Seq<(int, int, int)>, p: int)
    requires
        laid_out(recs),
        increasing(newline_at(recs)),
        recs.len() > 0,
        recs.last().2 == s.len() - 1,
        forall|i: int| 0 <= i < recs.len() ==> record_shape(s, #[trigger] recs[i]) && valid_record(s, recs[i]),
        0 <= p < s.len(),
    ensures
        ({
            let k = count_below(newline_at(recs), p);
            &&& 0 <= k < recs.len()
            &&& s[p] == NEWLINE ==> newline_at(recs)[k] == p
            &&& s[p] == SEMICOLON ==> semi_at(recs)[k] == p
        }),
{
    let nl = newline_at(recs);
    lemma_count_below(nl, p);
    let k = count_below(nl, p);
    assert(nl[recs.len() - 1] == s.len() - 1);
    let r = recs[k];
    assert(nl[k] == r.2);
    if k > 0 {
        assert(nl[k - 1] == recs[k - 1].2);
        assert(r.0 == recs[k - 1].2 + 1);
    }
    lemma_record_bytes(s, r, p);
}

/// Within a valid record, its `;` is the only `;` and its `\n` the only `\n`.
pub proof fn lemma_record_bytes(s: Seq<u8>, r: (int, int, int), p: int)
    requires
        record_shape(s, r),
        valid_record(s, r),
        r.0 <= p <= r.2,
    ensures
        s[p] == NEWLINE ==> p == r.2,
        s[p] == SEMICOLON ==> p == r.1,
{
    lemma_value_plain(rec_value(s, r));
    if r.1 < p < r.2 {
        assert(rec_value(s, r)[p - r.1 - 1] == s[p]);
    }
}

/// The bytes `d` of `s` are exactly at the positions `xs`.
pub open spec fn marks(s: Seq<u8>, xs: Seq<int>, d: u8) -> bool {
    &&& forall|p: int| 0 <= p < s.len() && s[p] == d ==> exists|i: int| 0 <= i < xs.len() && xs[i] == p
    &&& forall|i: int| 0 <= i < xs.len() ==> 0 <= #[trigger] xs[i] < s.len() && s[xs[i]] == d
}

/// Searching a prefix of `s` finds what searching `s` finds, when it lies in the prefix.
pub proof fn lemma_find_prefix(s: Seq<u8>, w: int, d: u8, from: int)
    requires
        0 <= from,
        0 <= w <= s.len(),
    ensures
        find_from(s.take(w), d, from) == (if 0 <= find_from(s, d, from) < w {
            find_from(s, d, from)
        } else {
            -1
        }),
{
    let q = s.take(w);
    lemma_find_from(s, d, from);
    let f = find_from(s, d, from);
    if 0 <= f < w {
        lemma_find_from_is(q, d, from, f);
    } else {
        assert forall|j: int| from <= j < q.len() implies q[j] != d by {
            assert(q[j] == s[j]);
        }
        lemma_find_from_none(q, d, from);
    }
}

/// The records of a prefix of `s` are the records of `s` that end in it.
pub proof fn lemma_records_take(s: Seq<u8>, w: int, b: int) -> (k: int)
    requires
        0 <= b,
        0 <= w <= s.len(),
    ensures
        0 <= k <= records_from(s, b).len(),
        records_from(s.take(w), b) == records_from(s, b).take(k),
        forall|i: int| 0 <= i < k ==> (#[trigger] records_from(s, b)[i]).2 < w,
        k < records_from(s, b).len() ==> records_from(s, b)[k].2 >= w,
    decreases s.len() - b,
{
    let q = s.take(w);
    let all = records_from(s, b);
    if b >= s.len() {
        assert(records_from(q, b) =~= all.take(0));
        0
    } else {
        lemma_find_prefix(s, w, SEMICOLON, b);
        lemma_find_from(s, SEMICOLON, b);
        let p1 = find_from(s, SEMICOLON, b);
        if p1 < 0 {
            assert(records_from(q, b) =~= all.take(0));
            0
        } else {
            lemma_find_prefix(s, w, NEWLINE, p1 + 1);
            lemma_find_from(s, NEWLINE, p1 + 1);
            let p2 = find_from(s, NEWLINE, p1 + 1);
            if p2 < 0 {
                assert(records_from(q, b) =~= all.take(0));
                0
            } else if p2 >= w {
                assert(records_from(q, b) =~= all.take(0));
                assert(all[0] == (b, p1, p2));
                0
            } else {
                let k1 = lemma_records_take(s, w, p2 + 1);
                let rest = records_from(s, p2 + 1);
                assert(all == seq![(b, p1, p2)] + rest);
                assert(records_from(q, b) == seq![(b, p1, p2)] + records_from(q, p2 + 1));
                assert(records_from(q, b) =~= all.take(k1 + 1));
                assert forall|i: int| 0 <= i < k1 + 1 implies (#[trigger] all[i]).2 < w by {
                    if i > 0 {
                        assert(all[i] == rest[i - 1]);
                    }
                }
                if k1 + 1 < all.len() {
                    assert(all[k1 + 1] == rest[k1]);
                }
                k1 + 1
            }
        }
    }
}

} // verus!
