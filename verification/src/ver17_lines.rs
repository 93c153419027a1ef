//! Which lines the block reader of [`crate::ver17`] reads. Only the first `;` and the
//! first `\n` of every 8-byte group count, and a `;` left over at the end of a block is
//! carried into the next one as a signed byte, read as signed only by a batch of four.
//! On a buffer of valid lines whose 8-byte groups hold at most one `;` and one `\n`
//! each, and whose lines that cross a block boundary after their `;` are read in a batch
//! of four, the reader reads exactly the records of the whole blocks.
use vstd::prelude::*;
use crate::bits::packed_key;
use crate::format::{
    lemma_value_len, rec_value, record_shape, records, tenths, valid_buffer, valid_record, NEWLINE, SEMICOLON,
};
use crate::layout::{
    count_below, increasing, laid_out, lemma_count_below, lemma_count_below_is, lemma_count_below_mono,
    lemma_count_below_step, lemma_laid_out_increasing, lemma_laid_out_order, lemma_valid_layout, marks, newline_at,
    semi_at,
};
use crate::stats::{aggregate, fits_throughout};
use crate::table::{agg_zero, fresh_model, keys_distinct, lemma_fold_push, slots_hold, EntryModel};
use crate::ver12::{fold_info, home_slot, lemma_short_tenths, lemma_valid_records_fold, short_value};
use crate::ver18::lemma_lane_tenths;
use crate::ver17::{
    batched, block_carry, block_line, block_lines, block_next_start, block_ok, first_in_group, fold_lines,
    group_firsts, newls, run_lines, semis,
};

verus! {

/// The offsets `i < m` within the block at `c` of the bytes `d`, in order.
pub open spec fn offsets(s: Seq<u8>, c: int, d: u8, m: int) -> Seq<int>
    decreases m,
{
    if m <= 0 {
        seq![]
    } else {
        let p = offsets(s, c, d, m - 1);
        if s[c + m - 1] == d {
            p.push(m - 1)
        } else {
            p
        }
    }
}

/// No aligned 8-byte group of `s[lo..hi]` holds the byte `d` twice.
pub open spec fn groups_single(s: Seq<u8>, lo: int, hi: int, d: u8) -> bool {
    forall|x: int, y: int|
        #![trigger s[x], s[y]]
        lo <= x < y < hi && x / 8 == y / 8 && s[x] == d ==> s[y] != d
}

/// A group with no byte `d` from `j` on has no first one there.
proof fn lemma_first_none(s: Seq<u8>, c: int, g: int, d: u8, j: int)
    requires
        0 <= j,
        forall|x: int| c + 8 * g + j <= x < c + 8 * g + 8 ==> s[x] != d,
    ensures
        first_in_group(s, c, g, d, j) == -1,
    decreases 8 - j,
{
    if j < 8 {
        lemma_first_none(s, c, g, d, j + 1);
    }
}

/// The bytes `d` of group `g` from byte `j` on are its first one from `j` on, if any.
proof fn lemma_group_tail(s: Seq<u8>, c: int, g: int, d: u8, j: int)
    requires
        c % 8 == 0,
        0 <= c,
        0 <= g < 16,
        0 <= j <= 8,
        c + 128 <= s.len(),
        groups_single(s, c, c + 128, d),
    ensures
        offsets(s, c, d, 8 * g + 8) == offsets(s, c, d, 8 * g + j) + (if first_in_group(s, c, g, d, j) >= 0 {
            seq![first_in_group(s, c, g, d, j)]
        } else {
            Seq::<int>::empty()
        }),
    decreases 8 - j,
{
    if j == 8 {
        assert(offsets(s, c, d, 8 * g + 8) + Seq::<int>::empty() =~= offsets(s, c, d, 8 * g + 8));
    } else {
        lemma_group_tail(s, c, g, d, j + 1);
        let x = c + 8 * g + j;
        assert(offsets(s, c, d, 8 * g + j + 1) == (if s[x] == d {
            offsets(s, c, d, 8 * g + j).push(8 * g + j)
        } else {
            offsets(s, c, d, 8 * g + j)
        }));
        if s[x] == d {
            assert forall|y: int| c + 8 * g + j + 1 <= y < c + 8 * g + 8 implies s[y] != d by {
                assert(x / 8 == y / 8);
            }
            lemma_first_none(s, c, g, d, j + 1);
            assert(offsets(s, c, d, 8 * g + j).push(8 * g + j) =~= offsets(s, c, d, 8 * g + j) + seq![8 * g + j]);
        }
    }
}

/// On a block whose groups hold `d` at most once each, the first `d` of every group are
/// all its bytes `d`.
pub proof fn lemma_group_firsts_all(s: Seq<u8>, c: int, d: u8, n: int)
    requires
        c % 8 == 0,
        0 <= c,
        0 <= n <= 16,
        c + 128 <= s.len(),
        groups_single(s, c, c + 128, d),
    ensures
        group_firsts(s, c, d, n) == offsets(s, c, d, 8 * n),
    decreases n,
{
    if n > 0 {
        lemma_group_firsts_all(s, c, d, n - 1);
        lemma_group_tail(s, c, n - 1, d, 0);
        let f = first_in_group(s, c, n - 1, d, 0);
        if f >= 0 {
            assert(group_firsts(s, c, d, n - 1).push(f) =~= group_firsts(s, c, d, n - 1) + seq![f]);
        } else {
            assert(group_firsts(s, c, d, n - 1) + Seq::<int>::empty() =~= group_firsts(s, c, d, n - 1));
        }
    }
}

/// The offsets of the bytes `d` in `s[c..c + m]`, when those bytes are exactly the
/// entries of the increasing `xs` there, are those entries moved back by `c`.
pub proof fn lemma_offsets_entries(s: Seq<u8>, c: int, d: u8, xs: Seq<int>, m: int)
    requires
        increasing(xs),
        0 <= c,
        0 <= m,
        c + m <= s.len(),
        forall|p: int| c <= p < c + m && s[p] == d ==> exists|i: int| 0 <= i < xs.len() && xs[i] == p,
        forall|i: int| 0 <= i < xs.len() && c <= #[trigger] xs[i] < c + m ==> s[xs[i]] == d,
    ensures
        offsets(s, c, d, m) =~= Seq::new(
            (count_below(xs, c + m) - count_below(xs, c)) as nat,
            |t: int| xs[count_below(xs, c) + t] - c,
        ),
    decreases m,
{
    let a = count_below(xs, c);
    if m == 0 {
    } else {
        lemma_offsets_entries(s, c, d, xs, m - 1);
        let p = c + m - 1;
        lemma_count_below_mono(xs, c, p);
        lemma_count_below_step(xs, p);
        lemma_count_below(xs, p);
        let k0 = count_below(xs, p);
        if s[p] == d {
            assert(xs[k0] == p);
        } else {
            if exists|i: int| 0 <= i < xs.len() && xs[i] == p {
                let i = choose|i: int| 0 <= i < xs.len() && xs[i] == p;
                assert(s[xs[i]] == d);
            }
        }
    }
}

/// The index of the first record whose `\n` lies at or after `w`.
pub open spec fn first_line(recs: Seq<(int, int, int)>, w: int) -> int {
    count_below(newline_at(recs), w)
}

/// Where the first line that ends at or after `w` starts: after the `\n` of the record
/// before it, or at 0.
pub open spec fn start_at(recs: Seq<(int, int, int)>, w: int) -> int {
    let a = first_line(recs, w);
    if a == 0 {
        0
    } else {
        recs[a - 1].2 + 1
    }
}

/// The first line that ends at or after `w` has its `;` before `w`.
pub open spec fn spans(recs: Seq<(int, int, int)>, w: int) -> bool {
    let a = first_line(recs, w);
    a < recs.len() && recs[a].1 < w
}

/// The byte carried into the block at `c`: the offset of the `;` of the line that
/// crosses into it, from the block before, as a signed byte.
pub open spec fn carry_at(recs: Seq<(int, int, int)>, c: int) -> Option<u8> {
    if spans(recs, c) {
        Some((recs[first_line(recs, c)].1 - c + 256) as u8)
    } else {
        None
    }
}

/// Every line that crosses a block boundary after its `;` is read in a batch of four
/// with its `;` carried from the block before: its `;` lies in the block before, that
/// block has fewer than sixteen `\n` offsets (so the carried byte is not lost), and the
/// block it enters has at least four.
pub open spec fn carries_ok(s: Seq<u8>) -> bool {
    forall|c: int|
        0 < c && c % 128 == 0 && c + 128 <= s.len() && #[trigger] spans(records(s), c) ==> {
            &&& newls(s, c).len() >= 4
            &&& newls(s, c - 128).len() < 16
            &&& records(s)[first_line(records(s), c)].1 >= c - 128
        }
}

/// The records whose `;` lies before `w` are those that end before `w`, and one more when
/// a line crosses `w` after its `;`.
proof fn lemma_semi_count(recs: Seq<(int, int, int)>, w: int)
    requires
        laid_out(recs),
    ensures
        count_below(semi_at(recs), w) == first_line(recs, w) + (if spans(recs, w) {
            1int
        } else {
            0
        }),
{
    let nl = newline_at(recs);
    let sm = semi_at(recs);
    lemma_laid_out_increasing(recs);
    lemma_count_below(nl, w);
    let a = first_line(recs, w);
    let k = a + (if spans(recs, w) {
        1int
    } else {
        0
    });
    assert forall|j: int| 0 <= j < k implies sm[j] < w by {
        assert(recs[j].0 <= recs[j].1 < recs[j].2);
        if j < a {
            assert(nl[j] < w);
        }
    }
    assert forall|j: int| k <= j < sm.len() implies sm[j] >= w by {
        if j > a {
            lemma_laid_out_order(recs, a, j);
            assert(nl[a] >= w);
        }
    }
    lemma_count_below_is(sm, w, k);
}

/// On a block whose groups hold at most one `d` each, the first `d` of the groups are
/// all the marked positions in the block.
proof fn lemma_block_offsets(s: Seq<u8>, c: int, d: u8, xs: Seq<int>)
    requires
        increasing(xs),
        marks(s, xs, d),
        c % 128 == 0,
        0 <= c,
        c + 128 <= s.len(),
        groups_single(s, c, c + 128, d),
    ensures
        group_firsts(s, c, d, 16) =~= Seq::new(
            (count_below(xs, c + 128) - count_below(xs, c)) as nat,
            |t: int| xs[count_below(xs, c) + t] - c,
        ),
{
    lemma_group_firsts_all(s, c, d, 16);
    lemma_offsets_entries(s, c, d, xs, 128);
}

/// What a block lemma needs of the records `recs` of `s` and of the block at `c`: the
/// layout of the records, the block's groups holding at most one `;` and one `\n`
/// each, and the carry conditions on both of its edges.
#[verifier::opaque]
pub open spec fn block_ready(s: Seq<u8>, recs: Seq<(int, int, int)>, c: int) -> bool {
    &&& laid_out(recs)
    &&& increasing(newline_at(recs))
    &&& increasing(semi_at(recs))
    &&& marks(s, newline_at(recs), NEWLINE)
    &&& marks(s, semi_at(recs), SEMICOLON)
    &&& c % 128 == 0
    &&& 0 <= c
    &&& c + 128 <= s.len()
    &&& groups_single(s, c, c + 128, NEWLINE)
    &&& groups_single(s, c, c + 128, SEMICOLON)
    &&& spans(recs, c) ==> newls(s, c).len() >= 4 && recs[first_line(recs, c)].1 >= c - 128
    &&& c + 256 <= s.len() && spans(recs, c + 128) ==> newls(s, c).len() < 16
}

/// The offsets of a ready block: its `\n` offsets are those of the records that end in
/// it, and its `;` offsets, after the carried one, those of the records whose `;` lies in
/// it.
proof fn lemma_block_facts(s: Seq<u8>, recs: Seq<(int, int, int)>, c: int)
    requires
        block_ready(s, recs, c),
    ensures
        ({
            let nl = newline_at(recs);
            let sm = semi_at(recs);
            let a = first_line(recs, c);
            let b = first_line(recs, c + 128);
            let a2 = a + (if spans(recs, c) { 1int } else { 0 });
            let b2 = b + (if spans(recs, c + 128) { 1int } else { 0 });
            &&& 0 <= a <= b <= recs.len()
            &&& a2 <= b2 <= recs.len()
            &&& b <= b2
            &&& newls(s, c) =~= Seq::new((b - a) as nat, |t: int| nl[a + t] - c)
            &&& group_firsts(s, c, SEMICOLON, 16) =~= Seq::new((b2 - a2) as nat, |t: int| sm[a2 + t] - c)
            &&& forall|j: int| a2 <= j < b2 ==> c <= #[trigger] sm[j] < c + 128
            &&& forall|j: int| a <= j < b ==> c <= #[trigger] nl[j] < c + 128
            &&& laid_out(recs)
            &&& 0 <= c
            &&& c + 128 <= s.len()
            &&& spans(recs, c) ==> b - a >= 4 && recs[a].1 >= c - 128
            &&& c + 256 <= s.len() && spans(recs, c + 128) ==> b - a < 16
        }),
{
    reveal(block_ready);
    let nl = newline_at(recs);
    let sm = semi_at(recs);
    lemma_block_offsets(s, c, NEWLINE, nl);
    lemma_block_offsets(s, c, SEMICOLON, sm);
    lemma_semi_count(recs, c);
    lemma_semi_count(recs, c + 128);
    lemma_count_below_mono(nl, c, c + 128);
    lemma_count_below_mono(sm, c, c + 128);
    lemma_count_below(nl, c);
    lemma_count_below(nl, c + 128);
    lemma_count_below(sm, c);
    lemma_count_below(sm, c + 128);
}

/// Line `k` of a ready block is the `k`-th record that ends in it.
proof fn lemma_block_line(s: Seq<u8>, recs: Seq<(int, int, int)>, c: int, k: int)
    requires
        block_ready(s, recs, c),
        0 <= k < first_line(recs, c + 128) - first_line(recs, c),
    ensures
        block_line(s, c, carry_at(recs, c), start_at(recs, c), k) == recs[first_line(recs, c) + k],
{
    let nl = newline_at(recs);
    let sm = semi_at(recs);
    let a = first_line(recs, c);
    let b = first_line(recs, c + 128);
    let n = b - a;
    lemma_block_facts(s, recs, c);
    let carry = carry_at(recs, c);
    let sms = semis(s, c, carry);
    let gf = group_firsts(s, c, SEMICOLON, 16);
    let r = recs[a + k];
    assert(nl[a + k] == r.2 && sm[a + k] == r.1);
    assert(newls(s, c)[k] == r.2 - c);
    if k == 0 {
        if a > 0 {
            assert(recs[a].0 == recs[a - 1].2 + 1);
        }
    } else {
        assert(newls(s, c)[k - 1] == nl[a + k - 1] - c);
        assert(nl[a + k - 1] == recs[a + k - 1].2);
        assert(recs[a + k].0 == recs[a + k - 1].2 + 1);
    }
    if spans(recs, c) {
        assert(sms == seq![carry->0 as int] + gf);
        if k == 0 {
            let x = recs[a].1 - c + 256;
            assert(128 <= x < 256);
            assert(carry->0 as int == x);
            assert(batched(n) >= 4);
        } else {
            assert(sms[k] == gf[k - 1]);
            assert(gf[k - 1] == sm[a + k] - c);
        }
    } else {
        assert(sms == gf);
        assert(gf[k] == sm[a + k] - c);
    }
}

/// A ready block reads: its lines are the records that end in it, it carries the `;` of
/// the line that crosses into the next block, and the next block's first line starts
/// after its last.
proof fn lemma_block(s: Seq<u8>, recs: Seq<(int, int, int)>, c: int)
    requires
        block_ready(s, recs, c),
    ensures
        ({
            let carry = carry_at(recs, c);
            let ls = start_at(recs, c);
            let a = first_line(recs, c);
            let b = first_line(recs, c + 128);
            &&& block_ok(s, c, carry, ls)
            &&& block_lines(s, c, carry, ls).len() == b - a
            &&& forall|k: int| 0 <= k < b - a ==> (#[trigger] block_lines(s, c, carry, ls)[k]).0 == recs[a + k]
            &&& c + 256 <= s.len() ==> block_carry(s, c, carry) == carry_at(recs, c + 128)
            &&& block_next_start(s, c, ls) == start_at(recs, c + 128)
        }),
{
    let nl = newline_at(recs);
    let sm = semi_at(recs);
    let a = first_line(recs, c);
    let b = first_line(recs, c + 128);
    let n = b - a;
    let carry = carry_at(recs, c);
    let ls = start_at(recs, c);
    lemma_block_facts(s, recs, c);
    let sms = semis(s, c, carry);
    let gf = group_firsts(s, c, SEMICOLON, 16);
    assert forall|k: int| 0 <= k < n implies (#[trigger] block_lines(s, c, carry, ls)[k]).0 == recs[a + k] by {
        lemma_block_line(s, recs, c, k);
    }
    assert(block_ok(s, c, carry, ls)) by {
        assert forall|k: int| 0 <= k < n implies {
            let r = #[trigger] block_line(s, c, carry, ls, k);
            r.0 <= r.1 < r.2
        } by {
            lemma_block_line(s, recs, c, k);
            assert(recs[a + k].0 <= recs[a + k].1 < recs[a + k].2);
        }
    }
    if spans(recs, c) {
        assert(sms == seq![carry->0 as int] + gf);
    } else {
        assert(sms == gf);
    }
    if c + 256 <= s.len() && spans(recs, c + 128) {
        assert(n < 16);
        let x = sm[b] - c;
        if spans(recs, c) {
            assert(sms[n] == gf[n - 1]);
        }
        assert(sms[n] == x);
        assert(0 <= x < 128);
        assert((x + 128) % 256 == x + 128);
    }
    if n > 0 {
        assert(newls(s, c).last() == nl[b - 1] - c);
        assert(nl[b - 1] == recs[b - 1].2);
    }
}

/// Where the whole 128-byte blocks of `s` end.
pub open spec fn whole_blocks(s: Seq<u8>) -> int {
    s.len() as int / 128 * 128
}

/// From a block boundary `c` on, when every whole block is ready, the reader reads the
/// records that end in the whole blocks from `c` on.
proof fn lemma_run(s: Seq<u8>, recs: Seq<(int, int, int)>, c: int)
    requires
        c % 128 == 0,
        0 <= c <= s.len(),
        forall|c2: int| c <= c2 && c2 % 128 == 0 && c2 + 128 <= s.len() ==> #[trigger] block_ready(s, recs, c2),
        increasing(newline_at(recs)),
    ensures
        ({
            let a = first_line(recs, c);
            run_lines(s, c, carry_at(recs, c), start_at(recs, c)) matches Some(ls) && ls.len() == first_line(
                recs,
                whole_blocks(s),
            ) - a && forall|t: int| 0 <= t < ls.len() ==> (#[trigger] ls[t]).0 == recs[a + t]
        }),
    decreases s.len() - c,
{
    let n = s.len() as int;
    if c + 128 > n {
        assert(c == n / 128 * 128) by (nonlinear_arith)
            requires
                c % 128 == 0,
                0 <= c <= n,
                c + 128 > n,
        ;
        assert(whole_blocks(s) == c);
        assert(run_lines(s, c, carry_at(recs, c), start_at(recs, c)) == Some(Seq::<((int, int, int), bool)>::empty()));
    } else {
        assert(block_ready(s, recs, c));
        lemma_block(s, recs, c);
        let a = first_line(recs, c);
        let b = first_line(recs, c + 128);
        let carry = carry_at(recs, c);
        let ls = start_at(recs, c);
        let lines = block_lines(s, c, carry, ls);
        if c + 256 <= n {
            lemma_run(s, recs, c + 128);
            let rest = run_lines(s, c + 128, carry_at(recs, c + 128), start_at(recs, c + 128))->0;
            let all = lines + rest;
            lemma_count_below_mono(newline_at(recs), c + 128, whole_blocks(s));
            assert(c + 128 <= n / 128 * 128) by (nonlinear_arith)
                requires
                    c % 128 == 0,
                    c + 256 <= n,
                    0 <= c,
            ;
            assert forall|t: int| 0 <= t < all.len() implies (#[trigger] all[t]).0 == recs[a + t] by {
                if t < lines.len() {
                    assert(all[t] == lines[t]);
                } else {
                    assert(all[t] == rest[t - lines.len()]);
                }
            }
            assert(run_lines(s, c, carry, ls) == Some(all));
        } else {
            assert(c + 128 == n / 128 * 128) by (nonlinear_arith)
                requires
                    c % 128 == 0,
                    0 <= c,
                    c + 128 <= n,
                    c + 256 > n,
            ;
            assert(lines + Seq::<((int, int, int), bool)>::empty() =~= lines);
            assert(run_lines(s, c + 128, block_carry(s, c, carry), block_next_start(s, c, ls)) == Some(
                Seq::<((int, int, int), bool)>::empty(),
            ));
            assert(run_lines(s, c, carry, ls) == Some(lines));
            assert(whole_blocks(s) == c + 128);
        }
    }
}

/// Every whole block of a buffer meeting the conditions of [`lemma_valid_lines`] is
/// ready.
proof fn lemma_blocks_ready(s: Seq<u8>, recs: Seq<(int, int, int)>, c2: int)
    requires
        recs == records(s),
        laid_out(recs),
        increasing(newline_at(recs)),
        increasing(semi_at(recs)),
        marks(s, newline_at(recs), NEWLINE),
        marks(s, semi_at(recs), SEMICOLON),
        groups_single(s, 0, whole_blocks(s), NEWLINE),
        groups_single(s, 0, whole_blocks(s), SEMICOLON),
        carries_ok(s),
        0 <= c2,
        c2 % 128 == 0,
        c2 + 128 <= s.len(),
    ensures
        block_ready(s, recs, c2),
{
    reveal(block_ready);
    let nl = newline_at(recs);
    let n = s.len() as int;
    assert(c2 + 128 <= n / 128 * 128) by (nonlinear_arith)
        requires
            c2 % 128 == 0,
            c2 + 128 <= n,
            0 <= c2,
    ;
    assert(groups_single(s, c2, c2 + 128, NEWLINE) && groups_single(s, c2, c2 + 128, SEMICOLON));
    if c2 == 0 {
        lemma_count_below_is(nl, 0, 0);
        if recs.len() > 0 {
            assert(recs[0].0 <= recs[0].1);
        }
    } else if spans(recs, c2) {
        assert(0 < c2 && c2 % 128 == 0 && c2 + 128 <= n && spans(records(s), c2));
    }
    if c2 + 256 <= n && spans(recs, c2 + 128) {
        assert(0 < c2 + 128 && (c2 + 128) % 128 == 0 && c2 + 128 + 128 <= n && spans(records(s), c2 + 128));
    }
}

/// On a buffer of valid lines whose 8-byte groups of whole blocks hold at most one `;`
/// and one `\n` each, and whose lines that cross a block boundary after their `;` are
/// read in a batch of four ([`carries_ok`]), the block reader of [`crate::ver17`] reads
/// exactly the records that end in the whole 128-byte blocks, in order.
pub proof fn lemma_valid_lines(s: Seq<u8>)
    requires
        valid_buffer(s),
        groups_single(s, 0, whole_blocks(s), NEWLINE),
        groups_single(s, 0, whole_blocks(s), SEMICOLON),
        carries_ok(s),
    ensures
        run_lines(s, 0, None, 0) matches Some(ls) && ls.len() == first_line(records(s), whole_blocks(s)) && forall|
            t: int,
        | 0 <= t < ls.len() ==> (#[trigger] ls[t]).0 == records(s)[t],
{
    let recs = records(s);
    let nl = newline_at(recs);
    lemma_valid_layout(s);
    assert forall|c2: int| 0 <= c2 && c2 % 128 == 0 && c2 + 128 <= s.len() implies #[trigger] block_ready(s, recs, c2) by {
        lemma_blocks_ready(s, recs, c2);
    }
    lemma_run(s, recs, 0);
    lemma_count_below_is(nl, 0, 0);
    if recs.len() > 0 {
        assert(recs[0].0 <= recs[0].1);
    }
    assert(!spans(recs, 0));
}

/// The records the block reader reads: those that end in the whole 128-byte blocks.
pub open spec fn read_records(s: Seq<u8>) -> Seq<(int, int, int)> {
    records(s).take(first_line(records(s), whole_blocks(s)))
}

/// Lines whose records are written as the format says are recorded as [`fold_info`]
/// records their records: a batch of four reads each value as one line alone would.
proof fn lemma_fold_lines_info(m0: Seq<EntryModel>, s: Seq<u8>, ls: Seq<((int, int, int), bool)>, rr: Seq<(int, int, int)>)
    requires
        ls.len() == rr.len(),
        forall|t: int| 0 <= t < ls.len() ==> (#[trigger] ls[t]).0 == rr[t],
        forall|t: int| 0 <= t < rr.len() ==> record_shape(s, #[trigger] rr[t]) && valid_record(s, rr[t]),
    ensures
        fold_lines(m0, s, ls) == fold_info(m0, s, rr),
    decreases ls.len(),
{
    if ls.len() > 0 {
        let rval = |s: Seq<u8>, r: (int, int, int)| short_value(s, r);
        let code = |h: (u64, u64)| home_slot(h.0, h.1);
        let key_of = |n: Seq<u8>| packed_key(n);
        let last = ls.len() - 1;
        assert forall|t: int| 0 <= t < ls.drop_last().len() implies (#[trigger] ls.drop_last()[t]).0 == rr.drop_last()[t] by {
            assert(ls.drop_last()[t] == ls[t]);
            assert(rr.drop_last()[t] == rr[t]);
        }
        assert forall|t: int| 0 <= t < rr.drop_last().len() implies record_shape(s, #[trigger] rr.drop_last()[t])
            && valid_record(s, rr.drop_last()[t]) by {
            assert(rr.drop_last()[t] == rr[t]);
        }
        lemma_fold_lines_info(m0, s, ls.drop_last(), rr.drop_last());
        lemma_fold_push(m0, s, rr.drop_last(), rr[last], rval, code, key_of);
        assert(rr.drop_last().push(rr[last]) =~= rr);
        let r = rr[last];
        assert(ls[last].0 == r);
        assert(record_shape(s, r) && valid_record(s, r));
        lemma_value_len(rec_value(s, r));
        lemma_lane_tenths(rec_value(s, r));
        lemma_short_tenths(s, r);
        assert(rec_value(s, r).len() == r.2 - r.1 - 1);
    }
}

/// On a buffer meeting the conditions of [`lemma_valid_lines`] whose records in whole
/// blocks have distinct keys for distinct names, counts and sums in tenths that fit
/// `i32` after every record, and fewer than 1024 stations, a scan into a fresh table
/// owes success, and the table then holds exactly the minimum, maximum, count and sum of
/// every station of the records in the whole blocks.
pub proof fn lemma_valid_scan(s: Seq<u8>)
    requires
        valid_buffer(s),
        groups_single(s, 0, whole_blocks(s), NEWLINE),
        groups_single(s, 0, whole_blocks(s), SEMICOLON),
        carries_ok(s),
        keys_distinct(s, read_records(s), |n: Seq<u8>| packed_key(n)),
        fits_throughout(s, read_records(s), |v: Seq<u8>| tenths(v), i32::MIN as int, i32::MAX as int),
        aggregate(s, read_records(s)).dom().len() < 1024,
    ensures
        run_lines(s, 0, None, 0) matches Some(ls) && fold_lines(fresh_model(agg_zero()), s, ls) is Some && slots_hold(
            fold_lines(fresh_model(agg_zero()), s, ls)->0,
            aggregate(s, read_records(s)),
        ),
{
    let recs = records(s);
    let rr = read_records(s);
    lemma_valid_lines(s);
    let ls = run_lines(s, 0, None, 0)->0;
    lemma_valid_layout(s);
    lemma_count_below(newline_at(recs), whole_blocks(s));
    assert forall|t: int| 0 <= t < rr.len() implies record_shape(s, #[trigger] rr[t]) && valid_record(s, rr[t]) by {
        assert(rr[t] == recs[t]);
        assert(record_shape(s, recs[t]));
    }
    assert forall|t: int| 0 <= t < ls.len() implies (#[trigger] ls[t]).0 == rr[t] by {
        assert(rr[t] == recs[t]);
    }
    lemma_fold_lines_info(fresh_model(agg_zero()), s, ls, rr);
    lemma_valid_records_fold(s, rr);
}

} // verus!
