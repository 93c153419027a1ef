//! Delimiter positions packed per 128-byte block: of every 8-byte group only its first
//! `;` and its first `\n` count, and their offsets are packed, in order, one byte each.
//! Lines are read four at a time while four are at hand, and the rest one by one;
//! statistics go to the table of [`crate::ver12`].
use vstd::prelude::*;
use crate::bits::{
    lemma_packed_take16, lemma_truncated_packed, min_int, packed_key, preload_key_u64x2, truncate_key_normal,
};
use crate::format::{rec_name, rec_value, scalar_within, NEWLINE, SEMICOLON};
use crate::table::{save_slots, EntryModel, TABLE_SLOTS};
use crate::ver12::{home_slot, short_value};
use crate::ver18::lane_value;
use crate::ver7::value_ok;

pub use crate::ver12::{parse_value, AggrInfo, AggrItem};
pub use crate::ver15::parse_values;

verus! {

/// The index, within the block at `c`, of the first byte `d` of 8-byte group `g` from
/// byte `j` of the group on, or -1 when the group holds none there.
pub open spec fn first_in_group(s: Seq<u8>, c: int, g: int, d: u8, j: int) -> int
    decreases 8 - j,
{
    if 0 <= j < 8 {
        if s[c + 8 * g + j] == d {
            8 * g + j
        } else {
            first_in_group(s, c, g, d, j + 1)
        }
    } else {
        -1
    }
}

/// The first `d` of every group among the first `n` 8-byte groups of the block at `c`
/// that holds one, in group order, as indices within the block.
pub open spec fn group_firsts(s: Seq<u8>, c: int, d: u8, n: int) -> Seq<int>
    decreases n,
{
    if n <= 0 {
        seq![]
    } else {
        let prev = group_firsts(s, c, d, n - 1);
        let f = first_in_group(s, c, n - 1, d, 0);
        if f >= 0 {
            prev.push(f)
        } else {
            prev
        }
    }
}

/// The packed `;` offsets of a block: the byte carried over from the block before, if
/// any, then the first `;` of every group.
pub open spec fn semis(s: Seq<u8>, c: int, carry: Option<u8>) -> Seq<int> {
    match carry {
        Some(b) => seq![b as int] + group_firsts(s, c, SEMICOLON, 16),
        None => group_firsts(s, c, SEMICOLON, 16),
    }
}

/// The packed `\n` offsets of a block.
pub open spec fn newls(s: Seq<u8>, c: int) -> Seq<int> {
    group_firsts(s, c, NEWLINE, 16)
}

/// A packed byte read as a signed offset.
pub open spec fn signed_byte(b: int) -> int {
    if b < 128 {
        b
    } else {
        b - 256
    }
}

/// The number of lines of a block read four at a time.
pub open spec fn batched(n: int) -> int {
    n / 4 * 4
}

/// Line `k` of the block at `c`, starting at `ls` when it is the first: its start, its
/// `;` (read from a signed byte in a batch of four, from an unsigned byte otherwise) and
/// its `\n`.
pub open spec fn block_line(s: Seq<u8>, c: int, carry: Option<u8>, ls: int, k: int) -> (int, int, int) {
    let sm = semis(s, c, carry);
    let nl = newls(s, c);
    let start = if k == 0 {
        ls
    } else {
        c + nl[k - 1] + 1
    };
    let p1 = if k < batched(nl.len() as int) {
        c + signed_byte(sm[k])
    } else {
        c + sm[k]
    };
    (start, p1, c + nl[k])
}

/// The lines of the block at `c`, each marked whether it is read in a batch of four.
pub open spec fn block_lines(s: Seq<u8>, c: int, carry: Option<u8>, ls: int) -> Seq<((int, int, int), bool)> {
    let n = newls(s, c).len() as int;
    Seq::new(n as nat, |k: int| (block_line(s, c, carry, ls, k), k < batched(n)))
}

/// The block at `c` reads: it has at least as many `;` offsets as `\n` offsets, and every
/// line's start, `;` and `\n` come in order.
pub open spec fn block_ok(s: Seq<u8>, c: int, carry: Option<u8>, ls: int) -> bool {
    let n = newls(s, c).len() as int;
    &&& semis(s, c, carry).len() >= n
    &&& forall|k: int|
        0 <= k < n ==> {
            let r = #[trigger] block_line(s, c, carry, ls, k);
            r.0 <= r.1 < r.2
        }
}

/// The byte carried to the next block: the first `;` offset left over, moved back by a
/// block, as a byte. The offsets are packed into sixteen bytes, so with a byte carried in
/// and a `;` in every group the last one is lost and reads as 0.
pub open spec fn block_carry(s: Seq<u8>, c: int, carry: Option<u8>) -> Option<u8> {
    let sm = semis(s, c, carry);
    let n = newls(s, c).len() as int;
    if sm.len() > n {
        let b = if n < 16 {
            sm[n]
        } else {
            0
        };
        Some(((b + 128) % 256) as u8)
    } else {
        None
    }
}

/// Where the next block's first line starts.
pub open spec fn block_next_start(s: Seq<u8>, c: int, ls: int) -> int {
    let nl = newls(s, c);
    if nl.len() == 0 {
        ls
    } else {
        c + nl.last() + 1
    }
}

/// The lines of the whole blocks from `c` on, with `carry` carried in and the next line
/// starting at `ls`; `None` when a block does not read.
pub open spec fn run_lines(s: Seq<u8>, c: int, carry: Option<u8>, ls: int) -> Option<Seq<((int, int, int), bool)>>
    decreases s.len() - c,
{
    if 0 <= c && c + 128 <= s.len() {
        if !block_ok(s, c, carry, ls) {
            None
        } else {
            match run_lines(s, c + 128, block_carry(s, c, carry), block_next_start(s, c, ls)) {
                None => None,
                Some(rest) => Some(block_lines(s, c, carry, ls) + rest),
            }
        }
    } else {
        Some(seq![])
    }
}

/// The slots after recording line `x` of `s` into `m`: a line read in a batch has its
/// value read by [`parse_values`], which takes one to eight bytes, any other by
/// [`parse_value`]; `None` when the value cannot be read or the recording fails.
pub open spec fn line_step(m: Seq<EntryModel>, s: Seq<u8>, x: ((int, int, int), bool)) -> Option<Seq<EntryModel>> {
    let (r, batch) = x;
    let n = rec_name(s, r);
    let k = packed_key(n);
    if batch {
        if 1 <= r.2 - r.1 - 1 <= 8 {
            save_slots(m, home_slot(k.0, k.1), n, k, lane_value(s, r) as i32)
        } else {
            None
        }
    } else {
        if value_ok(rec_value(s, r)) {
            save_slots(m, home_slot(k.0, k.1), n, k, short_value(s, r) as i32)
        } else {
            None
        }
    }
}

/// The slots after recording the lines `ls` of `s` into `m0` one after the other;
/// `None` once a line fails.
pub open spec fn fold_lines(m0: Seq<EntryModel>, s: Seq<u8>, ls: Seq<((int, int, int), bool)>) -> Option<Seq<EntryModel>>
    decreases ls.len(),
{
    if ls.len() == 0 {
        Some(m0)
    } else {
        match fold_lines(m0, s, ls.drop_last()) {
            None => None,
            Some(m) => line_step(m, s, ls.last()),
        }
    }
}

/// Recording `a` then `b` is recording `a + b`.
pub proof fn lemma_fold_lines_append(
    m0: Seq<EntryModel>,
    s: Seq<u8>,
    a: Seq<((int, int, int), bool)>,
    b: Seq<((int, int, int), bool)>,
)
    ensures
        fold_lines(m0, s, a + b) == (match fold_lines(m0, s, a) {
            None => None,
            Some(m) => fold_lines(m, s, b),
        }),
    decreases b.len(),
{
    if b.len() == 0 {
        assert(a + b =~= a);
    } else {
        lemma_fold_lines_append(m0, s, a, b.drop_last());
        assert((a + b).drop_last() =~= a + b.drop_last());
        assert((a + b).last() == b.last());
    }
}

/// Recording `ls` then `x` is recording `ls.push(x)`.
pub proof fn lemma_fold_lines_push(m0: Seq<EntryModel>, s: Seq<u8>, ls: Seq<((int, int, int), bool)>, x: ((int, int, int), bool))
    ensures
        fold_lines(m0, s, ls.push(x)) == (match fold_lines(m0, s, ls) {
            None => None,
            Some(m) => line_step(m, s, x),
        }),
{
    assert(ls.push(x).drop_last() =~= ls);
}

/// Every packed offset of a group lies within the block.
pub proof fn lemma_group_firsts_range(s: Seq<u8>, c: int, d: u8, n: int)
    requires
        n <= 16,
    ensures
        group_firsts(s, c, d, n).len() <= if n < 0 { 0 } else { n },
        forall|i: int| 0 <= i < group_firsts(s, c, d, n).len() ==> 0 <= #[trigger] group_firsts(s, c, d, n)[i] < 128,
    decreases n,
{
    if n > 0 {
        lemma_group_firsts_range(s, c, d, n - 1);
        lemma_first_in_group_range(s, c, n - 1, d, 0);
        let prev = group_firsts(s, c, d, n - 1);
        let f = first_in_group(s, c, n - 1, d, 0);
        if f >= 0 {
            assert forall|i: int| 0 <= i < prev.push(f).len() implies 0 <= #[trigger] prev.push(f)[i] < 128 by {
                if i < prev.len() {
                    assert(prev.push(f)[i] == prev[i]);
                }
            }
        }
    }
}

/// The first `d` of a group lies in that group.
pub proof fn lemma_first_in_group_range(s: Seq<u8>, c: int, g: int, d: u8, j: int)
    requires
        0 <= g < 16,
        0 <= j,
    ensures
        first_in_group(s, c, g, d, j) == -1 || 8 * g <= first_in_group(s, c, g, d, j) < 8 * g + 8,
    decreases 8 - j,
{
    if j < 8 {
        lemma_first_in_group_range(s, c, g, d, j + 1);
    }
}

/// The first byte `d` of 8-byte group `g` of the block at `c`, as an index within the
/// block, or none.
fn first_of_group(buf: &[u8], c: usize, g: usize, d: u8) -> (r: Option<u8>)
    requires
        g < 16,
        c + 128 <= buf@.len(),
    ensures
        r is Some <==> first_in_group(buf@, c as int, g as int, d, 0) >= 0,
        r matches Some(b) ==> b == first_in_group(buf@, c as int, g as int, d, 0),
{
    let len = buf.len();
    let mut j: usize = 0;
    while j < 8
        invariant
            j <= 8,
            g < 16,
            len == buf@.len(),
            c + 128 <= buf@.len(),
            first_in_group(buf@, c as int, g as int, d, 0) == first_in_group(buf@, c as int, g as int, d, j as int),
        decreases 8 - j,
    {
        if buf[c + 8 * g + j] == d {
            return Some((8 * g + j) as u8);
        }
        j += 1;
    }
    None
}

/// The offsets of the first byte `d` of every 8-byte group of the 128-byte block at
/// `cursor` that holds one, in order.
pub fn parse_delimeter(buf: &[u8], cursor: usize, d: u8) -> (r: Vec<u8>)
    requires
        cursor + 128 <= buf@.len(),
    ensures
        r@.len() == group_firsts(buf@, cursor as int, d, 16).len(),
        forall|i: int| 0 <= i < r@.len() ==> r@[i] as int == #[trigger] group_firsts(buf@, cursor as int, d, 16)[i],
{
    let mut r: Vec<u8> = Vec::new();
    let mut g: usize = 0;
    while g < 16
        invariant
            g <= 16,
            cursor + 128 <= buf@.len(),
            r@.len() == group_firsts(buf@, cursor as int, d, g as int).len(),
            r@.len() <= g,
            forall|i: int| 0 <= i < r@.len() ==> r@[i] as int == #[trigger] group_firsts(buf@, cursor as int, d, g as int)[i],
        decreases 16 - g,
    {
        let ghost before = r@;
        match first_of_group(buf, cursor, g, d) {
            Some(b) => {
                r.push(b);
                proof {
                    assert forall|i: int| 0 <= i < r@.len() implies r@[i] as int == #[trigger] group_firsts(
                        buf@,
                        cursor as int,
                        d,
                        g + 1,
                    )[i] by {
                        if i < before.len() {
                            assert(r@[i] == before[i]);
                        }
                    }
                }
            },
            None => {},
        }
        g += 1;
    }
    r
}

/// The packed `;` offsets of the block at `cursor`, after the byte carried in, if any.
fn packed_semis(buf: &[u8], cursor: usize, carry: Option<u8>) -> (r: Vec<u8>)
    requires
        cursor + 128 <= buf@.len(),
    ensures
        r@.len() == semis(buf@, cursor as int, carry).len(),
        forall|i: int| 0 <= i < r@.len() ==> r@[i] as int == #[trigger] semis(buf@, cursor as int, carry)[i],
{
    let firsts = parse_delimeter(buf, cursor, SEMICOLON);
    let ghost gf = group_firsts(buf@, cursor as int, SEMICOLON, 16);
    let mut r: Vec<u8> = Vec::new();
    match carry {
        Some(b) => r.push(b),
        None => {},
    }
    let ghost base = r@;
    let mut i: usize = 0;
    while i < firsts.len()
        invariant
            i <= firsts@.len(),
            r@ =~= base + firsts@.take(i as int),
        decreases firsts@.len() - i,
    {
        r.push(firsts[i]);
        i += 1;
        proof {
            assert(firsts@.take(i as int) =~= firsts@.take(i - 1).push(firsts@[i - 1]));
        }
    }
    proof {
        assert(firsts@.take(i as int) =~= firsts@);
        let sm = semis(buf@, cursor as int, carry);
        assert forall|i: int| 0 <= i < r@.len() implies r@[i] as int == #[trigger] sm[i] by {
            match carry {
                Some(b) => {
                    if i > 0 {
                        assert(r@[i] == firsts@[i - 1]);
                        assert(sm[i] == gf[i - 1]);
                    }
                },
                None => {
                    assert(r@[i] == firsts@[i]);
                },
            }
        }
    }
    r
}

/// The start, `;` and `\n` of line `k` of the block at `cursor`, the line starting at
/// `start`, its `;` offset read as a signed byte when `batch` holds; `None` when they
/// do not come in order.
fn line_at(semis_v: &Vec<u8>, newls_v: &Vec<u8>, cursor: usize, start: usize, k: usize, batch: bool) -> (r: Option<
    (usize, usize, usize),
>)
    requires
        k < newls_v@.len() <= semis_v@.len(),
        newls_v@[k as int] < 128,
        cursor + 128 <= usize::MAX,
    ensures
        ({
            let p1 = if batch {
                cursor + signed_byte(semis_v@[k as int] as int)
            } else {
                cursor + semis_v@[k as int]
            };
            let p2 = cursor + newls_v@[k as int];
            &&& r is Some <==> start <= p1 < p2
            &&& r matches Some(l) ==> l.0 == start && l.1 == p1 && l.2 == p2
        }),
{
    let b = semis_v[k];
    let off2 = newls_v[k] as usize;
    let p2 = cursor + off2;
    let p1 = if !batch || b < 128 {
        if b as usize >= off2 {
            return None;
        }
        cursor + b as usize
    } else {
        let back = 256 - b as usize;
        if cursor < back {
            return None;
        }
        cursor - back
    };
    if start <= p1 && p1 < p2 {
        Some((start, p1, p2))
    } else {
        None
    }
}

/// A line as a tagged triple.
pub open spec fn tagged(l: (usize, usize, usize), batch: bool) -> ((int, int, int), bool) {
    ((l.0 as int, l.1 as int, l.2 as int), batch)
}

/// The key of the name at `begin..end` of `buf`: the sixteen bytes from `begin` on
/// (fewer where the buffer ends) loaded as two `u64` halves, then cut to the name's
/// length.
pub fn str_to_hash(buf: &[u8], begin: usize, end: usize) -> (r: (u64, u64))
    requires
        begin <= end <= buf@.len(),
    ensures
        r == packed_key(buf@.subrange(begin as int, end as int)),
{
    let key = preload_key_u64x2(buf, begin);
    let ghost x = buf@.subrange(begin as int, min_int(begin + 16, buf@.len() as int));
    let ghost name = buf@.subrange(begin as int, end as int);
    proof {
        lemma_truncated_packed(x, (end - begin) as int);
        let m = min_int((end - begin) as int, x.len() as int);
        if end - begin <= 16 {
            assert(x.take(m) =~= name);
        } else {
            assert(x.take(m) =~= name.take(16));
            lemma_packed_take16(name, name.len() as int);
            assert(name.take(name.len() as int) =~= name);
        }
    }
    truncate_key_normal(key, end - begin)
}

/// Records `value` for the station named by line `l` of `buf`, keyed by its first
/// sixteen bytes.
fn save_named(aggr: &mut AggrInfo, buf: &[u8], l: (usize, usize, usize), value: i16) -> (ok: bool)
    requires
        old(aggr).hashes@.len() == TABLE_SLOTS,
        l.0 <= l.1 < l.2 <= buf@.len(),
    ensures
        final(aggr).hashes@.len() == TABLE_SLOTS,
        ({
            let name = rec_name(buf@, tagged(l, true).0);
            let k = packed_key(name);
            let saved = save_slots(old(aggr).slots_of(), home_slot(k.0, k.1), name, k, value as i32);
            &&& ok == saved is Some
            &&& ok ==> final(aggr).slots_of() == saved->0
        }),
{
    let name = vstd::slice::slice_subrange(buf, l.0, l.1);
    let (key_a, key_b) = str_to_hash(buf, l.0, l.1);
    proof {
        assert(rec_name(buf@, tagged(l, true).0) =~= name@);
    }
    aggr.save_item(name, key_a, key_b, value)
}

/// Records four lines read in a batch, their values read together by [`parse_values`].
fn save_four(
    aggr: &mut AggrInfo,
    buf: &[u8],
    l1: (usize, usize, usize),
    l2: (usize, usize, usize),
    l3: (usize, usize, usize),
    l4: (usize, usize, usize),
) -> (ok: bool)
    requires
        old(aggr).hashes@.len() == TABLE_SLOTS,
        l1.0 <= l1.1 < l1.2 <= buf@.len(),
        l2.0 <= l2.1 < l2.2 <= buf@.len(),
        l3.0 <= l3.1 < l3.2 <= buf@.len(),
        l4.0 <= l4.1 < l4.2 <= buf@.len(),
    ensures
        final(aggr).hashes@.len() == TABLE_SLOTS,
        ({
            let q = seq![tagged(l1, true), tagged(l2, true), tagged(l3, true), tagged(l4, true)];
            &&& ok == fold_lines(old(aggr).slots_of(), buf@, q) is Some
            &&& ok ==> fold_lines(old(aggr).slots_of(), buf@, q) == Some(final(aggr).slots_of())
        }),
{
    let ghost s = buf@;
    let ghost m = aggr.slots_of();
    let ghost q0 = Seq::<((int, int, int), bool)>::empty();
    let ghost q1 = q0.push(tagged(l1, true));
    let ghost q2 = q1.push(tagged(l2, true));
    let ghost q3 = q2.push(tagged(l3, true));
    let ghost q4 = q3.push(tagged(l4, true));
    proof {
        lemma_fold_lines_push(m, s, q0, tagged(l1, true));
        lemma_fold_lines_push(m, s, q1, tagged(l2, true));
        lemma_fold_lines_push(m, s, q2, tagged(l3, true));
        lemma_fold_lines_push(m, s, q3, tagged(l4, true));
        assert(q4 =~= seq![tagged(l1, true), tagged(l2, true), tagged(l3, true), tagged(l4, true)]);
    }
    if l1.2 - l1.1 - 1 == 0 || l1.2 - l1.1 - 1 > 8 || l2.2 - l2.1 - 1 == 0 || l2.2 - l2.1 - 1 > 8 || l3.2 - l3.1 - 1
        == 0 || l3.2 - l3.1 - 1 > 8 || l4.2 - l4.1 - 1 == 0 || l4.2 - l4.1 - 1 > 8 {
        return false;
    }
    let v1 = vstd::slice::slice_subrange(buf, l1.1 + 1, l1.2);
    let v2 = vstd::slice::slice_subrange(buf, l2.1 + 1, l2.2);
    let v3 = vstd::slice::slice_subrange(buf, l3.1 + 1, l3.2);
    let v4 = vstd::slice::slice_subrange(buf, l4.1 + 1, l4.2);
    proof {
        assert(rec_value(s, tagged(l1, true).0) =~= v1@);
        assert(rec_value(s, tagged(l2, true).0) =~= v2@);
        assert(rec_value(s, tagged(l3, true).0) =~= v3@);
        assert(rec_value(s, tagged(l4, true).0) =~= v4@);
    }
    let (x1, x2, x3, x4) = parse_values(v1, v2, v3, v4);
    if !save_named(aggr, buf, l1, x1) {
        return false;
    }
    if !save_named(aggr, buf, l2, x2) {
        return false;
    }
    if !save_named(aggr, buf, l3, x3) {
        return false;
    }
    save_named(aggr, buf, l4, x4)
}

/// Records one line, its value read by [`parse_value`].
fn save_one(aggr: &mut AggrInfo, buf: &[u8], l: (usize, usize, usize)) -> (ok: bool)
    requires
        old(aggr).hashes@.len() == TABLE_SLOTS,
        l.0 <= l.1 < l.2 <= buf@.len(),
    ensures
        final(aggr).hashes@.len() == TABLE_SLOTS,
        ok == line_step(old(aggr).slots_of(), buf@, tagged(l, false)) is Some,
        ok ==> line_step(old(aggr).slots_of(), buf@, tagged(l, false)) == Some(final(aggr).slots_of()),
{
    let text = vstd::slice::slice_subrange(buf, l.1 + 1, l.2);
    proof {
        assert(rec_value(buf@, tagged(l, false).0) =~= text@);
    }
    if !scalar_within(text, 2147483647) {
        return false;
    }
    let value = parse_value(text);
    save_named(aggr, buf, l, value)
}

/// A measurement buffer read block by block.
pub struct FileReader<'a> {
    buffer: &'a [u8],
}

impl<'a> FileReader<'a> {
    /// The bytes the reader reads.
    pub closed spec fn bytes(&self) -> Seq<u8> {
        self.buffer@
    }

    /// A reader over `buffer`.
    pub fn new(buffer: &'a [u8]) -> (r: FileReader<'a>)
        ensures
            r.bytes() == buffer@,
    {
        FileReader { buffer }
    }

    /// The name and the value of a line.
    pub fn process_line(&self, line_begin: usize, pos1: usize, pos2: usize) -> (r: (&'a [u8], &'a [u8]))
        requires
            line_begin <= pos1 < pos2 <= self.bytes().len(),
        ensures
            r.0@ == self.bytes().subrange(line_begin as int, pos1 as int),
            r.1@ == self.bytes().subrange(pos1 + 1, pos2 as int),
    {
        let buf: &'a [u8] = self.buffer;
        (vstd::slice::slice_subrange(buf, line_begin, pos1), vstd::slice::slice_subrange(buf, pos1 + 1, pos2))
    }

    /// Records the lines of the 128-byte block at `cursor`, the first starting at
    /// `start`, with `carry` carried in; returns where the next block's first line starts
    /// and what it carries, or `None` when the block does not read or a line fails.
    #[verifier::spinoff_prover]
    #[verifier::rlimit(60)]
    fn scan_block(&self, aggr: &mut AggrInfo, cursor: usize, start: usize, carry: Option<u8>) -> (r: Option<
        (usize, Option<u8>),
    >)
        requires
            cursor + 128 <= self.bytes().len(),
            old(aggr).hashes@.len() == TABLE_SLOTS,
        ensures
            final(aggr).hashes@.len() == TABLE_SLOTS,
            r is Some <==> block_ok(self.bytes(), cursor as int, carry, start as int) && fold_lines(
                old(aggr).slots_of(),
                self.bytes(),
                block_lines(self.bytes(), cursor as int, carry, start as int),
            ) is Some,
            r matches Some((ls2, c2)) ==> {
                &&& ls2 == block_next_start(self.bytes(), cursor as int, start as int)
                &&& c2 == block_carry(self.bytes(), cursor as int, carry)
                &&& fold_lines(old(aggr).slots_of(), self.bytes(), block_lines(self.bytes(), cursor as int, carry, start as int))
                    == Some(final(aggr).slots_of())
            },
    {
        let buf = self.buffer;
        let ghost s = buf@;
        let ghost c = cursor as int;
        let ghost m0 = aggr.slots_of();
        let ghost lines = block_lines(s, c, carry, start as int);
        let len = buf.len();
        let semis_v = packed_semis(buf, cursor, carry);
        let newls_v = parse_delimeter(buf, cursor, NEWLINE);
        let n = newls_v.len();
        proof {
            lemma_group_firsts_range(s, c, NEWLINE, 16);
            lemma_group_firsts_range(s, c, SEMICOLON, 16);
        }
        if semis_v.len() < n {
            return None;
        }
        let nb = n / 4 * 4;
        let mut k: usize = 0;
        let mut ls: usize = start;
        while k < nb
            invariant
                s == buf@,
                s == self.bytes(),
                c == cursor,
                cursor + 128 <= s.len(),
                len == s.len(),
                n == newls_v@.len() == newls(s, c).len(),
                n <= 16,
                semis_v@.len() == semis(s, c, carry).len() >= n,
                forall|i: int| 0 <= i < semis_v@.len() ==> semis_v@[i] as int == #[trigger] semis(s, c, carry)[i],
                forall|i: int| 0 <= i < n ==> newls_v@[i] as int == #[trigger] newls(s, c)[i],
                forall|i: int| 0 <= i < n ==> 0 <= #[trigger] newls(s, c)[i] < 128,
                nb == batched(n as int),
                k <= nb,
                k % 4 == 0,
                ls == (if k == 0 {
                    start as int
                } else {
                    c + newls(s, c)[k - 1] + 1
                }),
                forall|j: int| 0 <= j < k ==> {
                    let r = #[trigger] block_line(s, c, carry, start as int, j);
                    r.0 <= r.1 < r.2
                },
                lines == block_lines(s, c, carry, start as int),
                aggr.hashes@.len() == TABLE_SLOTS,
                m0 == old(aggr).slots_of(),
                fold_lines(m0, s, lines.take(k as int)) == Some(aggr.slots_of()),
            decreases nb - k,
        {
            proof {
                assert(newls_v@[k as int] as int == newls(s, c)[k as int]);
                assert(newls_v@[k + 1] as int == newls(s, c)[k + 1]);
                assert(newls_v@[k + 2] as int == newls(s, c)[k + 2]);
                assert(newls_v@[k + 3] as int == newls(s, c)[k + 3]);
            }
            let o1 = line_at(&semis_v, &newls_v, cursor, ls, k, true);
            let l1 = match o1 {
                Some(l) => l,
                None => {
                    proof {
                        assert(block_line(s, c, carry, start as int, k as int).0 == ls);
                    }
                    return None;
                },
            };
            let o2 = line_at(&semis_v, &newls_v, cursor, l1.2 + 1, k + 1, true);
            let l2 = match o2 {
                Some(l) => l,
                None => {
                    proof {
                        assert(block_line(s, c, carry, start as int, k + 1).0 == l1.2 + 1);
                    }
                    return None;
                },
            };
            let o3 = line_at(&semis_v, &newls_v, cursor, l2.2 + 1, k + 2, true);
            let l3 = match o3 {
                Some(l) => l,
                None => {
                    proof {
                        assert(block_line(s, c, carry, start as int, k + 2).0 == l2.2 + 1);
                    }
                    return None;
                },
            };
            let o4 = line_at(&semis_v, &newls_v, cursor, l3.2 + 1, k + 3, true);
            let l4 = match o4 {
                Some(l) => l,
                None => {
                    proof {
                        assert(block_line(s, c, carry, start as int, k + 3).0 == l3.2 + 1);
                    }
                    return None;
                },
            };
            let ghost quad = seq![tagged(l1, true), tagged(l2, true), tagged(l3, true), tagged(l4, true)];
            let ghost cur = aggr.slots_of();
            proof {
                assert(lines[k as int] == tagged(l1, true));
                assert(lines[k + 1] == tagged(l2, true));
                assert(lines[k + 2] == tagged(l3, true));
                assert(lines[k + 3] == tagged(l4, true));
                assert(lines.take(k + 4) =~= lines.take(k as int) + quad);
                lemma_fold_lines_append(m0, s, lines.take(k as int), quad);
                lemma_fold_lines_append(m0, s, lines.take(k + 4), lines.skip(k + 4));
                assert(lines.take(k + 4) + lines.skip(k + 4) =~= lines);
            }
            if !save_four(aggr, buf, l1, l2, l3, l4) {
                return None;
            }
            ls = l4.2 + 1;
            k = k + 4;
        }
        while k < n
            invariant
                s == buf@,
                s == self.bytes(),
                c == cursor,
                cursor + 128 <= s.len(),
                len == s.len(),
                n == newls_v@.len() == newls(s, c).len(),
                n <= 16,
                semis_v@.len() == semis(s, c, carry).len() >= n,
                forall|i: int| 0 <= i < semis_v@.len() ==> semis_v@[i] as int == #[trigger] semis(s, c, carry)[i],
                forall|i: int| 0 <= i < n ==> newls_v@[i] as int == #[trigger] newls(s, c)[i],
                forall|i: int| 0 <= i < n ==> 0 <= #[trigger] newls(s, c)[i] < 128,
                nb == batched(n as int),
                nb <= k <= n,
                ls == (if k == 0 {
                    start as int
                } else {
                    c + newls(s, c)[k - 1] + 1
                }),
                forall|j: int| 0 <= j < k ==> {
                    let r = #[trigger] block_line(s, c, carry, start as int, j);
                    r.0 <= r.1 < r.2
                },
                lines == block_lines(s, c, carry, start as int),
                aggr.hashes@.len() == TABLE_SLOTS,
                m0 == old(aggr).slots_of(),
                fold_lines(m0, s, lines.take(k as int)) == Some(aggr.slots_of()),
            decreases n - k,
        {
            proof {
                assert(newls_v@[k as int] as int == newls(s, c)[k as int]);
            }
            let o1 = line_at(&semis_v, &newls_v, cursor, ls, k, false);
            let l1 = match o1 {
                Some(l) => l,
                None => {
                    proof {
                        assert(block_line(s, c, carry, start as int, k as int).0 == ls);
                    }
                    return None;
                },
            };
            proof {
                assert(lines[k as int] == tagged(l1, false));
                assert(lines.take(k + 1) =~= lines.take(k as int).push(tagged(l1, false)));
                lemma_fold_lines_push(m0, s, lines.take(k as int), tagged(l1, false));
                lemma_fold_lines_append(m0, s, lines.take(k + 1), lines.skip(k + 1));
                assert(lines.take(k + 1) + lines.skip(k + 1) =~= lines);
            }
            if !save_one(aggr, buf, l1) {
                return None;
            }
            ls = l1.2 + 1;
            k = k + 1;
        }
        let carried = if semis_v.len() > n {
            let b: u8 = if n < 16 {
                semis_v[n]
            } else {
                0
            };
            if b < 128 {
                Some(b + 128)
            } else {
                Some(b - 128)
            }
        } else {
            None
        };
        proof {
            assert(lines.take(k as int) =~= lines);
            if n > 0 {
                assert(newls(s, c).last() == newls(s, c)[n - 1]);
            }
        }
        Some((ls, carried))
    }

    /// Scans the whole 128-byte blocks: per block, the packed `;` offsets (after the one
    /// carried over) and `\n` offsets pair up into lines, read four at a time while four
    /// are left and then one by one; a `;` left over is carried to the next block. The
    /// bytes after the last whole block are not read. True when every block reads and
    /// every line is recorded; false when a block has fewer `;` than `\n` offsets, when a
    /// line's start, `;` and `\n` do not come in order, when a value cannot be read, or
    /// when a recording fails. On success the table holds what [`fold_lines`] gives; on
    /// a valid buffer that is each station's statistics
    /// ([`crate::ver17_lines::lemma_valid_scan`]).
    pub fn scan_loop(&self, aggr: &mut AggrInfo) -> (ok: bool)
        requires
            old(aggr).hashes@.len() == TABLE_SLOTS,
        ensures
            final(aggr).hashes@.len() == TABLE_SLOTS,
            ok ==> (run_lines(self.bytes(), 0, None, 0) matches Some(ls) && fold_lines(
                old(aggr).slots_of(),
                self.bytes(),
                ls,
            ) == Some(final(aggr).slots_of())),
            (run_lines(self.bytes(), 0, None, 0) matches Some(ls) && fold_lines(old(aggr).slots_of(), self.bytes(), ls)
                is Some) ==> ok,
    {
        let buf = self.buffer;
        let n = buf.len();
        let ghost s = buf@;
        let ghost m0 = aggr.slots_of();
        let mut cursor: usize = 0;
        let mut line_start: usize = 0;
        let mut carry: Option<u8> = None;
        let ghost mut done: Seq<((int, int, int), bool)> = Seq::empty();
        proof {
            if let Some(rest) = run_lines(s, 0, None, 0) {
                assert(done + rest =~= rest);
            }
        }
        while n - cursor >= 128
            invariant
                s == buf@,
                s == self.bytes(),
                n == s.len(),
                cursor <= n,
                aggr.hashes@.len() == TABLE_SLOTS,
                m0 == old(aggr).slots_of(),
                run_lines(s, 0, None, 0) == (match run_lines(s, cursor as int, carry, line_start as int) {
                    None => None,
                    Some(rest) => Some(done + rest),
                }),
                fold_lines(m0, s, done) == Some(aggr.slots_of()),
            decreases n - cursor,
        {
            let ghost cur = aggr.slots_of();
            let ghost bl = block_lines(s, cursor as int, carry, line_start as int);
            let ghost next = run_lines(s, cursor + 128, block_carry(s, cursor as int, carry), block_next_start(s, cursor as int, line_start as int));
            match self.scan_block(aggr, cursor, line_start, carry) {
                None => {
                    proof {
                        if block_ok(s, cursor as int, carry, line_start as int) {
                            if let Some(rest) = next {
                                lemma_fold_lines_append(cur, s, bl, rest);
                                lemma_fold_lines_append(m0, s, done, bl + rest);
                                assert(done + (bl + rest) =~= done + bl + rest);
                            }
                        }
                    }
                    return false;
                },
                Some((ls2, c2)) => {
                    proof {
                        lemma_fold_lines_append(m0, s, done, bl);
                        if let Some(rest) = next {
                            assert(done + (bl + rest) =~= done + bl + rest);
                        }
                        done = done + bl;
                    }
                    line_start = ls2;
                    carry = c2;
                    cursor = cursor + 128;
                },
            }
        }
        proof {
            assert(done + Seq::<((int, int, int), bool)>::empty() =~= done);
        }
        true
    }
}

/// The number of stations the table holds, and the number of them whose slot before
/// holds a key with a non-zero first half.
pub fn check_result(aggr: &AggrInfo) -> (r: (usize, usize))
    ensures
        r.0 == crate::table::occupied_count(aggr.slots_of()),
        r.1 == crate::table::displaced_count(aggr.slots_of()),
{
    crate::table::count_entries(&aggr.hashes)
}

} // verus!
