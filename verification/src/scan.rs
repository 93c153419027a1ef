//! Record scanning over whole 64-byte blocks with one bitmask of `;` and one of `\n`
//! per block: the `k`-th unused `;` and the `k`-th unused `\n` of a block end the name
//! and the value of a line, and a `;` left over at the end of a block serves the line
//! that ends in the next block. Bytes after the last whole block are not scanned.
use vstd::prelude::*;
use crate::bits::{bit, get_and_clear, lemma_lowest_bit, lemma_zero_bits, load_current_64};
use crate::format::{
    find_from, lemma_find_from, lemma_find_from_is, lemma_find_from_none, lemma_records_shape,
    lemma_value_len, lemma_value_plain, rec_value, record_shape, records, records_from, valid_buffer,
    valid_record, NEWLINE, SEMICOLON,
};

verus! {

/// The part of a buffer the block scanners read: its whole 64-byte blocks.
pub open spec fn scanned(s: Seq<u8>) -> Seq<u8> {
    s.take(s.len() as int / 64 * 64)
}

/// Where the text after the records of `q` starts.
pub open spec fn after_records(q: Seq<u8>) -> int {
    if records(q).len() == 0 {
        0
    } else {
        records(q).last().2 + 1
    }
}

/// The bitmasks pair record `r`'s `;` with its `\n`: its name holds no `\n`, its value
/// no `;`, and its `;` lies at most one block before its `\n`.
pub open spec fn record_paired(q: Seq<u8>, r: (int, int, int)) -> bool {
    &&& forall|x: int| r.0 <= x < r.1 ==> q[x] != NEWLINE
    &&& forall|x: int| r.1 < x < r.2 ==> q[x] != SEMICOLON
    &&& r.2 / 64 - r.1 / 64 <= 1
}

/// The bitmasks of a block pair every line's `;` with its `\n`: no name holds a `\n`,
/// no value holds a `;`, no `;` lies more than one block before its `\n`, and no `\n`
/// follows the last record.
pub open spec fn paired(q: Seq<u8>) -> bool {
    &&& forall|i: int|
        0 <= i < records(q).len() ==> {
            let r = #[trigger] records(q)[i];
            &&& forall|x: int| r.0 <= x < r.1 ==> q[x] != NEWLINE
            &&& forall|x: int| r.1 < x < r.2 ==> q[x] != SEMICOLON
            &&& r.2 / 64 - r.1 / 64 <= 1
        }
    &&& forall|x: int| after_records(q) <= x < q.len() ==> q[x] != NEWLINE
}

/// What a call of [`BlockScanner::next_line`] found.
pub enum Scan {
    /// The next record: its start, its `;` and its `\n`.
    Line(usize, usize, usize),
    /// No record is left.
    End,
    /// The bitmasks do not pair the next line's `;` with its `\n`.
    Stuck,
}

/// The state of a scan: the block under the cursor with its unused `;` and `\n`
/// bits, the `;` bits carried over from the block before, and the records found so
/// far.
pub struct BlockScanner {
    pub cursor: usize,
    pub limit: usize,
    pub line_start: usize,
    pub pending: u64,
    pub stale: bool,
    pub pos1: u64,
    pub pos2: u64,
    pub active: bool,
    pub done: Ghost<Seq<(int, int, int)>>,
}

impl BlockScanner {
    /// The scanner state is consistent with buffer `s`.
    pub open spec fn inv(self, s: Seq<u8>) -> bool {
        let q = scanned(s);
        let c = self.cursor as int;
        let ls = self.line_start as int;
        &&& self.limit == q.len()
        &&& self.limit % 64 == 0
        &&& self.cursor % 64 == 0
        &&& records(q) == self.done@ + records_from(q, ls)
        &&& ls == (if self.done@.len() == 0 { 0 } else { self.done@.last().2 + 1 })
        &&& self.active ==> {
            &&& c + 64 <= self.limit
            &&& ls <= c + 64
            &&& forall|j: int| 0 <= j < 64 ==> (bit(self.pos2, j) <==> q[c + j] == NEWLINE && c + j >= ls)
            &&& forall|j: int| 0 <= j < 64 ==> (bit(self.pos1, j) <==> q[c + j] == SEMICOLON && c + j >= ls)
            &&& forall|x: int| ls <= x < c ==> q[x] != NEWLINE
            &&& self.stale ==> self.pending != 0
            &&& (!self.stale && self.pending == 0) ==> forall|x: int| ls <= x < c ==> q[x] != SEMICOLON
            &&& (!self.stale && self.pending != 0) ==> {
                &&& c >= 64
                &&& forall|x: int| ls <= x < c - 64 ==> q[x] != SEMICOLON
                &&& forall|j: int|
                    0 <= j < 64 ==> (bit(self.pending, j) <==> q[c - 64 + j] == SEMICOLON && c - 64 + j >= ls)
            }
            &&& self.stale ==> {
                &&& 0 <= find_from(q, SEMICOLON, ls) < c - 64
            }
        }
        &&& !self.active ==> records_from(q, ls) == Seq::<(int, int, int)>::empty() && forall|x: int|
            ls <= x < q.len() ==> q[x] != NEWLINE
        &&& forall|i: int| 0 <= i < self.done@.len() ==> record_paired(q, #[trigger] self.done@[i])
    }

    /// Starts a scan of `buf` at its first byte.
    pub fn new(buf: &[u8]) -> (r: Self)
        ensures
            r.inv(buf@),
            r.done@ == Seq::<(int, int, int)>::empty(),
    {
        let limit = buf.len() / 64 * 64;
        let ghost q = scanned(buf@);
        if limit == 0 {
            return BlockScanner {
                cursor: 0,
                limit,
                line_start: 0,
                pending: 0,
                stale: false,
                pos1: 0,
                pos2: 0,
                active: false,
                done: Ghost(Seq::empty()),
            };
        }
        let (pos1, pos2) = load_current_64(buf, 0);
        let r = BlockScanner {
            cursor: 0,
            limit,
            line_start: 0,
            pending: 0,
            stale: false,
            pos1,
            pos2,
            active: true,
            done: Ghost(Seq::empty()),
        };
        assert(seq![] + records_from(q, 0) =~= records(q));
        r
    }

    /// Finds the next record: the first `\n` from the line start on ends it, and the
    /// `;` before it ends its name. `End` when no record is left in the scanned blocks;
    /// `Stuck` when the bitmasks would pair a `;` and a `\n` that do not belong to one
    /// record.
    #[verifier::spinoff_prover]
    #[verifier::rlimit(60)]
    pub fn next_line(&mut self, buf: &[u8]) -> (r: Scan)
        requires
            old(self).inv(buf@),
        ensures
            !(r is Stuck) ==> final(self).inv(buf@),
            final(self).limit == old(self).limit,
            match r {
                Scan::Line(a, b, c) => {
                    &&& records_from(scanned(buf@), old(self).line_start as int).len() > 0
                    &&& records_from(scanned(buf@), old(self).line_start as int)[0] == (a as int, b as int, c as int)
                    &&& final(self).done@ == old(self).done@.push((a as int, b as int, c as int))
                    &&& final(self).line_start == c + 1
                },
                Scan::End => {
                    &&& records_from(scanned(buf@), old(self).line_start as int) == Seq::<(int, int, int)>::empty()
                    &&& final(self).done@ == old(self).done@
                    &&& paired(scanned(buf@))
                },
                Scan::Stuck => !paired(scanned(buf@)),
            },
    {
        let ghost q = scanned(buf@);
        let ghost ls = self.line_start as int;
        loop
            invariant
                self.inv(buf@),
                q == scanned(buf@),
                self.limit == old(self).limit,
                self.line_start == ls,
                self.done@ == old(self).done@,
                ls == old(self).line_start,
            decreases self.limit - self.cursor,
        {
            if !self.active {
                proof {
                    self.lemma_end_paired(q, ls);
                }
                return Scan::End;
            }
            let c = self.cursor;
            let start = self.line_start;
            if self.pos2 != 0 {
                let ghost old_pos1 = self.pos1;
                let ghost old_pos2 = self.pos2;
                let ghost old_pending = self.pending;
                let t2 = get_and_clear(&mut self.pos2);
                let p2 = c + t2;
                proof {
                    assert(q[p2 as int] == NEWLINE && p2 >= ls);
                    assert forall|x: int| ls <= x < p2 implies q[x] != NEWLINE by {
                        if x >= c {
                            assert(!bit(old_pos2, x - c) || x - c >= t2);
                        }
                    }
                    lemma_find_from(q, SEMICOLON, ls);
                }
                let p1: usize;
                if self.pending != 0 {
                    if self.stale {
                        proof {
                            self.lemma_stuck_record(q, ls, find_from(q, SEMICOLON, ls), p2 as int);
                        }
                        return Scan::Stuck;
                    }
                    let t1 = get_and_clear(&mut self.pending);
                    p1 = c - 64 + t1;
                    proof {
                        assert forall|x: int| ls <= x < p1 implies q[x] != SEMICOLON by {
                            if x >= c - 64 {
                                assert(!bit(old_pending, x - (c - 64)));
                            }
                        }
                        lemma_find_from_is(q, SEMICOLON, ls, p1 as int);
                        lemma_find_from_is(q, NEWLINE, p1 + 1, p2 as int);
                    }
                    if self.pending != 0 {
                        proof {
                            lemma_lowest_bit(self.pending);
                            let x = c - 64 + self.pending.trailing_zeros();
                            assert(bit(old_pending, x - (c - 64)));
                            self.lemma_stuck_value(q, ls, p1 as int, p2 as int, x);
                        }
                        return Scan::Stuck;
                    }
                    proof {
                        lemma_zero_bits(self.pending);
                        assert forall|x: int| p1 < x < c implies q[x] != SEMICOLON by {
                            assert(!bit(self.pending, x - (c - 64)));
                        }
                    }
                } else {
                    if self.pos1 == 0 {
                        proof {
                            lemma_zero_bits(old_pos1);
                            assert forall|x: int| ls <= x <= p2 implies q[x] != SEMICOLON by {
                                if x >= c {
                                    assert(!bit(old_pos1, x - c));
                                }
                            }
                            self.lemma_stuck_name(q, ls, p2 as int);
                        }
                        return Scan::Stuck;
                    }
                    let t1 = get_and_clear(&mut self.pos1);
                    p1 = c + t1;
                    proof {
                        assert forall|x: int| ls <= x < p1 implies q[x] != SEMICOLON by {
                            if x >= c {
                                assert(!bit(old_pos1, x - c));
                            }
                        }
                    }
                    if t1 > t2 {
                        proof {
                            assert forall|x: int| ls <= x <= p2 implies q[x] != SEMICOLON by {
                                if x >= c {
                                    assert(!bit(old_pos1, x - c));
                                }
                            }
                            self.lemma_stuck_name(q, ls, p2 as int);
                        }
                        return Scan::Stuck;
                    }
                    proof {
                        lemma_find_from_is(q, SEMICOLON, ls, p1 as int);
                    }
                }
                proof {
                    assert(p1 < p2);
                    assert forall|x: int| p1 + 1 <= x < p2 implies q[x] != NEWLINE by {}
                    lemma_find_from_is(q, NEWLINE, p1 + 1, p2 as int);
                }
                if self.pos1 != 0 {
                    let t = self.pos1.trailing_zeros();
                    proof {
                        lemma_lowest_bit(self.pos1);
                    }
                    if (t as usize) < t2 {
                        proof {
                            let x = c + t;
                            assert(bit(old_pos1, t as int));
                            self.lemma_stuck_value(q, ls, p1 as int, p2 as int, x as int);
                        }
                        return Scan::Stuck;
                    }
                }
                let ghost r = (ls, p1 as int, p2 as int);
                proof {
                    assert(records_from(q, ls) == seq![r] + records_from(q, p2 + 1));
                    assert(record_paired(q, r)) by {
                        lemma_find_from(q, NEWLINE, p1 + 1);
                        assert forall|x: int| p1 < x < p2 implies q[x] != SEMICOLON by {
                            if x >= c && q[x] == SEMICOLON {
                                assert(bit(self.pos1, x - c));
                                lemma_zero_bits(self.pos1);
                                if self.pos1 != 0 {
                                    lemma_lowest_bit(self.pos1);
                                }
                            }
                        }
                        assert(p2 / 64 - p1 / 64 <= 1) by (nonlinear_arith)
                            requires
                                c % 64 == 0,
                                c <= p2 < c + 64,
                                c >= 64 ==> c - 64 <= p1,
                                c < 64 ==> c <= p1,
                                p1 < p2,
                        ;
                    }
                    assert forall|i: int| 0 <= i < self.done@.push(r).len() implies record_paired(
                        q,
                        #[trigger] self.done@.push(r)[i],
                    ) by {
                        if i < self.done@.len() {
                            assert(self.done@.push(r)[i] == self.done@[i]);
                        }
                    }
                    lemma_zero_bits(self.pos1);
                    if self.pos1 != 0 {
                        lemma_lowest_bit(self.pos1);
                    }
                    assert forall|j: int| 0 <= j < 64 implies (bit(self.pos1, j) <==> q[c + j]
                        == SEMICOLON && c + j >= p2 + 1) by {
                        if bit(self.pos1, j) {
                            assert(j >= self.pos1.trailing_zeros());
                        }
                    }
                    assert(self.done@.push(r) + records_from(q, p2 + 1) =~= self.done@ + records_from(q, ls));
                }
                self.line_start = p2 + 1;
                self.stale = false;
                self.done = Ghost(self.done@.push(r));
                return Scan::Line(start, p1, p2);
            } else {
                proof {
                    lemma_zero_bits(self.pos2);
                    assert forall|x: int| ls <= x < c + 64 implies q[x] != NEWLINE by {
                        if x >= c {
                            assert(!bit(self.pos2, x - c));
                        }
                    }
                    if self.pending == 0 && !self.stale && self.pos1 == 0 {
                        lemma_zero_bits(self.pos1);
                        assert forall|x: int| ls <= x < c + 64 implies q[x] != SEMICOLON by {
                            if x >= c {
                                assert(!bit(self.pos1, x - c));
                            }
                        }
                    }
                    if self.pending != 0 && !self.stale {
                        lemma_lowest_bit(self.pending);
                        let x = c - 64 + self.pending.trailing_zeros();
                        assert(q[x] == SEMICOLON && x >= ls);
                        assert forall|y: int| ls <= y < x implies q[y] != SEMICOLON by {
                            if y >= c - 64 {
                                assert(!bit(self.pending, y - (c - 64)));
                            }
                        }
                        lemma_find_from_is(q, SEMICOLON, ls, x);
                    }
                }
                if self.pending != 0 {
                    self.stale = true;
                } else {
                    self.pending = self.pos1;
                }
                self.cursor = c + 64;
                if self.limit - self.cursor < 64 {
                    self.active = false;
                    proof {
                        self.lemma_tail_empty(q, ls);
                        self.lemma_end_paired(q, ls);
                    }
                    return Scan::End;
                }
                let (pos1, pos2) = load_current_64(buf, self.cursor);
                self.pos1 = pos1;
                self.pos2 = pos2;
                proof {
                    let c2 = self.cursor as int;
                    assert forall|j: int| 0 <= j < 64 implies #[trigger] q[c2 + j] == buf@[c2 + j] by {}
                }
            }
        }
    }

    /// With a stale `;`, the record from `ls` has its `;` more than a block before its
    /// `\n`, so the bitmasks cannot pair them.
    proof fn lemma_stuck_record(self, q: Seq<u8>, ls: int, p1: int, p2: int)
        requires
            self.inv_core(q, ls),
            0 <= ls <= p1 < p2 < q.len(),
            p1 == find_from(q, SEMICOLON, ls),
            p1 < self.cursor - 64,
            p2 >= self.cursor,
            self.cursor % 64 == 0,
            q[p2] == NEWLINE,
            forall|x: int| ls <= x < p2 ==> q[x] != NEWLINE,
        ensures
            !paired(q),
    {
        lemma_find_from(q, SEMICOLON, ls);
        lemma_find_from_is(q, NEWLINE, p1 + 1, p2);
        let r = (ls, p1, p2);
        assert(records_from(q, ls)[0] == r);
        assert(records(q)[self.done@.len() as int] == r);
        assert(r.2 / 64 - r.1 / 64 > 1);
    }

    /// A `;` strictly between the record's `;` and `\n` lies in its value.
    proof fn lemma_stuck_value(self, q: Seq<u8>, ls: int, p1: int, p2: int, x: int)
        requires
            self.inv_core(q, ls),
            0 <= ls <= p1 < x < p2 < q.len(),
            p1 == find_from(q, SEMICOLON, ls),
            p2 == find_from(q, NEWLINE, p1 + 1),
            q[x] == SEMICOLON,
        ensures
            !paired(q),
    {
        lemma_find_from(q, SEMICOLON, ls);
        lemma_find_from(q, NEWLINE, p1 + 1);
        let r = (ls, p1, p2);
        assert(records_from(q, ls)[0] == r);
        assert(records(q)[self.done@.len() as int] == r);
    }

    /// A `\n` at `p2` with no `;` from `ls` up to it: either it lies in the next
    /// record's name, or no record follows and it lies after the last record.
    proof fn lemma_stuck_name(self, q: Seq<u8>, ls: int, p2: int)
        requires
            self.inv_core(q, ls),
            0 <= ls <= p2 < q.len(),
            q[p2] == NEWLINE,
            forall|x: int| ls <= x <= p2 ==> q[x] != SEMICOLON,
        ensures
            !paired(q),
    {
        lemma_find_from(q, SEMICOLON, ls);
        if records_from(q, ls).len() > 0 {
            let r = records_from(q, ls)[0];
            assert(records(q)[self.done@.len() as int] == r);
            assert(r.0 == ls && r.1 == find_from(q, SEMICOLON, ls));
        } else {
            assert(records(q) =~= self.done@);
        }
    }

    /// Every record read so far is paired and nothing but bytes without a `\n` follow
    /// them: the whole scanned part is paired.
    proof fn lemma_end_paired(self, q: Seq<u8>, ls: int)
        requires
            self.inv_core(q, ls),
            records_from(q, ls) == Seq::<(int, int, int)>::empty(),
            forall|x: int| ls <= x < q.len() ==> q[x] != NEWLINE,
            forall|i: int| 0 <= i < self.done@.len() ==> record_paired(q, #[trigger] self.done@[i]),
        ensures
            paired(q),
    {
        assert(records(q) =~= self.done@);
        assert forall|i: int| 0 <= i < records(q).len() implies {
            let r = #[trigger] records(q)[i];
            &&& forall|x: int| r.0 <= x < r.1 ==> q[x] != NEWLINE
            &&& forall|x: int| r.1 < x < r.2 ==> q[x] != SEMICOLON
            &&& r.2 / 64 - r.1 / 64 <= 1
        } by {
            assert(record_paired(q, self.done@[i]));
        }
    }

    /// No `\n` from `ls` to the end of the scanned blocks: no record is left.
    proof fn lemma_tail_empty(self, q: Seq<u8>, ls: int)
        requires
            0 <= ls <= q.len(),
            forall|x: int| ls <= x < q.len() ==> q[x] != NEWLINE,
        ensures
            records_from(q, ls) == Seq::<(int, int, int)>::empty(),
    {
        lemma_find_from(q, SEMICOLON, ls);
        if ls < q.len() && find_from(q, SEMICOLON, ls) >= 0 {
            lemma_find_from_none(q, NEWLINE, find_from(q, SEMICOLON, ls) + 1);
        }
    }

    /// The parts of the invariant the stuck lemmas use.
    pub open spec fn inv_core(self, q: Seq<u8>, ls: int) -> bool {
        &&& records(q) == self.done@ + records_from(q, ls)
        &&& ls == (if self.done@.len() == 0 { 0 } else { self.done@.last().2 + 1 })
    }
}

/// Where the text after the records of `q` from `b` on starts.
pub open spec fn after_from(q: Seq<u8>, b: int) -> int {
    if records_from(q, b).len() == 0 {
        b
    } else {
        records_from(q, b).last().2 + 1
    }
}

/// The pairing conditions of [`paired`] for the records of `q` from `b` on.
pub open spec fn paired_from(q: Seq<u8>, b: int) -> bool {
    &&& forall|i: int|
        0 <= i < records_from(q, b).len() ==> {
            let r = #[trigger] records_from(q, b)[i];
            &&& forall|x: int| r.0 <= x < r.1 ==> q[x] != NEWLINE
            &&& forall|x: int| r.1 < x < r.2 ==> q[x] != SEMICOLON
            &&& r.2 / 64 - r.1 / 64 <= 1
        }
    &&& forall|x: int| after_from(q, b) <= x < q.len() ==> q[x] != NEWLINE
}

/// From the start of a line of `s` on, the whole blocks `q` of `s` pair every line.
proof fn lemma_paired_from(s: Seq<u8>, q: Seq<u8>, b: int)
    requires
        q == scanned(s),
        0 <= b <= s.len(),
        forall|i: int| 0 <= i < records_from(s, b).len() ==> valid_record(s, #[trigger] records_from(s, b)[i]),
        if records_from(s, b).len() == 0 {
            b == s.len()
        } else {
            records_from(s, b).last().2 == s.len() - 1
        },
    ensures
        paired_from(q, b),
        forall|i: int| 0 <= i < records_from(q, b).len() ==> valid_record(q, #[trigger] records_from(q, b)[i]),
    decreases s.len() - b,
{
    let w = q.len() as int;
    assert(w <= s.len());
    assert forall|x: int| 0 <= x < w implies q[x] == s[x] by {}
    if b >= w {
        if b < q.len() {
        }
        assert(records_from(q, b) =~= Seq::<(int, int, int)>::empty());
        return;
    }
    lemma_records_shape(s, b);
    let rs = records_from(s, b);
    let r = rs[0];
    assert(record_shape(s, r));
    assert(valid_record(s, r));
    lemma_value_plain(rec_value(s, r));
    lemma_value_len(rec_value(s, r));
    assert forall|x: int| r.1 < x < r.2 implies s[x] != SEMICOLON && s[x] != NEWLINE by {
        assert(rec_value(s, r)[x - r.1 - 1] == s[x]);
    }
    if r.2 < w {
        lemma_find_from_is(q, SEMICOLON, b, r.1);
        lemma_find_from_is(q, NEWLINE, r.1 + 1, r.2);
        let rest = records_from(s, r.2 + 1);
        assert(rs == seq![r] + rest);
        assert forall|i: int| 0 <= i < rest.len() implies valid_record(s, #[trigger] rest[i]) by {
            assert(rest[i] == rs[i + 1]);
        }
        if rest.len() > 0 {
            assert(rest.last() == rs.last());
        }
        lemma_paired_from(s, q, r.2 + 1);
        let qr = records_from(q, b);
        let qrest = records_from(q, r.2 + 1);
        assert(qr == seq![r] + qrest);
        if qrest.len() > 0 {
            assert(qr.last() == qrest.last());
        }
        assert(rec_value(q, r) =~= rec_value(s, r));
        assert forall|i: int| 0 <= i < qr.len() implies {
            let t = #[trigger] qr[i];
            &&& forall|x: int| t.0 <= x < t.1 ==> q[x] != NEWLINE
            &&& forall|x: int| t.1 < x < t.2 ==> q[x] != SEMICOLON
            &&& t.2 / 64 - t.1 / 64 <= 1
            &&& valid_record(q, t)
        } by {
            if i > 0 {
                assert(qr[i] == qrest[i - 1]);
            }
        }
    } else {
        if r.1 < w {
            lemma_find_from_is(q, SEMICOLON, b, r.1);
            lemma_find_from_none(q, NEWLINE, r.1 + 1);
        } else {
            lemma_find_from_none(q, SEMICOLON, b);
        }
        assert(records_from(q, b) =~= Seq::<(int, int, int)>::empty());
    }
}

/// On a buffer made of valid lines the whole blocks pair every line's `;` with its
/// `\n`: the block scanners never get stuck on it.
pub proof fn lemma_valid_paired(s: Seq<u8>)
    requires
        valid_buffer(s),
    ensures
        paired(scanned(s)),
        crate::format::valid_records(scanned(s)),
{
    let q = scanned(s);
    lemma_paired_from(s, q, 0);
    assert(after_from(q, 0) == after_records(q));
}

} // verus!
