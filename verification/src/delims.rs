//! Records read as runs between delimiters, `;` and `\n` alike: a name runs to the next
//! delimiter and its value to the one after. Delimiters are found with one bitmask per
//! whole 64-byte block and with `memchr2` in the bytes after the last whole block.
use vstd::prelude::*;
use crate::bits::{bit, get_and_clear, lemma_zero_bits, load_current_64};
use crate::format::{
    lemma_records_shape, lemma_value_plain, rec_value, record_shape, records, records_from,
    valid_buffer, valid_record, NEWLINE, SEMICOLON,
};
use crate::search::memchr2;

verus! {

/// A `;` or a `\n`.
pub open spec fn is_delim(b: u8) -> bool {
    b == SEMICOLON || b == NEWLINE
}

/// Index of the first delimiter of `s` at or after `from`, or -1 when there is none.
pub open spec fn next_delim(s: Seq<u8>, from: int) -> int
    decreases s.len() - from,
{
    if 0 <= from < s.len() {
        if is_delim(s[from]) {
            from
        } else {
            next_delim(s, from + 1)
        }
    } else {
        -1
    }
}

/// What `next_delim` returns: the first delimiter from `from` on, or -1 when none is
/// left.
pub proof fn lemma_next_delim(s: Seq<u8>, from: int)
    requires
        0 <= from,
    ensures
        next_delim(s, from) == -1 || (from <= next_delim(s, from) < s.len() && is_delim(
            s[next_delim(s, from)],
        )),
        next_delim(s, from) == -1 ==> forall|j: int| from <= j < s.len() ==> !is_delim(s[j]),
        next_delim(s, from) >= 0 ==> forall|j: int| from <= j < next_delim(s, from) ==> !is_delim(s[j]),
    decreases s.len() - from,
{
    if from < s.len() && !is_delim(s[from]) {
        lemma_next_delim(s, from + 1);
    }
}

/// The first delimiter at or after `from` is at `r`.
pub proof fn lemma_next_delim_is(s: Seq<u8>, from: int, r: int)
    requires
        0 <= from <= r < s.len(),
        is_delim(s[r]),
        forall|j: int| from <= j < r ==> !is_delim(s[j]),
    ensures
        next_delim(s, from) == r,
    decreases r - from,
{
    if from < r {
        lemma_next_delim_is(s, from + 1, r);
    }
}

/// No delimiter at or after `from`.
pub proof fn lemma_next_delim_none(s: Seq<u8>, from: int)
    requires
        0 <= from,
        forall|j: int| from <= j < s.len() ==> !is_delim(s[j]),
    ensures
        next_delim(s, from) == -1,
    decreases s.len() - from,
{
    if from < s.len() {
        lemma_next_delim_none(s, from + 1);
    }
}

/// The records of `s` from `begin` on, read between delimiters: `(begin, p1, p2)` with
/// `p1` the first delimiter from `begin` on and `p2` the next one; the list stops at the
/// end of the buffer or where a delimiter is missing.
pub open spec fn delim_records_from(s: Seq<u8>, begin: int) -> Seq<(int, int, int)>
    decreases s.len() - begin,
{
    if 0 <= begin < s.len() {
        let p1 = next_delim(s, begin);
        if p1 < 0 {
            seq![]
        } else {
            let p2 = next_delim(s, p1 + 1);
            if p2 < 0 {
                seq![]
            } else {
                proof {
                    lemma_next_delim(s, begin);
                    lemma_next_delim(s, p1 + 1);
                }
                seq![(begin, p1, p2)] + delim_records_from(s, p2 + 1)
            }
        }
    } else {
        seq![]
    }
}

/// The records of the whole buffer, read between delimiters.
pub open spec fn delim_records(s: Seq<u8>) -> Seq<(int, int, int)> {
    delim_records_from(s, 0)
}

/// Setting the bits of either mask.
proof fn lemma_bit_union(a: u64, b: u64, j: int)
    requires
        0 <= j < 64,
    ensures
        bit(a | b, j) <==> (bit(a, j) || bit(b, j)),
{
    let jj = j as u64;
    assert(((a | b) >> jj) & 1 == 1 <==> ((a >> jj) & 1 == 1 || (b >> jj) & 1 == 1)) by (bit_vector)
        requires
            jj < 64,
    ;
}

/// The mask of the delimiters among `buf[cursor..cursor + 64]`.
pub fn load_delims_64(buf: &[u8], cursor: usize) -> (m: u64)
    requires
        cursor + 64 <= buf@.len(),
    ensures
        forall|j: int| 0 <= j < 64 ==> (bit(m, j) <==> is_delim(buf@[cursor + j])),
{
    let (pos1, pos2) = load_current_64(buf, cursor);
    let m = pos1 | pos2;
    assert forall|j: int| 0 <= j < 64 implies (bit(m, j) <==> is_delim(buf@[cursor + j])) by {
        lemma_bit_union(pos1, pos2, j);
    }
    m
}

/// A delimiter search over a buffer: the block under `cursor` with the bits of the
/// delimiters not yet returned, or, past the last whole block, a plain search from
/// `cursor`. `pos` is where the next search starts.
pub struct DelimScanner {
    pub cursor: usize,
    pub mask: u64,
    pub tail: bool,
    pub pos: Ghost<int>,
}

impl DelimScanner {
    /// The scanner state is consistent with buffer `s`.
    pub open spec fn inv(self, s: Seq<u8>) -> bool {
        let c = self.cursor as int;
        let p = self.pos@;
        &&& !self.tail ==> {
            &&& c % 64 == 0
            &&& c + 64 <= s.len()
            &&& c <= p <= c + 64
            &&& forall|j: int| 0 <= j < 64 ==> (bit(self.mask, j) <==> is_delim(s[c + j]) && c + j >= p)
        }
        &&& self.tail ==> c <= s.len() && p == c
    }

    /// A search from the first byte of `buf`, which holds at least one whole block.
    pub fn new(buf: &[u8]) -> (r: DelimScanner)
        requires
            buf@.len() >= 64,
        ensures
            r.inv(buf@),
            r.pos@ == 0,
    {
        let mask = load_delims_64(buf, 0);
        DelimScanner { cursor: 0, mask, tail: false, pos: Ghost(0) }
    }

    /// The first delimiter from `pos` on, after which the search goes on; `None` when
    /// no delimiter is left.
    pub fn next(&mut self, buf: &[u8]) -> (r: Option<usize>)
        requires
            old(self).inv(buf@),
        ensures
            final(self).inv(buf@),
            r is Some <==> next_delim(buf@, old(self).pos@) >= 0,
            r matches Some(p) ==> p == next_delim(buf@, old(self).pos@) && final(self).pos@ == p + 1,
    {
        let ghost p0 = self.pos@;
        let ghost s = buf@;
        let n = buf.len();
        loop
            invariant
                self.inv(buf@),
                s == buf@,
                n == buf@.len(),
                p0 <= self.pos@,
                p0 == old(self).pos@,
                forall|j: int| p0 <= j < self.pos@ ==> !is_delim(s[j]),
                0 <= p0,
            decreases (if self.tail { 0 } else { n - self.cursor + 1 }),
        {
            if !self.tail {
                let c = self.cursor;
                if self.mask != 0 {
                    let ghost old_mask = self.mask;
                    let t = get_and_clear(&mut self.mask);
                    let r = c + t;
                    proof {
                        assert forall|j: int| p0 <= j < r implies !is_delim(s[j]) by {
                            if j >= self.pos@ {
                                assert(!bit(old_mask, j - c));
                            }
                        }
                        lemma_next_delim_is(s, p0, r as int);
                        self.pos = Ghost(r + 1);
                        assert forall|j: int| 0 <= j < 64 implies (bit(self.mask, j) <==> is_delim(s[c + j])
                            && c + j >= r + 1) by {
                            if bit(self.mask, j) {
                                assert(bit(old_mask, j) && j > t);
                            }
                        }
                    }
                    return Some(r);
                }
                proof {
                    lemma_zero_bits(self.mask);
                    assert forall|j: int| p0 <= j < c + 64 implies !is_delim(s[j]) by {
                        if j >= self.pos@ {
                            assert(!bit(self.mask, j - c));
                        }
                    }
                }
                self.cursor = c + 64;
                if n - self.cursor >= 64 {
                    self.mask = load_delims_64(buf, self.cursor);
                } else {
                    self.tail = true;
                }
                proof {
                    self.pos = Ghost(self.cursor as int);
                }
            } else {
                let c = self.cursor;
                let rest = vstd::slice::slice_subrange(buf, c, n);
                match memchr2(SEMICOLON, NEWLINE, rest) {
                    Some(i) => {
                        let r = c + i;
                        proof {
                            assert(rest@[i as int] == s[r as int]);
                            assert forall|j: int| p0 <= j < r implies !is_delim(s[j]) by {
                                if j >= c {
                                    assert(rest@[j - c] == s[j]);
                                }
                            }
                            lemma_next_delim_is(s, p0, r as int);
                        }
                        self.cursor = r + 1;
                        proof {
                            self.pos = Ghost(r + 1);
                        }
                        return Some(r);
                    },
                    None => {
                        proof {
                            assert forall|j: int| p0 <= j < s.len() implies !is_delim(s[j]) by {
                                if j >= c {
                                    assert(rest@[j - c] == s[j]);
                                }
                            }
                            lemma_next_delim_none(s, p0);
                        }
                        return None;
                    },
                }
            }
        }
    }
}

/// Whether reading between delimiters from `begin` on reaches the end of the buffer:
/// every line started before the end has both its delimiters.
pub open spec fn reads_to_end(s: Seq<u8>, begin: int) -> bool
    decreases s.len() - begin,
{
    if 0 <= begin < s.len() {
        let p1 = next_delim(s, begin);
        let p2 = next_delim(s, p1 + 1);
        if p1 < 0 || p2 < 0 {
            false
        } else {
            proof {
                lemma_next_delim(s, begin);
                lemma_next_delim(s, p1 + 1);
            }
            reads_to_end(s, p2 + 1)
        }
    } else {
        true
    }
}

/// A record of the format whose name holds no `\n` and whose value text holds neither
/// `;` nor `\n`.
pub open spec fn plain_record(s: Seq<u8>, r: (int, int, int)) -> bool {
    &&& forall|j: int| r.0 <= j < r.1 ==> s[j] != NEWLINE
    &&& forall|j: int| r.1 < j < r.2 ==> s[j] != SEMICOLON && s[j] != NEWLINE
}

/// A buffer made of plain records that cover it to its last byte.
pub open spec fn plain_buffer(s: Seq<u8>) -> bool {
    &&& forall|i: int| 0 <= i < records(s).len() ==> plain_record(s, #[trigger] records(s)[i])
    &&& if records(s).len() == 0 {
        s.len() == 0
    } else {
        records(s).last().2 == s.len() - 1
    }
}

/// From the start of a record on, reading between delimiters finds the same records as
/// the format, as long as every record from there on is plain and they cover the rest
/// of the buffer.
proof fn lemma_delim_same_from(s: Seq<u8>, b: int)
    requires
        0 <= b <= s.len(),
        forall|i: int| 0 <= i < records_from(s, b).len() ==> plain_record(s, #[trigger] records_from(s, b)[i]),
        if records_from(s, b).len() == 0 {
            b == s.len()
        } else {
            records_from(s, b).last().2 == s.len() - 1
        },
    ensures
        delim_records_from(s, b) == records_from(s, b),
        reads_to_end(s, b),
    decreases s.len() - b,
{
    if b < s.len() {
        lemma_records_shape(s, b);
        let rs = records_from(s, b);
        let r = rs[0];
        assert(record_shape(s, r));
        assert(plain_record(s, r));
        assert forall|j: int| b <= j < r.1 implies !is_delim(s[j]) by {}
        lemma_next_delim_is(s, b, r.1);
        assert forall|j: int| r.1 + 1 <= j < r.2 implies !is_delim(s[j]) by {}
        lemma_next_delim_is(s, r.1 + 1, r.2);
        let rest = records_from(s, r.2 + 1);
        assert(rs == seq![r] + rest);
        assert forall|i: int| 0 <= i < rest.len() implies plain_record(s, #[trigger] rest[i]) by {
            assert(rest[i] == rs[i + 1]);
        }
        if rest.len() > 0 {
            assert(rest.last() == rs.last());
        }
        lemma_delim_same_from(s, r.2 + 1);
    }
}

/// On a buffer made of plain records, reading between delimiters finds exactly the
/// records of the format.
pub proof fn lemma_delim_records_plain(s: Seq<u8>)
    requires
        plain_buffer(s),
    ensures
        delim_records(s) == records(s),
        reads_to_end(s, 0),
{
    lemma_delim_same_from(s, 0);
}

/// On a buffer made of valid lines, reading between delimiters finds exactly the
/// records of the format.
pub proof fn lemma_delim_records_valid(s: Seq<u8>)
    requires
        valid_buffer(s),
    ensures
        delim_records(s) == records(s),
        reads_to_end(s, 0),
{
    lemma_records_shape(s, 0);
    assert forall|i: int| 0 <= i < records(s).len() implies plain_record(s, #[trigger] records(s)[i]) by {
        let r = records(s)[i];
        assert(record_shape(s, r));
        assert(valid_record(s, r));
        lemma_value_plain(rec_value(s, r));
        assert forall|j: int| r.1 < j < r.2 implies s[j] != SEMICOLON && s[j] != NEWLINE by {
            assert(rec_value(s, r)[j - r.1 - 1] == s[j]);
        }
    }
    lemma_delim_same_from(s, 0);
}

/// Skipping bytes that hold no delimiter keeps the next delimiter where it is.
pub proof fn lemma_next_delim_skip(s: Seq<u8>, a: int, b: int)
    requires
        0 <= a <= b,
        forall|x: int| a <= x < b ==> !is_delim(#[trigger] s[x]),
    ensures
        next_delim(s, a) == next_delim(s, b),
    decreases b - a,
{
    if a < b {
        if a < s.len() {
            lemma_next_delim_skip(s, a + 1, b);
        } else {
            assert(next_delim(s, a) == -1);
            assert(next_delim(s, b) == -1);
        }
    }
}

} // verus!
