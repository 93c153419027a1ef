//! A line reader over whole blocks of 64 or 128 bytes: the delimiters (`;` and `\n`
//! alike) of the block under the cursor are kept as a bitmask, two are taken per line,
//! and a new block is loaded only when the mask runs out. The bytes after the last whole
//! block are searched with `memchr2` once; their lines are then read from the mask until
//! it runs out.
use vstd::prelude::*;
use crate::bits::{bit, get_and_clear, lemma_zero_bits};
use crate::delims::{
    delim_records, delim_records_from, is_delim, lemma_next_delim, lemma_next_delim_is, lemma_next_delim_skip,
    load_delims_64,
    next_delim,
};
use crate::format::{NEWLINE, SEMICOLON};
use crate::search::memchr2;

verus! {

/// Setting one more bit of a mask.
proof fn lemma_set_bit(m: u64, k: u64, j: int)
    requires
        k < 64,
        0 <= j < 64,
    ensures
        bit(m | (1u64 << k), j) <==> (bit(m, j) || j == k),
{
    crate::bits::lemma_bit_or(m, k, j as u64);
}

/// Where the bytes after the last whole block start, for blocks of `block` bytes.
pub open spec fn whole_end(len: int, block: int) -> int {
    len / block * block
}

/// The block a position lies in, for blocks of `b` bytes in a buffer of `n` bytes:
/// the bytes after the last whole block count as one more block, and a position before
/// the buffer (where nothing was read yet) as the first.
pub open spec fn block_index(n: int, b: int, x: int) -> int {
    if x < 0 {
        0
    } else if x < whole_end(n, b) {
        x / b
    } else {
        whole_end(n, b) / b
    }
}

/// The delimiter at `y` lies in the block of `x` or in the next: the reader finds it
/// without skipping a block.
pub open spec fn within_reach(n: int, b: int, x: int, y: int) -> bool {
    y >= 0 && block_index(n, b, y) <= block_index(n, b, x) + 1
}

/// The bytes after the last whole block are not empty and end with a delimiter.
pub open spec fn tail_ok(s: Seq<u8>, b: int) -> bool {
    s.len() > whole_end(s.len() as int, b) && is_delim(s[s.len() - 1])
}

/// The reader: the block under `cursor` with the delimiters not yet taken as two mask
/// words (bytes `cursor..cursor + 64` and `cursor + 64..cursor + 128`), whether the
/// bytes after the last whole block were read, where the next line starts, and whether
/// reading broke down.
pub struct FileReader {
    pub length: usize,
    pub block: usize,
    pub cursor: usize,
    pub lo: u64,
    pub hi: u64,
    pub eof: bool,
    pub line_begin: usize,
    pub failed: bool,
    pub pos: Ghost<int>,
    pub last: Ghost<int>,
}

impl FileReader {
    /// Where the bytes the mask covers end.
    pub open spec fn end(&self) -> int {
        if self.eof {
            self.length as int
        } else {
            self.cursor + self.block
        }
    }

    /// The reader is consistent with buffer `s`: the mask words hold exactly the
    /// delimiters of the bytes they cover from `pos` on.
    pub open spec fn inv(&self, s: Seq<u8>) -> bool {
        let c = self.cursor as int;
        let b = self.block as int;
        let p = self.pos@;
        let end = self.end();
        &&& self.length == s.len()
        &&& (b == 64 || b == 128)
        &&& c % b == 0
        &&& !self.eof ==> c + b <= s.len()
        &&& self.eof ==> c <= s.len() < c + b
        &&& c <= p <= end
        &&& self.line_begin <= p
        &&& forall|j: int|
            0 <= j < 64 ==> (#[trigger] bit(self.lo, j) <==> (c + j < end && is_delim(s[c + j]) && c + j >= p))
        &&& forall|j: int|
            0 <= j < 64 ==> (#[trigger] bit(self.hi, j) <==> (c + 64 + j < end && is_delim(s[c + 64 + j]) && c + 64 + j
                >= p))
    }

    /// A reader at the first byte of `buf`, with blocks of `block` bytes; the buffer
    /// holds at least one block.
    pub fn new(buf: &[u8], block: usize) -> (r: FileReader)
        requires
            block == 64 || block == 128,
            buf@.len() >= block,
        ensures
            r.inv(buf@),
            r.pos@ == 0,
            r.line_begin == 0,
            !r.eof,
            !r.failed,
            r.block == block,
            r.last@ == -1,
            r.cursor == 0,
    {
        let lo = load_delims_64(buf, 0);
        let hi = if block == 128 { load_delims_64(buf, 64) } else { 0 };
        proof {
            lemma_zero_bits(0u64);
        }
        FileReader {
            length: buf.len(),
            block,
            cursor: 0,
            lo,
            hi,
            eof: false,
            line_begin: 0,
            failed: false,
            pos: Ghost(0),
            last: Ghost(-1),
        }
    }

    /// Loads the next block when the mask ran out: a whole block when one is left,
    /// else the bytes after the last whole block.
    pub fn read_block_at_cursor(&mut self, buf: &[u8])
        requires
            old(self).inv(buf@),
            !old(self).eof,
        ensures
            final(self).inv(buf@),
            final(self).pos@ >= old(self).pos@,
            forall|x: int| old(self).pos@ <= x < final(self).pos@ ==> !is_delim(buf@[x]),
            final(self).line_begin == old(self).line_begin,
            final(self).block == old(self).block,
            final(self).last == old(self).last,
            old(self).lo != 0 || old(self).hi != 0 ==> *final(self) == *old(self),
            old(self).lo == 0 && old(self).hi == 0 ==> {
                &&& final(self).cursor == old(self).cursor + old(self).block
                &&& final(self).pos@ == final(self).cursor
                &&& !final(self).eof ==> final(self).failed == old(self).failed
                &&& final(self).eof ==> final(self).failed == (old(self).failed || (buf@.len() > final(self).cursor
                    && !is_delim(buf@[buf@.len() - 1])))
            },
    {
        if self.lo == 0 && self.hi == 0 {
            let ghost c0 = self.cursor as int;
            let ghost p0 = self.pos@;
            proof {
                lemma_zero_bits(self.lo);
                lemma_zero_bits(self.hi);
                assert forall|x: int| p0 <= x < c0 + self.block implies !is_delim(buf@[x]) by {
                    if x < c0 + 64 {
                        assert(!bit(self.lo, x - c0));
                    } else {
                        assert(!bit(self.hi, x - c0 - 64));
                    }
                }
            }
            let next = self.cursor + self.block;
            self.cursor = next;
            proof {
                self.pos = Ghost(next as int);
                if self.block == 64 {
                    assert(next % 64 == 0);
                } else {
                    assert(next % 128 == 0);
                }
            }
            if self.length - next >= self.block {
                self.lo = load_delims_64(buf, next);
                self.hi = if self.block == 128 { load_delims_64(buf, next + 64) } else { 0 };
                proof {
                    lemma_zero_bits(0u64);
                }
            } else {
                self.read_last_block(buf);
            }
        }
    }

    /// Reads the bytes after the last whole block: their delimiters become the mask.
    /// Marks the reader failed when bytes without a delimiter end the buffer.
    pub fn read_last_block(&mut self, buf: &[u8])
        requires
            old(self).length == buf@.len(),
            old(self).block == 64 || old(self).block == 128,
            old(self).cursor % old(self).block == 0,
            old(self).cursor <= buf@.len() < old(self).cursor + old(self).block,
            old(self).pos@ == old(self).cursor,
            old(self).line_begin <= old(self).pos@,
        ensures
            final(self).inv(buf@),
            final(self).eof,
            final(self).cursor == old(self).cursor,
            final(self).pos == old(self).pos,
            final(self).line_begin == old(self).line_begin,
            final(self).block == old(self).block,
            final(self).last == old(self).last,
            final(self).failed == (old(self).failed || (buf@.len() > old(self).cursor && !is_delim(
                buf@[buf@.len() - 1],
            ))),
    {
        let c = self.cursor;
        let n = buf.len();
        let count = n - c;
        self.lo = 0;
        self.hi = 0;
        proof {
            lemma_zero_bits(0u64);
        }
        let mut base: usize = 0;
        let mut broke = false;
        while base < count
            invariant
                c + count == n,
                n == buf@.len(),
                count < self.block,
                self.block == old(self).block,
                self.block == 64 || self.block == 128,
                base <= count,
                forall|j: int| 0 <= j < 64 ==> (#[trigger] bit(self.lo, j) <==> (j < base && is_delim(buf@[c + j]))),
                forall|j: int|
                    0 <= j < 64 ==> (#[trigger] bit(self.hi, j) <==> (64 + j < base && is_delim(buf@[c + 64 + j]))),
                !broke && base > 0 ==> is_delim(buf@[c + base - 1]),
                broke ==> base == count && count > 0 && !is_delim(buf@[n - 1]),
                self.cursor == c,
                self.pos == old(self).pos,
                self.last == old(self).last,
                self.line_begin == old(self).line_begin,
                self.length == old(self).length,
                self.failed == old(self).failed,
                self.eof == old(self).eof,
            decreases count - base,
        {
            let rest = vstd::slice::slice_subrange(buf, c + base, n);
            match memchr2(SEMICOLON, NEWLINE, rest) {
                Some(index) => {
                    let k = base + index;
                    proof {
                        assert(rest@[index as int] == buf@[c + k]);
                        assert forall|j: int| base <= j < k implies !is_delim(#[trigger] buf@[c + j]) by {
                            assert(rest@[j - base] == buf@[c + j]);
                        }
                    }
                    if k < 64 {
                        let ghost before = self.lo;
                        self.lo = self.lo | (1u64 << (k as u64));
                        proof {
                            assert forall|j: int| 0 <= j < 64 implies (#[trigger] bit(self.lo, j) <==> (j < k + 1
                                && is_delim(buf@[c + j]))) by {
                                lemma_set_bit(before, k as u64, j);
                                if base <= j && j < k {
                                    assert(!is_delim(buf@[c + j]));
                                }
                            }
                            assert forall|j: int| 0 <= j < 64 implies (#[trigger] bit(self.hi, j) <==> (64 + j < k + 1
                                && is_delim(buf@[c + 64 + j]))) by {}
                        }
                    } else {
                        let ghost before = self.hi;
                        self.hi = self.hi | (1u64 << ((k - 64) as u64));
                        proof {
                            assert forall|j: int| 0 <= j < 64 implies (#[trigger] bit(self.hi, j) <==> (64 + j < k + 1
                                && is_delim(buf@[c + 64 + j]))) by {
                                lemma_set_bit(before, (k - 64) as u64, j);
                                assert(c + (64 + j) == c + 64 + j);
                                if base <= 64 + j && 64 + j < k {
                                    assert(!is_delim(buf@[c + (64 + j)]));
                                }
                            }
                            assert forall|j: int| 0 <= j < 64 implies (#[trigger] bit(self.lo, j) <==> (j < k + 1
                                && is_delim(buf@[c + j]))) by {}
                        }
                    }
                    base = k + 1;
                },
                None => {
                    proof {
                        assert(!is_delim(buf@[n - 1])) by {
                            assert(rest@[rest@.len() - 1] == buf@[n - 1]);
                        }
                        assert forall|j: int| base <= j < count implies !is_delim(#[trigger] buf@[c + j]) by {
                            assert(rest@[j - base] == buf@[c + j]);
                        }
                        assert forall|j: int| 0 <= j < 64 implies (#[trigger] bit(self.hi, j) <==> (64 + j < count
                            && is_delim(buf@[c + 64 + j]))) by {
                            assert(c + (64 + j) == c + 64 + j);
                            if base <= 64 + j && 64 + j < count {
                                assert(!is_delim(buf@[c + (64 + j)]));
                            }
                        }
                        assert forall|j: int| 0 <= j < 64 implies (#[trigger] bit(self.lo, j) <==> (j < count
                            && is_delim(buf@[c + j]))) by {
                            if base <= j && j < count {
                                assert(!is_delim(buf@[c + j]));
                            }
                        }
                    }
                    broke = true;
                    base = count;
                },
            }
        }
        self.eof = true;
        if broke {
            self.failed = true;
        }
    }

    /// Takes the lowest delimiter of the mask; marks the reader failed when the mask is
    /// empty.
    pub fn take(&mut self, buf: &[u8]) -> (r: usize)
        requires
            old(self).inv(buf@),
        ensures
            final(self).line_begin == old(self).line_begin,
            final(self).block == old(self).block,
            final(self).eof == old(self).eof,
            final(self).last == old(self).last,
            final(self).cursor == old(self).cursor,
            old(self).lo == 0 && old(self).hi == 0 ==> final(self).failed,
            !(old(self).lo == 0 && old(self).hi == 0) ==> {
                &&& final(self).inv(buf@)
                &&& final(self).failed == old(self).failed
                &&& r == next_delim(buf@, old(self).pos@)
                &&& final(self).pos@ == r + 1
                &&& old(self).cursor <= r < old(self).end()
                &&& final(self).cursor == old(self).cursor
            },
    {
        let c = self.cursor;
        let ghost p0 = self.pos@;
        let ghost old_lo = self.lo;
        let ghost old_hi = self.hi;
        let ghost end = self.end();
        if self.lo != 0 {
            let t = get_and_clear(&mut self.lo);
            let r = c + t;
            proof {
                assert(bit(old_lo, t as int));
                assert forall|x: int| p0 <= x < r implies !is_delim(#[trigger] buf@[x]) by {
                    assert(!bit(old_lo, x - c));
                }
                lemma_next_delim_is(buf@, p0, r as int);
                self.pos = Ghost(r + 1);
                assert forall|j: int| 0 <= j < 64 implies (#[trigger] bit(self.hi, j) <==> (c + 64 + j < end
                    && is_delim(buf@[c + 64 + j]) && c + 64 + j >= r + 1)) by {
                    assert(bit(old_hi, j) == bit(self.hi, j));
                }
            }
            r
        } else if self.hi != 0 {
            let t = get_and_clear(&mut self.hi);
            let r = c + 64 + t;
            proof {
                lemma_zero_bits(old_lo);
                assert(bit(old_hi, t as int));
                assert forall|x: int| p0 <= x < r implies !is_delim(#[trigger] buf@[x]) by {
                    if x < c + 64 {
                        assert(!bit(old_lo, x - c));
                    } else {
                        assert(!bit(old_hi, x - c - 64));
                    }
                }
                lemma_next_delim_is(buf@, p0, r as int);
                self.pos = Ghost(r + 1);
                lemma_zero_bits(old_lo);
                assert forall|j: int| 0 <= j < 64 implies (#[trigger] bit(self.lo, j) <==> (c + j < end
                    && is_delim(buf@[c + j]) && c + j >= r + 1)) by {}
            }
            r
        } else {
            self.failed = true;
            c
        }
    }

    /// Reads the next line: the two next delimiters end its name and its value.
    /// `None` once the bytes after the last whole block were read and every delimiter
    /// taken (then no delimiter is left from the start of the next line on), or when
    /// reading breaks down (then `failed` is set): it breaks down only when the bytes
    /// after the last whole block are empty or do not end with a delimiter, or when the
    /// next delimiter is there but the one after it is missing, or one of them lies
    /// beyond the block after the one of the delimiter before it.
    pub fn next(&mut self, buf: &[u8]) -> (r: Option<(usize, usize, usize)>)
        requires
            old(self).inv(buf@),
            !old(self).failed,
            old(self).pos@ == old(self).line_begin,
            old(self).line_begin == old(self).last@ + 1,
            old(self).cursor == old(self).block * block_index(buf@.len() as int, old(self).block as int, old(self).last@),
            old(self).eof ==> tail_ok(buf@, old(self).block as int),
        ensures
            !final(self).failed ==> final(self).inv(buf@) && final(self).pos@ == final(self).line_begin,
            final(self).block == old(self).block,
            old(self).eof && old(self).lo == 0 && old(self).hi == 0 ==> r is None && *final(self) == *old(self),
            r is None && !final(self).failed ==> old(self).eof && *final(self) == *old(self) && next_delim(
                buf@,
                old(self).line_begin as int,
            ) == -1,
            r matches Some((a, p1, p2)) ==> {
                &&& !final(self).failed
                &&& a == old(self).line_begin
                &&& p1 == next_delim(buf@, a as int)
                &&& p2 == next_delim(buf@, p1 + 1)
                &&& final(self).line_begin == p2 + 1
                &&& final(self).eof <==> p2 >= whole_end(buf@.len() as int, old(self).block as int)
                &&& final(self).last@ == p2
                &&& final(self).cursor == old(self).block * block_index(buf@.len() as int, old(self).block as int, p2 as int)
                &&& within_reach(buf@.len() as int, old(self).block as int, old(self).last@, p1 as int)
                &&& within_reach(buf@.len() as int, old(self).block as int, p1 as int, p2 as int)
                &&& final(self).eof ==> tail_ok(buf@, old(self).block as int)
            },
            final(self).failed ==> {
                let n = buf@.len() as int;
                let b = old(self).block as int;
                let d1 = next_delim(buf@, old(self).line_begin as int);
                let d2 = next_delim(buf@, d1 + 1);
                !tail_ok(buf@, b) || (d1 >= 0 && (!within_reach(n, b, old(self).last@, d1) || !within_reach(n, b, d1, d2)))
            },
    {
        if self.eof && self.lo == 0 && self.hi == 0 {
            proof {
                lemma_zero_bits(self.lo);
                lemma_zero_bits(self.hi);
                let c = self.cursor as int;
                assert forall|x: int| self.pos@ <= x < buf@.len() implies !is_delim(#[trigger] buf@[x]) by {
                    if x >= c + 64 {
                        assert(!bit(self.hi, x - c - 64));
                    } else {
                        assert(!bit(self.lo, x - c));
                    }
                }
                crate::delims::lemma_next_delim_none(buf@, self.pos@);
            }
            return None;
        }
        let ghost n = buf@.len() as int;
        let ghost b = self.block as int;
        let ghost last0 = self.last@;
        let a = self.line_begin;
        proof {
            lemma_next_delim(buf@, a as int);
        }
        let ghost d1 = next_delim(buf@, a as int);
        let ghost c0 = self.cursor as int;
        let ghost empty0 = self.lo == 0 && self.hi == 0;
        let ghost eof0 = self.eof;
        if !self.eof {
            self.read_block_at_cursor(buf);
            if self.failed {
                return None;
            }
        }
        proof {
            lemma_next_delim_skip(buf@, a as int, self.pos@);
        }
        let ghost c1 = self.cursor as int;
        let ghost eof1 = self.eof;
        let ghost empty1 = self.lo == 0 && self.hi == 0;
        let ghost st1 = *self;
        let first = self.take(buf);
        if self.failed {
            proof {
                assert(empty1);
                assert(!eof0);
                assert(empty0);
                st1.lemma_missing(buf@, a as int, last0, c0, c1, eof1);
                lemma_tail_ok_delim(buf@, b, a as int, c0);
            }
            return None;
        }
        proof {
            lemma_block_at(n, b, c1, first as int, eof1);
        }
        let ghost p1 = self.pos@;
        let ghost c2 = self.cursor as int;
        let ghost empty2 = self.lo == 0 && self.hi == 0;
        let ghost eof2 = self.eof;
        let ghost mid = *self;
        proof {
            lemma_next_delim(buf@, p1);
        }
        if !self.eof {
            self.read_block_at_cursor(buf);
            if self.failed {
                return None;
            }
        }
        proof {
            lemma_next_delim_skip(buf@, p1, self.pos@);
        }
        let ghost c3 = self.cursor as int;
        let ghost eof3 = self.eof;
        let ghost st2 = *self;
        let second = self.take(buf);
        if self.failed {
            proof {
                if eof2 {
                    assert(st2 == mid);
                    lemma_zero_bits(st2.lo);
                    lemma_zero_bits(st2.hi);
                    assert forall|x: int| p1 <= x < n implies !is_delim(#[trigger] buf@[x]) by {
                        if x >= c2 + 64 {
                            assert(!bit(st2.hi, x - c2 - 64));
                        } else {
                            assert(!bit(st2.lo, x - c2));
                        }
                    }
                    crate::delims::lemma_next_delim_none(buf@, p1);
                } else {
                    assert(empty2);
                    st2.lemma_missing(buf@, p1, first as int, c2, c3, eof3);
                }
            }
            return None;
        }
        proof {
            let w = whole_end(buf@.len() as int, self.block as int);
            let c = self.cursor as int;
            if self.block == 64 {
                if !self.eof {
                    assert(c + 64 <= n / 64 * 64) by (nonlinear_arith)
                        requires
                            c % 64 == 0,
                            c + 64 <= n,
                            c >= 0,
                    ;
                }
                if self.eof {
                    assert(c == n / 64 * 64) by (nonlinear_arith)
                        requires
                            c % 64 == 0,
                            c <= n < c + 64,
                            c >= 0,
                    ;
                }
            } else {
                if !self.eof {
                    assert(c + 128 <= n / 128 * 128) by (nonlinear_arith)
                        requires
                            c % 128 == 0,
                            c + 128 <= n,
                            c >= 0,
                    ;
                }
                if self.eof {
                    assert(c == n / 128 * 128) by (nonlinear_arith)
                        requires
                            c % 128 == 0,
                            c <= n < c + 128,
                            c >= 0,
                    ;
                }
            }
            lemma_block_at(n, b, c3, second as int, self.eof);
            if self.eof {
                lemma_tail_start(n, b, c3);
            }
            self.last = Ghost(second as int);
        }
        self.line_begin = second + 1;
        Some((a, first, second))
    }

    /// A take that found the mask empty after moving on from the block of the
    /// delimiter at `prev`, from `c0` to `c1`: the next delimiter from `p` on is missing
    /// or lies beyond reach, or the bytes after the last whole block are empty.
    proof fn lemma_missing(&self, s: Seq<u8>, p: int, prev: int, c0: int, c1: int, eof1: bool)
        requires
            self.inv(s),
            self.lo == 0,
            self.hi == 0,
            self.cursor == c1,
            self.eof == eof1,
            c1 == c0 + self.block,
            c0 == self.block * block_index(s.len() as int, self.block as int, prev),
            0 <= p <= self.pos@,
            forall|x: int| p <= x < self.pos@ ==> !is_delim(s[x]),
            self.pos@ == c1,
            !self.failed || !eof1,
            eof1 ==> !(s.len() > c1 && !is_delim(s[s.len() - 1])),
        ensures
            !within_reach(s.len() as int, self.block as int, prev, next_delim(s, p)) || !tail_ok(s, self.block as int),
    {
        let n = s.len() as int;
        let b = self.block as int;
        lemma_zero_bits(self.lo);
        lemma_zero_bits(self.hi);
        let end = self.end();
        assert forall|x: int| p <= x < end implies !is_delim(#[trigger] s[x]) by {
            if x >= c1 {
                if x >= c1 + 64 {
                    assert(!bit(self.hi, x - c1 - 64));
                } else {
                    assert(!bit(self.lo, x - c1));
                }
            }
        }
        lemma_next_delim(s, p);
        let d = next_delim(s, p);
        if d >= 0 {
            assert(d >= end);
            if eof1 {
                assert(false);
            } else {
                lemma_block_beyond(n, b, c0, d);
            }
        } else if eof1 {
            lemma_tail_start(n, b, c1);
            if n > c1 {
                assert(!is_delim(s[n - 1]));
            }
        }
    }
}

/// The end of the record before record `i`, or -1 for the first.
pub open spec fn end_before(recs: Seq<(int, int, int)>, i: int) -> int {
    if i == 0 {
        -1
    } else {
        recs[i - 1].2
    }
}

/// A reader over `s` with blocks of `b` bytes reads all its lines without breaking
/// down: the bytes after the last whole block are not empty and end with a delimiter,
/// the records read between delimiters run to the last byte, and each of their
/// delimiters lies in the block of the delimiter before it or in the next block.
#[verifier::opaque]
pub open spec fn reader_ok(s: Seq<u8>, b: int) -> bool {
    let recs = delim_records(s);
    &&& tail_ok(s, b)
    &&& recs.len() > 0
    &&& recs.last().2 == s.len() - 1
    &&& reads_within(s, b, recs)
}

/// What a reader that reads through holds.
pub proof fn lemma_reader_ok_facts(s: Seq<u8>, b: int)
    requires
        reader_ok(s, b),
    ensures
        tail_ok(s, b),
        delim_records(s).len() > 0,
        delim_records(s).last().2 == s.len() - 1,
        reads_within(s, b, delim_records(s)),
{
    reveal(reader_ok);
}

/// Where the bytes after the last whole block end with a delimiter, a delimiter follows
/// every position inside a whole block.
proof fn lemma_tail_ok_delim(s: Seq<u8>, b: int, a: int, c0: int)
    requires
        b == 64 || b == 128,
        0 <= c0,
        c0 % b == 0,
        c0 + b <= s.len(),
        0 <= a <= c0 + b,
    ensures
        tail_ok(s, b) ==> next_delim(s, a) >= 0,
{
    if tail_ok(s, b) {
        let n = s.len() as int;
        if a == n {
            if b == 64 {
                assert(n / 64 * 64 == n) by (nonlinear_arith)
                    requires
                        c0 % 64 == 0,
                        n == c0 + 64,
                        c0 >= 0,
                ;
            } else {
                assert(n / 128 * 128 == n) by (nonlinear_arith)
                    requires
                        c0 % 128 == 0,
                        n == c0 + 128,
                        c0 >= 0,
                ;
            }
        }
        assert(a < n);
        lemma_delim_found(s, a, n - 1);
    }
}

/// A delimiter at `x` from `a` on is found.
proof fn lemma_delim_found(s: Seq<u8>, a: int, x: int)
    requires
        0 <= a <= x < s.len(),
        is_delim(s[x]),
    ensures
        next_delim(s, a) >= 0,
    decreases x - a,
{
    if a < x && !is_delim(s[a]) {
        lemma_delim_found(s, a + 1, x);
    }
}

/// A position in the whole block at `c`, or in the bytes after the last whole block
/// when `c` is where they start, lies in block `c / b`.
proof fn lemma_block_at(n: int, b: int, c: int, x: int, tail: bool)
    requires
        b == 64 || b == 128,
        0 <= c,
        c % b == 0,
        c <= x,
        !tail ==> c + b <= n && x < c + b,
        tail ==> c <= n < c + b && x < n,
    ensures
        c == b * block_index(n, b, x),
{
    if b == 64 {
        if tail {
            assert(c == n / 64 * 64) by (nonlinear_arith)
                requires
                    c % 64 == 0,
                    c <= n < c + 64,
                    c >= 0,
            ;
        } else {
            assert(c + 64 <= n / 64 * 64) by (nonlinear_arith)
                requires
                    c % 64 == 0,
                    c + 64 <= n,
                    c >= 0,
            ;
            assert(x / 64 * 64 == c) by (nonlinear_arith)
                requires
                    c % 64 == 0,
                    c <= x < c + 64,
                    c >= 0,
            ;
        }
    } else {
        if tail {
            assert(c == n / 128 * 128) by (nonlinear_arith)
                requires
                    c % 128 == 0,
                    c <= n < c + 128,
                    c >= 0,
            ;
        } else {
            assert(c + 128 <= n / 128 * 128) by (nonlinear_arith)
                requires
                    c % 128 == 0,
                    c + 128 <= n,
                    c >= 0,
            ;
            assert(x / 128 * 128 == c) by (nonlinear_arith)
                requires
                    c % 128 == 0,
                    c <= x < c + 128,
                    c >= 0,
            ;
        }
    }
}

/// A position at or past the block after the next one from `c0` lies two blocks or
/// more after `c0`'s block.
proof fn lemma_block_beyond(n: int, b: int, c0: int, y: int)
    requires
        b == 64 || b == 128,
        0 <= c0,
        c0 % b == 0,
        c0 + 2 * b <= n,
        y >= c0 + 2 * b,
    ensures
        block_index(n, b, y) >= c0 / b + 2,
{
    if b == 64 {
        assert(c0 + 128 <= n / 64 * 64 && y / 64 >= c0 / 64 + 2 && (n / 64 * 64) / 64 >= c0 / 64 + 2) by (nonlinear_arith)
            requires
                c0 % 64 == 0,
                c0 + 128 <= n,
                y >= c0 + 128,
                c0 >= 0,
        ;
    } else {
        assert(c0 + 256 <= n / 128 * 128 && y / 128 >= c0 / 128 + 2 && (n / 128 * 128) / 128 >= c0 / 128 + 2) by (nonlinear_arith)
            requires
                c0 % 128 == 0,
                c0 + 256 <= n,
                y >= c0 + 256,
                c0 >= 0,
        ;
    }
}

/// Where the bytes after the last whole block start.
proof fn lemma_tail_start(n: int, b: int, c: int)
    requires
        b == 64 || b == 128,
        0 <= c,
        c % b == 0,
        c <= n < c + b,
    ensures
        c == whole_end(n, b),
{
    if b == 64 {
        assert(c == n / 64 * 64) by (nonlinear_arith)
            requires
                c % 64 == 0,
                c <= n < c + 64,
                c >= 0,
        ;
    } else {
        assert(c == n / 128 * 128) by (nonlinear_arith)
            requires
                c % 128 == 0,
                c <= n < c + 128,
                c >= 0,
        ;
    }
}

/// Each line of `all` was read by a reader over `s` with blocks of `b` bytes: each of
/// its delimiters lies in the block of the delimiter before it or in the next block.
pub open spec fn reads_within(s: Seq<u8>, b: int, all: Seq<(int, int, int)>) -> bool {
    forall|i: int|
        0 <= i < all.len() ==> within_reach(s.len() as int, b, end_before(all, i), (#[trigger] all[i]).1)
            && within_reach(s.len() as int, b, all[i].1, all[i].2)
}

impl FileReader {
    /// The reader has read the lines `all` of `s` and stands after the last of them.
    #[verifier::opaque]
    pub open spec fn after(&self, s: Seq<u8>, all: Seq<(int, int, int)>) -> bool {
        let n = s.len() as int;
        let b = self.block as int;
        &&& self.last@ == end_before(all, all.len() as int)
        &&& self.line_begin == self.last@ + 1
        &&& self.cursor == self.block * block_index(n, b, self.last@)
        &&& self.eof ==> tail_ok(s, b)
        &&& reads_within(s, b, all)
    }
}

/// A line read by the reader extends what it has read.
pub proof fn lemma_read_one(s: Seq<u8>, b: int, all: Seq<(int, int, int)>, r: (int, int, int))
    requires
        reads_within(s, b, all),
        within_reach(s.len() as int, b, end_before(all, all.len() as int), r.1),
        within_reach(s.len() as int, b, r.1, r.2),
    ensures
        reads_within(s, b, all.push(r)),
        end_before(all.push(r), all.len() + 1int) == r.2,
{
    let all2 = all.push(r);
    assert forall|i: int| 0 <= i < all2.len() implies within_reach(s.len() as int, b, end_before(all2, i), (#[trigger] all2[i]).1)
        && within_reach(s.len() as int, b, all2[i].1, all2[i].2) by {
        if i < all.len() {
            assert(all2[i] == all[i]);
            if i > 0 {
                assert(all2[i - 1] == all[i - 1]);
            }
        } else if i > 0 {
            assert(all2[i - 1] == all[i - 1]);
        }
    }
}

/// A reader that broke down after the lines `all` shows that the buffer is not one it
/// reads through.
pub proof fn lemma_refused(s: Seq<u8>, b: int, all: Seq<(int, int, int)>, lb: int)
    requires
        delim_records(s) == all + delim_records_from(s, lb),
        lb == end_before(all, all.len() as int) + 1,
        0 <= lb <= s.len(),
        ({
            let n = s.len() as int;
            let d1 = next_delim(s, lb);
            let d2 = next_delim(s, d1 + 1);
            !tail_ok(s, b) || (d1 >= 0 && (!within_reach(n, b, end_before(all, all.len() as int), d1)
                || !within_reach(n, b, d1, d2)))
        }),
    ensures
        !reader_ok(s, b),
{
    reveal(reader_ok);
    if reader_ok(s, b) {
        let recs = delim_records(s);
        let j = all.len() as int;
        let n = s.len() as int;
        lemma_next_delim(s, lb);
        let d1 = next_delim(s, lb);
        assert(d1 >= 0);
        assert(lb < n);
        lemma_next_delim(s, d1 + 1);
        let d2 = next_delim(s, d1 + 1);
        let rest = delim_records_from(s, lb);
        if d2 < 0 {
            assert(rest.len() == 0);
            assert(recs =~= all);
            assert(end_before(all, j) == n - 1);
            assert(false);
        } else {
            assert(rest[0] == (lb, d1, d2));
            assert(recs[j] == rest[0]);
            if j > 0 {
                assert(recs[j - 1] == all[j - 1]);
            }
            assert(end_before(recs, j) == end_before(all, j));
            assert(within_reach(n, b, end_before(recs, j), recs[j].1));
        }
    }
}

/// A reader that found no delimiter left after the lines `all`, with the bytes after the
/// last whole block ending with a delimiter, has read every record and reads the buffer
/// through.
pub proof fn lemma_read_end(s: Seq<u8>, b: int, all: Seq<(int, int, int)>, lb: int)
    requires
        delim_records(s) == all + delim_records_from(s, lb),
        lb == end_before(all, all.len() as int) + 1,
        0 <= lb <= s.len(),
        s.len() > 0,
        next_delim(s, lb) == -1,
        tail_ok(s, b),
        reads_within(s, b, all),
    ensures
        delim_records(s) == all,
        reader_ok(s, b),
{
    let n = s.len() as int;
    assert(delim_records_from(s, lb).len() == 0);
    assert(delim_records(s) =~= all);
    if lb < n {
        lemma_delim_found(s, lb, n - 1);
    }
    assert(lb == n);
    if all.len() == 0 {
        assert(end_before(all, 0) == -1);
    }
    assert(all.len() > 0);
    reveal(reader_ok);
}

} // verus!
