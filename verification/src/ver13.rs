//! Delimiter positions collected per 4096-byte block, read two per line: a line's name
//! ends at one delimiter, `;` or `\n` alike, and its value at the next.
use vstd::prelude::*;
use crate::bits::{bit, get_and_clear, lemma_zero_bits};
use crate::delims::{is_delim, load_delims_64};
use crate::format::{
    lemma_records_shape, lemma_value_plain, rec_value, record_shape, records, records_from, valid_buffer,
    valid_record, NEWLINE, SEMICOLON,
};
use crate::scan::Scan;
use crate::search::memchr2;

/// Reads a value text, `-` for the sign and `.` skipped: the same reader as
/// [`crate::ver10::parse_value`], which this variant keeps unused beside its line count.
pub use crate::ver10::parse_value as _parse_value;

verus! {

/// The bytes of one block.
pub const BLOCK_SIZE: usize = 4096;

/// The room for positions: at most this many delimiters, the one carried over included,
/// per block.
pub const POSITIONS_SIZE: usize = 2048;

/// The positions of the delimiters among `s[a..e]`, in order.
pub open spec fn delims_in(s: Seq<u8>, a: int, e: int) -> Seq<int>
    decreases e - a,
{
    if a < e {
        let d = delims_in(s, a, e - 1);
        if is_delim(s[e - 1]) {
            d.push(e - 1)
        } else {
            d
        }
    } else {
        seq![]
    }
}

/// The delimiters of `s[a..c]` are those of `s[a..b]` followed by those of `s[b..c]`.
pub proof fn lemma_delims_split(s: Seq<u8>, a: int, b: int, c: int)
    requires
        a <= b <= c,
    ensures
        delims_in(s, a, c) == delims_in(s, a, b) + delims_in(s, b, c),
    decreases c - b,
{
    if b < c {
        lemma_delims_split(s, a, b, c - 1);
    } else {
        assert(delims_in(s, a, b) + delims_in(s, b, c) =~= delims_in(s, a, b));
    }
}

/// The delimiters of `s[a..e]` lie in `a..e`, in increasing order, and are delimiters.
pub proof fn lemma_delims_props(s: Seq<u8>, a: int, e: int)
    ensures
        forall|i: int| 0 <= i < delims_in(s, a, e).len() ==> a <= #[trigger] delims_in(s, a, e)[i] < e && is_delim(s[delims_in(s, a, e)[i]]),
        forall|i: int, j: int| 0 <= i < j < delims_in(s, a, e).len() ==> #[trigger] delims_in(s, a, e)[i] < #[trigger] delims_in(s, a, e)[j],
        delims_in(s, a, e).len() <= if a < e { e - a } else { 0 },
    decreases e - a,
{
    if a < e {
        lemma_delims_props(s, a, e - 1);
    }
}

/// The block of `s` at `k` ends at byte `(k + 1) * 4096` or at the end of `s`.
pub open spec fn block_end(s: Seq<u8>, k: int) -> int {
    if (k + 1) * 4096 < s.len() {
        (k + 1) * 4096
    } else {
        s.len() as int
    }
}

/// The number of blocks of `s`.
pub open spec fn block_total(s: Seq<u8>) -> int {
    (s.len() + 4095) as int / 4096
}

/// Whether a delimiter is left over from the blocks before block `k`.
pub open spec fn carry_in(s: Seq<u8>, k: int) -> int {
    delims_in(s, 0, k * 4096).len() as int % 2
}

/// The number of delimiters of block `k`.
pub open spec fn block_count(s: Seq<u8>, k: int) -> int {
    delims_in(s, k * 4096, block_end(s, k)).len() as int
}

/// Block `k` loads: its positions, with the one carried in, fit the room for them, and
/// the block at the end of the buffer, when it is not whole, ends with a delimiter.
pub open spec fn block_loads(s: Seq<u8>, k: int) -> bool {
    &&& carry_in(s, k) + block_count(s, k) <= 2048
    &&& (k * 4096 < s.len() < (k + 1) * 4096) ==> is_delim(s[s.len() - 1])
}

/// No delimiter among `s[a..e]`.
pub proof fn lemma_delims_none(s: Seq<u8>, a: int, e: int)
    requires
        forall|j: int| a <= j < e ==> !is_delim(s[j]),
    ensures
        delims_in(s, a, e) == Seq::<int>::empty(),
    decreases e - a,
{
    if a < e {
        lemma_delims_none(s, a, e - 1);
    }
}

/// Block `k` reads: its positions, with the one carried in, fit the room for them; a
/// block entered after the first has at least two, so a line can be read from it at
/// once; and the block at the end of the buffer, when it is not whole, ends with a
/// delimiter.
pub open spec fn block_reads(s: Seq<u8>, k: int) -> bool {
    &&& carry_in(s, k) + block_count(s, k) <= 2048
    &&& k >= 1 ==> carry_in(s, k) + block_count(s, k) >= 2
    &&& (k * 4096 < s.len() < (k + 1) * 4096) ==> is_delim(s[s.len() - 1])
}

/// Every block of `s` reads.
pub open spec fn reads_all(s: Seq<u8>) -> bool {
    forall|k: int| 0 <= k < block_total(s) ==> #[trigger] block_reads(s, k)
}

/// All delimiters of the buffer.
pub open spec fn all_delims(s: Seq<u8>) -> Seq<int> {
    delims_in(s, 0, s.len() as int)
}

/// A reader handing out lines from the delimiter positions of one block at a time.
pub struct FileReader<'a> {
    pub buffer: &'a [u8],
    pub length: usize,
    pub block_offset: usize,
    pub positions: [i16; 2048],
    pub position_count: u16,
    pub position_index: u16,
    pub line_begin: usize,
    pub taken: Ghost<int>,
}

impl<'a> FileReader<'a> {
    /// The bytes the reader reads.
    pub closed spec fn bytes(&self) -> Seq<u8> {
        self.buffer@
    }

    /// The positions held, `positions[0..position_count]`, are the delimiters `d[base..]`,
    /// each as an offset from the block.
    pub closed spec fn holds(&self, d: Seq<int>, base: int) -> bool {
        &&& 0 <= base <= d.len()
        &&& self.position_count as int == d.len() - base
        &&& self.position_count <= 2048
        &&& forall|i: int| 0 <= i < self.position_count ==> self.positions@[i] + self.block_offset == d[base + i]
    }

    /// The reader is consistent with the blocks before `block_offset` and the one under
    /// it loaded: the positions held are the delimiters up to its end not yet handed out,
    /// as offsets from the block, `taken` of them were handed out two per line, and the
    /// next line begins after the last one handed out.
    pub closed spec fn loaded(&self) -> bool {
        let s = self.bytes();
        let k = self.block_offset as int / 4096;
        let d = delims_in(s, 0, block_end(s, k));
        &&& self.length == s.len()
        &&& self.block_offset % 4096 == 0
        &&& (self.block_offset < s.len() || self.block_offset == 0)
        &&& self.taken@ % 2 == 0
        &&& self.position_index <= self.position_count
        &&& self.taken@ >= self.position_index
        &&& self.holds(d, self.taken@ - self.position_index)
        &&& self.line_begin == (if self.taken@ == 0 { 0 } else { d[self.taken@ - 1] + 1 })
        &&& forall|i: int| 0 <= i < self.position_count ==> -4096 <= #[trigger] self.positions@[i] < 4096
        &&& forall|j: int| 0 <= j < k ==> #[trigger] block_reads(s, j)
        &&& block_loads(s, k)
    }

    /// The reader is consistent, and every block so far reads.
    pub closed spec fn inv(&self) -> bool {
        &&& self.loaded()
        &&& block_reads(self.bytes(), self.block_offset as int / 4096)
    }

    /// The number of lines handed out so far.
    pub closed spec fn lines_read(&self) -> int {
        self.taken@ / 2
    }

    /// Adds a position, an offset from the block.
    fn add_position(&mut self, offset: i16)
        requires
            old(self).position_count < 2048,
        ensures
            final(self).positions@ == old(self).positions@.update(old(self).position_count as int, offset),
            final(self).position_count == old(self).position_count + 1,
            final(self).buffer == old(self).buffer,
            final(self).length == old(self).length,
            final(self).block_offset == old(self).block_offset,
            final(self).position_index == old(self).position_index,
            final(self).line_begin == old(self).line_begin,
            final(self).taken == old(self).taken,
    {
        self.positions[self.position_count as usize] = offset;
        self.position_count = self.position_count + 1;
    }

    /// Adds the delimiters of the block under `block_offset` to the positions held.
    /// False when they do not fit the room for them, or when the block at the end of the
    /// buffer does not end with a delimiter.
    #[verifier::rlimit(40)]
    fn load_block(&mut self, base: Ghost<int>) -> (ok: bool)
        requires
            old(self).length == old(self).bytes().len(),
            old(self).block_offset % 4096 == 0,
            old(self).block_offset < old(self).bytes().len() || old(self).block_offset == 0,
            old(self).holds(delims_in(old(self).bytes(), 0, old(self).block_offset as int), base@),
            base@ % 2 == 0,
            old(self).position_count <= 1,
            forall|i: int| 0 <= i < old(self).position_count ==> -4096 <= #[trigger] old(self).positions@[i] < 4096,
        ensures
            final(self).buffer == old(self).buffer,
            final(self).length == old(self).length,
            final(self).block_offset == old(self).block_offset,
            final(self).position_index == old(self).position_index,
            final(self).line_begin == old(self).line_begin,
            final(self).taken == old(self).taken,
            ok == block_loads(old(self).bytes(), old(self).block_offset as int / 4096),
            ok ==> final(self).holds(
                delims_in(old(self).bytes(), 0, block_end(old(self).bytes(), old(self).block_offset as int / 4096)),
                base@,
            ),
            ok ==> forall|i: int| 0 <= i < final(self).position_count ==> -4096 <= #[trigger] final(self).positions@[i] < 4096,
            ok ==> final(self).position_count == carry_in(old(self).bytes(), old(self).block_offset as int / 4096)
                + block_count(old(self).bytes(), old(self).block_offset as int / 4096),
    {
        let buf = self.buffer;
        let ghost s = buf@;
        let bo = self.block_offset;
        let ghost k = bo as int / 4096;
        let ghost dprev = delims_in(s, 0, bo as int);
        let len = self.length;
        proof {
            lemma_delims_split(s, 0, bo as int, block_end(s, k));
            assert(k * 4096 == bo);
        }
        if len - bo >= 4096 {
            let mut c = bo;
            while c < bo + 4096
                invariant
                    s == buf@,
                    buf == old(self).buffer,
                    len == old(self).length,
                    bo == old(self).block_offset,
                    self.buffer == buf,
                    self.length == len == s.len(),
                    self.block_offset == bo,
                    bo + 4096 <= len,
                    bo <= c <= bo + 4096,
                    (c - bo) % 64 == 0,
                    self.holds(delims_in(s, 0, c as int), base@),
                    self.position_index == old(self).position_index,
                    self.line_begin == old(self).line_begin,
                    self.taken == old(self).taken,
                    forall|i: int| 0 <= i < self.position_count ==> -4096 <= #[trigger] self.positions@[i] < 4096,
                    delims_in(s, 0, block_end(s, k)) == dprev + delims_in(s, bo as int, block_end(s, k)),
                    block_end(s, k) == bo + 4096,
                    dprev == delims_in(s, 0, bo as int),
                    dprev.len() == base@ + old(self).position_count,
                    old(self).position_count <= 1,
                    base@ % 2 == 0,
                    k * 4096 == bo,
                decreases bo + 4096 - c,
            {
                let mut mask = load_delims_64(buf, c);
                let ghost mut x: int = c as int;
                while mask != 0
                    invariant
                        s == buf@,
                        buf == old(self).buffer,
                        len == old(self).length,
                        bo == old(self).block_offset,
                        self.buffer == buf,
                        self.length == len == s.len(),
                        self.block_offset == bo,
                        bo + 4096 <= len,
                        bo <= c < bo + 4096,
                        c + 64 <= bo + 4096,
                        c <= x <= c + 64,
                        forall|j: int| 0 <= j < 64 ==> (bit(mask, j) <==> is_delim(s[c + j]) && c + j >= x),
                        self.holds(delims_in(s, 0, x), base@),
                        self.position_index == old(self).position_index,
                        self.line_begin == old(self).line_begin,
                        self.taken == old(self).taken,
                        forall|i: int| 0 <= i < self.position_count ==> -4096 <= #[trigger] self.positions@[i] < 4096,
                        delims_in(s, 0, block_end(s, k)) == dprev + delims_in(s, bo as int, block_end(s, k)),
                        block_end(s, k) == bo + 4096,
                        dprev == delims_in(s, 0, bo as int),
                        dprev.len() == base@ + old(self).position_count,
                        old(self).position_count <= 1,
                        base@ % 2 == 0,
                        k * 4096 == bo,
                    decreases 64 - (x - c),
                {
                    let ghost old_mask = mask;
                    let t = get_and_clear(&mut mask);
                    let p = c + t;
                    proof {
                        assert forall|j: int| x <= j < p implies !is_delim(s[j]) by {
                            assert(!bit(old_mask, j - c));
                        }
                        lemma_delims_none(s, x, p as int);
                        lemma_delims_split(s, 0, x, p as int);
                        assert(delims_in(s, 0, p as int) =~= delims_in(s, 0, x));
                        assert(delims_in(s, 0, p + 1) == delims_in(s, 0, p as int).push(p as int));
                    }
                    if self.position_count == 2048 {
                        proof {
                            lemma_delims_split(s, 0, p + 1, block_end(s, k));
                            assert(delims_in(s, 0, block_end(s, k)).len() >= delims_in(s, 0, p + 1).len());
                            assert(delims_in(s, 0, k * 4096) == dprev);
                            assert(carry_in(s, k) == old(self).position_count);
                            assert(block_count(s, k) == delims_in(s, 0, block_end(s, k)).len() - dprev.len());
                        }
                        return false;
                    }
                    let ghost before = self.positions@;
                    self.add_position((p - bo) as i16);
                    proof {
                        let d2 = delims_in(s, 0, p + 1);
                        assert forall|i: int| 0 <= i < self.position_count implies self.positions@[i] + self.block_offset
                            == d2[base@ + i] by {
                            if i < self.position_count - 1 {
                                assert(self.positions@[i] == before[i]);
                            }
                        }
                        assert forall|i: int| 0 <= i < self.position_count implies -4096 <= #[trigger] self.positions@[i]
                            < 4096 by {
                            if i < self.position_count - 1 {
                                assert(self.positions@[i] == before[i]);
                            }
                        }
                        x = p + 1;
                        assert forall|j: int| 0 <= j < 64 implies (bit(mask, j) <==> is_delim(s[c + j]) && c + j >= x) by {
                            if bit(mask, j) {
                                assert(bit(old_mask, j) && j > t);
                            }
                        }
                    }
                }
                proof {
                    lemma_zero_bits(mask);
                    assert forall|j: int| x <= j < c + 64 implies !is_delim(s[j]) by {
                        assert(!bit(mask, j - c));
                    }
                    lemma_delims_none(s, x, c + 64);
                    lemma_delims_split(s, 0, x, c + 64);
                    assert(delims_in(s, 0, c + 64) =~= delims_in(s, 0, x));
                }
                c = c + 64;
            }
            proof {
                assert(delims_in(s, 0, k * 4096) == dprev);
                assert(carry_in(s, k) == old(self).position_count);
            }
            true
        } else {
            let mut p = bo;
            while p < len
                invariant
                    s == buf@,
                    buf == old(self).buffer,
                    len == old(self).length,
                    bo == old(self).block_offset,
                    self.buffer == buf,
                    self.length == len == s.len(),
                    self.block_offset == bo,
                    len < bo + 4096,
                    bo <= p <= len,
                    p > bo ==> is_delim(s[p - 1]),
                    self.holds(delims_in(s, 0, p as int), base@),
                    self.position_index == old(self).position_index,
                    self.line_begin == old(self).line_begin,
                    self.taken == old(self).taken,
                    forall|i: int| 0 <= i < self.position_count ==> -4096 <= #[trigger] self.positions@[i] < 4096,
                    delims_in(s, 0, block_end(s, k)) == dprev + delims_in(s, bo as int, block_end(s, k)),
                    block_end(s, k) == len,
                    dprev == delims_in(s, 0, bo as int),
                    dprev.len() == base@ + old(self).position_count,
                    old(self).position_count <= 1,
                    base@ % 2 == 0,
                    k * 4096 == bo,
                decreases len - p,
            {
                let rest = vstd::slice::slice_subrange(buf, p, len);
                match memchr2(SEMICOLON, NEWLINE, rest) {
                    Some(i) => {
                        let q = p + i;
                        proof {
                            assert(rest@[i as int] == s[q as int]);
                            assert forall|j: int| p <= j < q implies !is_delim(s[j]) by {
                                assert(rest@[j - p] == s[j]);
                            }
                            lemma_delims_none(s, p as int, q as int);
                            lemma_delims_split(s, 0, p as int, q as int);
                            assert(delims_in(s, 0, q as int) =~= delims_in(s, 0, p as int));
                            assert(delims_in(s, 0, q + 1) == delims_in(s, 0, q as int).push(q as int));
                        }
                        if self.position_count == 2048 {
                            proof {
                                lemma_delims_split(s, 0, q + 1, block_end(s, k));
                                assert(delims_in(s, 0, block_end(s, k)).len() >= delims_in(s, 0, q + 1).len());
                                assert(delims_in(s, 0, k * 4096) == dprev);
                                assert(carry_in(s, k) == old(self).position_count);
                                assert(block_count(s, k) == delims_in(s, 0, block_end(s, k)).len() - dprev.len());
                            }
                            return false;
                        }
                        let ghost before = self.positions@;
                        self.add_position((q - bo) as i16);
                        proof {
                            let d2 = delims_in(s, 0, q + 1);
                            assert forall|j: int| 0 <= j < self.position_count implies self.positions@[j] + self.block_offset
                                == d2[base@ + j] by {
                                if j < self.position_count - 1 {
                                    assert(self.positions@[j] == before[j]);
                                }
                            }
                            assert forall|j: int| 0 <= j < self.position_count implies -4096 <= #[trigger] self.positions@[j]
                                < 4096 by {
                                if j < self.position_count - 1 {
                                    assert(self.positions@[j] == before[j]);
                                }
                            }
                        }
                        p = q + 1;
                    },
                    None => {
                        proof {
                            assert(rest@[len - 1 - p] == s[len - 1]);
                        }
                        return false;
                    },
                }
            }
            proof {
                assert(delims_in(s, 0, k * 4096) == dprev);
                assert(carry_in(s, k) == old(self).position_count);
            }
            true
        }
    }

    /// A reader over `buffer` with its first block loaded; `None` exactly when that block
    /// does not load (see [`block_loads`]).
    pub fn new(buffer: &'a [u8]) -> (r: Option<FileReader<'a>>)
        ensures
            r is Some <==> block_loads(buffer@, 0),
            r matches Some(rd) ==> rd.inv() && rd.bytes() == buffer@ && rd.lines_read() == 0,
            r is None ==> !reads_all(buffer@),
    {
        let mut reader = FileReader {
            buffer,
            length: buffer.len(),
            block_offset: 0,
            positions: [0i16; 2048],
            position_count: 0,
            position_index: 0,
            line_begin: 0,
            taken: Ghost(0),
        };
        proof {
            assert(delims_in(buffer@, 0, 0) =~= Seq::<int>::empty());
        }
        if !reader.load_block(Ghost(0)) {
            proof {
                assert(block_total(buffer@) >= 1);
                assert(!block_reads(buffer@, 0));
            }
            return None;
        }
        Some(reader)
    }

    /// Moves to the next block, keeping the one position not yet handed out, if any,
    /// as an offset from the new block, and loads it.
    fn advance_block(&mut self) -> (ok: bool)
        requires
            old(self).inv(),
            old(self).position_index + 1 >= old(self).position_count,
            old(self).block_offset + 4096 < old(self).length,
        ensures
            ok ==> final(self).loaded(),
            final(self).bytes() == old(self).bytes(),
            ok ==> final(self).taken == old(self).taken,
            ok ==> final(self).line_begin == old(self).line_begin,
            ok ==> final(self).block_offset == old(self).block_offset + 4096,
            ok ==> final(self).position_index == 0,
            ok ==> final(self).position_count == carry_in(old(self).bytes(), old(self).block_offset / 4096 + 1) + block_count(
                old(self).bytes(),
                old(self).block_offset / 4096 + 1,
            ),
            !ok ==> !reads_all(old(self).bytes()),
    {
        let ghost s = self.bytes();
        let ghost k = self.block_offset as int / 4096;
        let ghost bo = self.block_offset as int;
        let ghost d = delims_in(s, 0, block_end(s, k));
        let ghost taken = self.taken@;
        proof {
            assert(block_end(s, k) == bo + 4096);
            lemma_delims_split(s, 0, bo, bo + 4096);
            lemma_delims_props(s, bo, bo + 4096);
            assert(k * 4096 == bo);
        }
        if self.position_count == self.position_index {
            self.position_count = 0;
            self.position_index = 0;
        } else {
            let last = self.positions[self.position_count as usize - 1];
            proof {
                let own = delims_in(s, bo, bo + 4096);
                assert(d == delims_in(s, 0, bo) + own);
                assert(d.len() == taken + 1);
                if k >= 1 {
                    assert(block_reads(s, k));
                }
                assert(own.len() >= 1);
                assert(d[taken] == own[own.len() - 1]);
                assert(last + bo == d[taken]);
            }
            self.positions[0] = last - 4096;
            self.position_index = 0;
            self.position_count = 1;
        }
        self.block_offset = self.block_offset + 4096;
        proof {
            let nb = bo + 4096;
            assert(nb / 4096 == k + 1);
            assert(delims_in(s, 0, nb) == d);
        }
        let ok = self.load_block(Ghost(taken));
        proof {
            let nk = k + 1;
            assert(self.block_offset as int / 4096 == nk);
            lemma_delims_split(s, 0, bo + 4096, block_end(s, nk));
            let dn = delims_in(s, 0, block_end(s, nk));
            if ok {
                assert forall|j: int| 0 <= j < nk implies #[trigger] block_reads(s, j) by {
                    if j < k {
                        assert(block_reads(s, j));
                    } else {
                        assert(block_reads(s, k));
                    }
                }
                if taken > 0 {
                    assert(dn[taken - 1] == d[taken - 1]);
                }
            } else {
                assert(nk < block_total(s));
                assert(!block_reads(s, nk));
            }
        }
        ok
    }

    /// The position `offset` from `block`.
    fn block_position(block: usize, offset: i16) -> (p: usize)
        requires
            0 <= block + offset <= usize::MAX,
        ensures
            p == block + offset,
    {
        if offset >= 0 {
            block + offset as usize
        } else {
            block - (-(offset as i32)) as usize
        }
    }

    /// The next line: it begins after the last one and its name and value end at the
    /// next two delimiters. When the block's positions run out the next block is loaded
    /// first; `End` when none is left, `Stuck` when a block does not read.
    pub fn next(&mut self) -> (r: Scan)
        requires
            old(self).inv(),
        ensures
            final(self).bytes() == old(self).bytes(),
            match r {
                Scan::Line(a, p1, p2) => {
                    &&& final(self).inv()
                    &&& a == old(self).line_begin
                    &&& p1 == all_delims(old(self).bytes())[old(self).taken@]
                    &&& p2 == all_delims(old(self).bytes())[old(self).taken@ + 1]
                    &&& final(self).taken@ == old(self).taken@ + 2
                    &&& final(self).taken@ <= all_delims(old(self).bytes()).len()
                    &&& final(self).line_begin == p2 + 1
                },
                Scan::End => {
                    &&& all_delims(old(self).bytes()).len() < old(self).taken@ + 2
                    &&& old(self).taken@ <= all_delims(old(self).bytes()).len()
                    &&& reads_all(old(self).bytes())
                },
                Scan::Stuck => !reads_all(old(self).bytes()),
            },
    {
        let ghost s = self.bytes();
        let ghost taken = self.taken@;
        proof {
            let k = self.block_offset as int / 4096;
            lemma_delims_split(s, 0, block_end(s, k), s.len() as int);
        }
        if self.position_index + 1 >= self.position_count {
            if self.length - self.block_offset > 4096 {
                if !self.advance_block() {
                    return Scan::Stuck;
                }
                if self.position_count < 2 {
                    proof {
                        let k = self.block_offset as int / 4096;
                        assert(!block_reads(s, k));
                        assert(k < block_total(s));
                    }
                    return Scan::Stuck;
                }
                proof {
                    let k = self.block_offset as int / 4096;
                    assert(block_reads(s, k));
                    lemma_delims_split(s, 0, block_end(s, k), s.len() as int);
                }
            } else {
                proof {
                    let k = self.block_offset as int / 4096;
                    assert(block_end(s, k) == s.len());
                    assert forall|j: int| 0 <= j < block_total(s) implies #[trigger] block_reads(s, j) by {
                        assert(j <= k);
                    }
                }
                return Scan::End;
            }
        }
        assert(self.inv());
        assert(self.position_index + 1 < self.position_count);
        let ghost k = self.block_offset as int / 4096;
        let ghost d = delims_in(s, 0, block_end(s, k));
        let i = self.position_index as usize;
        proof {
            assert(self.holds(d, self.taken@ - self.position_index));
            lemma_delims_props(s, 0, block_end(s, k));
            assert(self.positions@[i as int] + self.block_offset == d[self.taken@]);
            assert(self.positions@[i + 1] + self.block_offset == d[self.taken@ + 1]);
        }
        let p1 = Self::block_position(self.block_offset, self.positions[i]);
        let p2 = Self::block_position(self.block_offset, self.positions[i + 1]);
        let a = self.line_begin;
        self.position_index = self.position_index + 2;
        proof {
            self.taken = Ghost(self.taken@ + 2);
        }
        self.line_begin = p2 + 1;
        Scan::Line(a, p1, p2)
    }
}

/// The number of lines a [`FileReader`] hands out over `buf`: half its delimiters,
/// `;` and `\n` alike. `None` when a block does not read ([`reads_all`]).
pub fn count_lines(buf: &[u8]) -> (r: Option<usize>)
    ensures
        r is Some <==> reads_all(buf@),
        r matches Some(n) ==> n == all_delims(buf@).len() / 2,
{
    let mut reader = match FileReader::new(buf) {
        Some(rd) => rd,
        None => return None,
    };
    let ghost s = buf@;
    let mut count: usize = 0;
    proof {
        lemma_delims_props(s, 0, s.len() as int);
    }
    loop
        invariant
            reader.inv(),
            reader.bytes() == s,
            s == buf@,
            count == reader.lines_read(),
            reader.lines_read() * 2 <= all_delims(s).len(),
            all_delims(s).len() <= s.len(),
        decreases all_delims(s).len() - reader.lines_read() * 2,
    {
        match reader.next() {
            Scan::Line(_a, _p1, _p2) => {
                count = count + 1;
            },
            Scan::End => {
                return Some(count);
            },
            Scan::Stuck => {
                return None;
            },
        }
    }
}

/// The delimiters of records `recs`: each record's `;` and then its `\n`.
pub open spec fn rec_delims(recs: Seq<(int, int, int)>) -> Seq<int>
    decreases recs.len(),
{
    if recs.len() == 0 {
        seq![]
    } else {
        seq![recs[0].1, recs[0].2] + rec_delims(recs.drop_first())
    }
}

/// The delimiters of `recs` are, in order, the `;` and the `\n` of each record.
proof fn lemma_rec_delims_index(recs: Seq<(int, int, int)>)
    ensures
        rec_delims(recs).len() == 2 * recs.len(),
        forall|i: int|
            0 <= i < recs.len() ==> rec_delims(recs)[2 * i] == recs[i].1 && rec_delims(recs)[2 * i + 1] == recs[i].2,
    decreases recs.len(),
{
    if recs.len() > 0 {
        let rest = recs.drop_first();
        lemma_rec_delims_index(rest);
        assert forall|i: int| 0 <= i < recs.len() implies rec_delims(recs)[2 * i] == recs[i].1 && rec_delims(recs)[2 * i
            + 1] == recs[i].2 by {
            if i > 0 {
                assert(recs[i] == rest[i - 1]);
                assert(rec_delims(recs)[2 * i] == rec_delims(rest)[2 * (i - 1)]);
                assert(rec_delims(recs)[2 * i + 1] == rec_delims(rest)[2 * (i - 1) + 1]);
            }
        }
    }
}

/// In a sequence whose entries two apart differ by at least six, entries `2 * m` apart
/// differ by at least `6 * m`.
proof fn lemma_gap(d: Seq<int>, j: int, m: int)
    requires
        0 <= j,
        0 <= m,
        j + 2 * m < d.len(),
        forall|t: int| 0 <= t && t + 2 < d.len() ==> #[trigger] d[t + 2] - d[t] >= 6,
    ensures
        d[j + 2 * m] - d[j] >= 6 * m,
    decreases m,
{
    if m > 0 {
        lemma_gap(d, j, m - 1);
        assert(d[j + 2 * (m - 1) + 2] - d[j + 2 * (m - 1)] >= 6);
        assert(j + 2 * (m - 1) + 2 == j + 2 * m);
    }
}

/// A delimiter at `p` inside `a..e` is among the delimiters of `s[a..e]`.
proof fn lemma_delim_member(s: Seq<u8>, a: int, e: int, p: int)
    requires
        a <= p < e,
        is_delim(s[p]),
    ensures
        delims_in(s, a, e).contains(p),
    decreases e - a,
{
    if p < e - 1 {
        lemma_delim_member(s, a, e - 1, p);
        let d = delims_in(s, a, e - 1);
        let k = choose|k: int| 0 <= k < d.len() && d[k] == p;
        if is_delim(s[e - 1]) {
            assert(delims_in(s, a, e)[k] == p);
        }
    } else {
        assert(delims_in(s, a, e) == delims_in(s, a, e - 1).push(p));
        assert(delims_in(s, a, e)[delims_in(s, a, e - 1).len() as int] == p);
    }
}

/// From the start `b` of a record on, in a buffer whose records from there on are valid
/// and run to its last byte, every record holds two delimiters and nothing else does.
proof fn lemma_delims_of_records(s: Seq<u8>, b: int)
    requires
        0 <= b <= s.len(),
        forall|i: int| 0 <= i < records_from(s, b).len() ==> valid_record(s, #[trigger] records_from(s, b)[i]),
        if records_from(s, b).len() == 0 {
            b == s.len()
        } else {
            records_from(s, b).last().2 == s.len() - 1
        },
    ensures
        delims_in(s, b, s.len() as int).len() == 2 * records_from(s, b).len(),
        delims_in(s, b, s.len() as int) == rec_delims(records_from(s, b)),
    decreases s.len() - b,
{
    if b < s.len() {
        lemma_records_shape(s, b);
        let rs = records_from(s, b);
        let r = rs[0];
        assert(record_shape(s, r));
        assert(valid_record(s, r));
        lemma_value_plain(rec_value(s, r));
        assert forall|j: int| b <= j < r.1 implies !is_delim(s[j]) by {}
        lemma_delims_none(s, b, r.1);
        assert forall|j: int| r.1 + 1 <= j < r.2 implies !is_delim(s[j]) by {
            assert(rec_value(s, r)[j - r.1 - 1] == s[j]);
        }
        lemma_delims_none(s, r.1 + 1, r.2);
        lemma_delims_split(s, r.1, r.1 + 1, r.2);
        assert(is_delim(s[r.1]));
        assert(delims_in(s, r.1, r.1) =~= Seq::<int>::empty());
        assert(delims_in(s, r.1, r.1 + 1) =~= seq![r.1]);
        assert(delims_in(s, r.1, r.2).len() == 1);
        assert(delims_in(s, r.1, r.2 + 1).len() == 2);
        lemma_delims_split(s, b, r.1, r.2 + 1);
        lemma_delims_split(s, b, r.2 + 1, s.len() as int);
        let rest = records_from(s, r.2 + 1);
        assert(rs == seq![r] + rest);
        assert forall|i: int| 0 <= i < rest.len() implies valid_record(s, #[trigger] rest[i]) by {
            assert(rest[i] == rs[i + 1]);
        }
        if rest.len() > 0 {
            assert(rest.last() == rs.last());
        }
        lemma_delims_of_records(s, r.2 + 1);
        lemma_delims_none(s, b, r.1);
        assert(delims_in(s, r.1, r.2 + 1) =~= seq![r.1, r.2]);
        assert(delims_in(s, b, r.1 + 1) =~= delims_in(s, b, r.1) + delims_in(s, r.1, r.1 + 1));
        assert(delims_in(s, b, r.2 + 1) =~= seq![r.1, r.2]) by {
            lemma_delims_split(s, b, r.1, r.2 + 1);
        }
        assert(rs.drop_first() =~= rest);
        assert(delims_in(s, b, s.len() as int) =~= seq![r.1, r.2] + rec_delims(rest));
    } else {
        assert(delims_in(s, b, s.len() as int) =~= Seq::<int>::empty());
    }
}

/// On a buffer made of valid lines, half its delimiters is its number of records: what
/// [`count_lines`] returns, when it succeeds, is the number of lines of the buffer.
pub proof fn lemma_valid_count(s: Seq<u8>)
    requires
        valid_buffer(s),
    ensures
        all_delims(s).len() / 2 == records(s).len(),
{
    lemma_delims_of_records(s, 0);
}

/// The delimiters of a buffer of valid lines are each line's `;` and `\n` in order, and
/// any two of them two apart lie at least six bytes apart: a name has at least one byte
/// and a value at least three.
#[verifier::spinoff_prover]
#[verifier::rlimit(40)]
proof fn lemma_valid_delims(s: Seq<u8>)
    requires
        valid_buffer(s),
    ensures
        all_delims(s).len() == 2 * records(s).len(),
        forall|i: int|
            0 <= i < records(s).len() ==> all_delims(s)[2 * i] == (#[trigger] records(s)[i]).1 && all_delims(s)[2 * i + 1]
                == records(s)[i].2,
        forall|t: int| 0 <= t && t + 2 < all_delims(s).len() ==> #[trigger] all_delims(s)[t + 2] - all_delims(s)[t] >= 6,
{
    let recs = records(s);
    lemma_delims_of_records(s, 0);
    lemma_rec_delims_index(recs);
    lemma_record_gaps(s);
    let d = all_delims(s);
    assert forall|t: int| 0 <= t && t + 2 < d.len() implies #[trigger] d[t + 2] - d[t] >= 6 by {
        let i = t / 2;
        assert(recs[i + 1].0 == recs[i].2 + 1);
        if t % 2 == 0 {
            assert(d[2 * i] == recs[i].1);
            assert(d[2 * (i + 1)] == recs[i + 1].1);
        } else {
            assert(d[2 * i + 1] == recs[i].2);
            assert(d[2 * (i + 1) + 1] == recs[i + 1].2);
        }
    }
}

/// Each valid line has a name of at least one byte and a value of at least three, and
/// the next line starts right after it.
#[verifier::spinoff_prover]
#[verifier::rlimit(40)]
proof fn lemma_record_gaps(s: Seq<u8>)
    requires
        valid_buffer(s),
    ensures
        forall|i: int| 0 <= i < records(s).len() ==> (#[trigger] records(s)[i]).2 - records(s)[i].1 >= 4 && records(s)[i].0
            < records(s)[i].1,
        forall|i: int| 0 < i < records(s).len() ==> (#[trigger] records(s)[i]).0 == records(s)[i - 1].2 + 1,
{
    let recs = records(s);
    lemma_records_shape(s, 0);
    crate::layout::lemma_records_contiguous(s, 0);
    assert forall|i: int| 0 <= i < recs.len() implies (#[trigger] recs[i]).2 - recs[i].1 >= 4 && recs[i].0 < recs[i].1 by {
        assert(valid_record(s, recs[i]));
        assert(record_shape(s, recs[i]));
        crate::format::lemma_value_len(rec_value(s, recs[i]));
    }
}

/// Block `k` of a buffer of valid lines, each line shorter than a block, reads.
#[verifier::spinoff_prover]
#[verifier::rlimit(40)]
proof fn lemma_block_reads_valid(s: Seq<u8>, k: int)
    requires
        valid_buffer(s),
        forall|i: int| 0 <= i < records(s).len() ==> (#[trigger] records(s)[i]).2 - records(s)[i].0 < 4096,
        0 <= k < block_total(s),
    ensures
        block_reads(s, k),
{
    let n = s.len() as int;
    let recs = records(s);
    let d = all_delims(s);
    let x = k * 4096;
    let be = block_end(s, k);
    assert(x < n) by (nonlinear_arith)
        requires
            0 <= k < (n + 4095) / 4096,
            x == k * 4096,
    ;
    assert(x + 4096 == (k + 1) * 4096) by (nonlinear_arith)
        requires
            x == k * 4096,
    ;
    lemma_valid_delims(s);
    lemma_records_shape(s, 0);
    crate::layout::lemma_records_contiguous(s, 0);
    let left = delims_in(s, 0, x);
    let mid = delims_in(s, x, be);
    let right = delims_in(s, be, n);
    lemma_delims_split(s, 0, x, n);
    lemma_delims_split(s, x, be, n);
    lemma_delims_props(s, 0, x);
    lemma_delims_props(s, x, be);
    lemma_delims_props(s, x, n);
    assert(d =~= left + (mid + right));
    let j = left.len() as int;
    let c = mid.len() as int;
    assert(recs.len() > 0);
    let last = recs[recs.len() - 1];
    assert(record_shape(s, last));
    assert(last.2 == n - 1);
    // the block holds at most 1366 delimiters
    assert forall|t: int| 0 <= t < c implies d[j + t] == #[trigger] mid[t] by {}
    if c >= 1367 {
        lemma_gap(d, j, 683);
        assert(d[j + 1366] == mid[1366]);
        assert(d[j] == mid[0]);
        assert(false);
    }
    assert(carry_in(s, k) <= 1);
    // the last block, when not whole, ends with a delimiter
    assert(s[n - 1] == NEWLINE);
    // a block after the first holds two delimiters, the carried one counted
    if k >= 1 {
        assert(d[d.len() - 1] == n - 1);
        assert(j < d.len()) by {
            if j >= d.len() {
                assert(d[d.len() - 1] == left[d.len() - 1]);
            }
        }
        assert(d[j] >= x) by {
            assert(d[j] == (mid + right)[0]);
            lemma_delims_props(s, x, n);
            assert(delims_in(s, x, n) =~= mid + right);
        }
        if j > 0 {
            assert(d[j - 1] == left[j - 1]);
            assert(d[j - 1] < x);
        }
        let i = j / 2;
        if j % 2 == 0 {
            assert(j == 2 * i);
            let r = recs[i];
            assert(d[j] == r.1);
            assert(r.0 <= x) by {
                if i > 0 {
                    assert(d[2 * (i - 1) + 1] == recs[i - 1].2);
                    assert(r.0 == recs[i - 1].2 + 1);
                }
            }
            assert(record_shape(s, r));
            assert(r.2 < x + 4096 && r.2 < n);
            assert(r.2 < be);
            lemma_delim_member(s, x, be, r.1);
            lemma_delim_member(s, x, be, r.2);
            let a1 = choose|a: int| 0 <= a < mid.len() && mid[a] == r.1;
            let a2 = choose|a: int| 0 <= a < mid.len() && mid[a] == r.2;
            assert(a1 != a2);
            assert(c >= 2);
        } else {
            assert(j == 2 * i + 1);
            let r = recs[i];
            assert(d[j] == r.2);
            assert(d[j - 1] == r.1);
            assert(record_shape(s, r));
            assert(valid_record(s, r));
            assert(r.2 < x + 4096 && r.2 < n);
            lemma_delim_member(s, x, be, r.2);
            assert(c >= 1);
            assert(carry_in(s, k) == 1);
        }
    }
}

/// A buffer of valid lines, each shorter than a block (the format's names have at most a
/// hundred bytes), is counted: every block reads, so [`count_lines`] returns `Some`, and
/// what it returns, half the delimiters, is the number of lines.
pub proof fn lemma_valid_reads(s: Seq<u8>)
    requires
        valid_buffer(s),
        forall|i: int| 0 <= i < records(s).len() ==> (#[trigger] records(s)[i]).2 - records(s)[i].0 < 4096,
    ensures
        reads_all(s),
        all_delims(s).len() / 2 == records(s).len(),
{
    assert forall|k: int| 0 <= k < block_total(s) implies #[trigger] block_reads(s, k) by {
        lemma_block_reads_valid(s, k);
    }
    lemma_valid_count(s);
}

} // verus!
