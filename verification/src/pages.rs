//! Touching a mapped buffer once per 2 MiB page before it is scanned: the eight bytes at
//! the start of every page are read and folded together with xor, so that the reads
//! cannot be optimised away.
use vstd::prelude::*;
use crate::bits::{le_u64, le_value};

verus! {

/// The distance between two touched bytes.
pub const PAGE_STRIDE: usize = 0x20_0000;

/// The eight bytes at `i`, little-endian.
pub open spec fn word_at(s: Seq<u8>, i: int) -> u64 {
    le_value(s.subrange(i, i + 8)) as u64
}

/// The xor of the words at `i`, `i + PAGE_STRIDE`, `i + 2 * PAGE_STRIDE`, ... that start
/// in `s`.
pub open spec fn pages_from(s: Seq<u8>, i: int) -> u64
    decreases (if 0 <= i < s.len() { s.len() - i } else { 0 }),
{
    if 0 <= i < s.len() {
        word_at(s, i) ^ pages_from(s, i + 0x20_0000)
    } else {
        0
    }
}

/// Every page start of `s` is followed by eight bytes of it.
pub open spec fn pages_readable(s: Seq<u8>) -> bool {
    s.len() % (PAGE_STRIDE as nat) == 0 || s.len() % (PAGE_STRIDE as nat) >= 8
}

/// Reads the first eight bytes of every 2 MiB page of `buf` and returns their xor, as
/// an `i64`.
pub fn preload_pages(buf: &[u8]) -> (r: i64)
    requires
        pages_readable(buf@),
    ensures
        r == pages_from(buf@, 0) as i64,
{
    let ghost s = buf@;
    let len = buf.len();
    let mut sum: u64 = 0;
    let mut i: usize = 0;
    proof {
        let p = pages_from(s, 0);
        assert(0u64 ^ p == p) by (bit_vector);
    }
    while i < len
        invariant
            s == buf@,
            len == s.len(),
            pages_readable(s),
            i <= len,
            i % PAGE_STRIDE == 0 || i == len,
            sum ^ pages_from(s, i as int) == pages_from(s, 0),
        decreases len - i,
    {
        assert(i + 8 <= len) by (nonlinear_arith)
            requires
                i % 0x20_0000 == 0,
                i < len,
                len % 0x20_0000 == 0 || len % 0x20_0000 >= 8,
        {
            if i + 0x20_0000 > len {
                assert(len / 0x20_0000 == i / 0x20_0000);
                assert(len % 0x20_0000 == len - i);
            }
        }
        let word = le_u64(buf, i, i + 8);
        let ghost rest = pages_from(s, i + PAGE_STRIDE);
        let ghost acc = sum;
        assert((acc ^ word) ^ rest == acc ^ (word ^ rest)) by (bit_vector);
        sum = sum ^ word;
        if len - i <= PAGE_STRIDE {
            i = len;
            proof {
                assert(pages_from(s, len as int) == 0);
                assert(rest == 0);
            }
        } else {
            i = i + PAGE_STRIDE;
        }
    }
    proof {
        let acc = sum;
        assert(pages_from(s, i as int) == 0);
        assert(acc ^ 0u64 == acc) by (bit_vector);
    }
    sum as i64
}

} // verus!
