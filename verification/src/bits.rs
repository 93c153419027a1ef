//! Names packed into two little-endian `u64` halves, and the bitmasks that mark
//! delimiters in a 64-byte block.
use vstd::prelude::*;
use crate::format::{NEWLINE, SEMICOLON};

verus! {

/// 256 to the power `k`.
pub open spec fn pow256(k: nat) -> nat
    decreases k,
{
    if k == 0 {
        1
    } else {
        256 * pow256((k - 1) as nat)
    }
}

/// The bytes of `s` read as a little-endian number.
pub open spec fn le_value(s: Seq<u8>) -> nat
    decreases s.len(),
{
    if s.len() == 0 {
        0
    } else {
        s[0] as nat + 256 * le_value(s.drop_first())
    }
}

/// A little-endian number of `k` bytes is below 256^k.
pub proof fn lemma_le_value_bound(s: Seq<u8>)
    ensures
        le_value(s) < pow256(s.len()),
    decreases s.len(),
{
    if s.len() > 0 {
        lemma_le_value_bound(s.drop_first());
        assert(pow256(s.len()) == 256 * pow256((s.len() - 1) as nat));
    }
}

/// 256^8 is 2^64.
pub proof fn lemma_pow256_values()
    ensures
        pow256(0) == 1,
        pow256(1) == 0x100,
        pow256(2) == 0x1_0000,
        pow256(3) == 0x100_0000,
        pow256(4) == 0x1_0000_0000,
        pow256(5) == 0x100_0000_0000,
        pow256(6) == 0x1_0000_0000_0000,
        pow256(7) == 0x100_0000_0000_0000,
        pow256(8) == 0x1_0000_0000_0000_0000,
{
    reveal_with_fuel(pow256, 9);
}

/// The smaller of two integers.
pub open spec fn min_int(a: int, b: int) -> int {
    if a < b {
        a
    } else {
        b
    }
}

/// The key a name is packed into: its first eight bytes, and its bytes 8 to 15, each
/// read little-endian; bytes past the name count as zero, bytes past the sixteenth are
/// left out.
pub open spec fn packed_key(name: Seq<u8>) -> (u64, u64) {
    let a = min_int(name.len() as int, 8);
    let b = min_int(name.len() as int, 16);
    (le_value(name.subrange(0, a)) as u64, le_value(name.subrange(a, b)) as u64)
}

/// The bytes `s[from..to]`, at most eight of them, read little-endian.
pub(crate) fn le_u64(s: &[u8], from: usize, to: usize) -> (r: u64)
    requires
        from <= to <= s@.len(),
        to - from <= 8,
    ensures
        r == le_value(s@.subrange(from as int, to as int)),
{
    let mut v: u64 = 0;
    let mut i: usize = to;
    proof {
        lemma_pow256_values();
    }
    while i > from
        invariant
            from <= i <= to <= s@.len(),
            to - from <= 8,
            v == le_value(s@.subrange(i as int, to as int)),
            v < pow256((to - i) as nat),
            pow256(8) == 0x1_0000_0000_0000_0000,
        decreases i - from,
    {
        proof {
            lemma_le_value_bound(s@.subrange(i as int, to as int));
            assert(s@.subrange(i - 1, to as int).drop_first() =~= s@.subrange(i as int, to as int));
            assert(pow256((to - i + 1) as nat) == 256 * pow256((to - i) as nat));
            lemma_pow_mono((to - i + 1) as nat, 8);
        }
        v = s[i - 1] as u64 + 256 * v;
        i -= 1;
    }
    v
}

/// A higher power of 256 is at least as large.
pub proof fn lemma_pow_mono(a: nat, b: nat)
    requires
        a <= b,
    ensures
        pow256(a) <= pow256(b),
    decreases b,
{
    if a < b {
        lemma_pow_mono(a, (b - 1) as nat);
    }
}

/// Packs a name into its key: the first eight bytes little-endian, and bytes 8 to 15
/// little-endian, bytes past the name counting as zero.
pub fn str_to_hash_normal(name: &[u8]) -> (r: (u64, u64))
    ensures
        r == packed_key(name@),
{
    let len = name.len();
    let len_a = if len < 8 { len } else { 8 };
    let len_ab = if len < 16 { len } else { 16 };
    (le_u64(name, 0, len_a), le_u64(name, len_a, len_ab))
}

/// The mask of the low `n` bytes of a `u64`, `n` at most 8.
pub open spec fn byte_mask(n: nat) -> u64 {
    (pow256(n) - 1) as u64
}

/// The low `n` bytes of a `u64` set, `n` from 0 to 8.
pub fn mask_of(n: usize) -> (r: u64)
    requires
        n <= 8,
    ensures
        r == byte_mask(n as nat),
{
    proof {
        lemma_pow256_values();
    }
    match n {
        0 => 0,
        1 => 0x0000_0000_0000_00FF,
        2 => 0x0000_0000_0000_FFFF,
        3 => 0x0000_0000_00FF_FFFF,
        4 => 0x0000_0000_FFFF_FFFF,
        5 => 0x0000_00FF_FFFF_FFFF,
        6 => 0x0000_FFFF_FFFF_FFFF,
        7 => 0x00FF_FFFF_FFFF_FFFF,
        _ => 0xFFFF_FFFF_FFFF_FFFF,
    }
}

/// Keeping the low `n` bytes of `x` is taking it modulo 256^n.
pub proof fn lemma_and_mask(x: u64, n: nat)
    requires
        n <= 8,
    ensures
        x & byte_mask(n) == x % (pow256(n) as u64) || n == 8,
        n == 8 ==> x & byte_mask(n) == x,
        n < 8 ==> (x & byte_mask(n)) as int == x as int % pow256(n) as int,
{
    lemma_pow256_values();
    if n == 0 {
        assert(x & 0 == 0) by (bit_vector);
    } else if n == 1 {
        assert(x & 0xFF == x % 0x100) by (bit_vector);
    } else if n == 2 {
        assert(x & 0xFFFF == x % 0x1_0000) by (bit_vector);
    } else if n == 3 {
        assert(x & 0xFF_FFFF == x % 0x100_0000) by (bit_vector);
    } else if n == 4 {
        assert(x & 0xFFFF_FFFF == x % 0x1_0000_0000) by (bit_vector);
    } else if n == 5 {
        assert(x & 0xFF_FFFF_FFFF == x % 0x100_0000_0000) by (bit_vector);
    } else if n == 6 {
        assert(x & 0xFFFF_FFFF_FFFF == x % 0x1_0000_0000_0000) by (bit_vector);
    } else if n == 7 {
        assert(x & 0xFF_FFFF_FFFF_FFFF == x % 0x100_0000_0000_0000) by (bit_vector);
    } else {
        assert(x & 0xFFFF_FFFF_FFFF_FFFF == x) by (bit_vector);
    }
}

/// The key halves cut to a name of `len` bytes: the low `min(len, 8)` bytes of the
/// first half and the low `min(len - 8, 8)` bytes of the second.
pub open spec fn truncated_key(key: (u64, u64), len: int) -> (u64, u64) {
    let len_l = min_int(len, 8);
    let len_h = min_int(len - len_l, 8);
    (key.0 & byte_mask(len_l as nat), key.1 & byte_mask(len_h as nat))
}

/// Cuts a loaded 16-byte key to a name of `len` bytes: bytes past the name are zeroed.
pub fn truncate_key_normal(key: (u64, u64), len: usize) -> (r: (u64, u64))
    ensures
        r == truncated_key(key, len as int),
{
    let len_l = if len < 8 { len } else { 8 };
    let rest = len - len_l;
    let len_h = if rest < 8 { rest } else { 8 };
    (key.0 & mask_of(len_l), key.1 & mask_of(len_h))
}

/// Whether bit `j` of `m` is set.
pub open spec fn bit(m: u64, j: int) -> bool {
    0 <= j < 64 && (m >> (j as u64)) & 1 == 1
}

/// Setting bit `j` sets that bit and leaves the others.
pub proof fn lemma_bit_or(m: u64, j: u64, k: u64)
    requires
        j < 64,
        k < 64,
    ensures
        ((m | (1u64 << j)) >> k) & 1 == 1 <==> ((m >> k) & 1 == 1 || k == j),
{
    assert(((m | (1u64 << j)) >> k) & 1 == 1 <==> ((m >> k) & 1 == 1 || k == j)) by (bit_vector)
        requires
            j < 64,
            k < 64,
    ;
}

/// The masks of `;` and of `\n` in the 64 bytes `buf[cursor..cursor + 64]`: bit `j`
/// of the first is set exactly when byte `cursor + j` is `;`, of the second when it is
/// `\n`.
pub fn load_current_64(buf: &[u8], cursor: usize) -> (r: (u64, u64))
    requires
        cursor + 64 <= buf@.len(),
    ensures
        forall|j: int| 0 <= j < 64 ==> (bit(r.0, j) <==> buf@[cursor + j] == SEMICOLON),
        forall|j: int| 0 <= j < 64 ==> (bit(r.1, j) <==> buf@[cursor + j] == NEWLINE),
{
    let mut pos1: u64 = 0;
    let mut pos2: u64 = 0;
    let mut j: u64 = 0;
    let n = buf.len();
    assert forall|k: int| 0 <= k < 64 implies !bit(0u64, k) by {
        let kk = k as u64;
        assert((0u64 >> kk) & 1 == 0) by (bit_vector);
    }
    while j < 64
        invariant
            j <= 64,
            cursor + 64 <= buf@.len(),
            n == buf@.len(),
            forall|k: int| 0 <= k < j ==> (bit(pos1, k) <==> buf@[cursor + k] == SEMICOLON),
            forall|k: int| 0 <= k < j ==> (bit(pos2, k) <==> buf@[cursor + k] == NEWLINE),
            forall|k: int| j <= k < 64 ==> !bit(pos1, k) && !bit(pos2, k),
        decreases 64 - j,
    {
        let jj = j as usize;
        assert(jj == j);
        let b = buf[cursor + jj];
        let old1 = pos1;
        let old2 = pos2;
        if b == SEMICOLON {
            pos1 = pos1 | (1u64 << j);
        }
        if b == NEWLINE {
            pos2 = pos2 | (1u64 << j);
        }
        assert forall|k: int| 0 <= k < 64 implies (bit(pos1, k) <==> (bit(old1, k) || (k == j
            && b == SEMICOLON))) && (bit(pos2, k) <==> (bit(old2, k) || (k == j && b
            == NEWLINE))) by {
            lemma_bit_or(old1, j, k as u64);
            lemma_bit_or(old2, j, k as u64);
        }
        j += 1;
    }
    (pos1, pos2)
}


/// A mask is zero exactly when none of its 64 bits is set.
pub proof fn lemma_zero_bits(x: u64)
    ensures
        x == 0 <==> forall|j: int| 0 <= j < 64 ==> !bit(x, j),
{
    if x == 0 {
        assert forall|j: int| 0 <= j < 64 implies !bit(x, j) by {
            let jj = j as u64;
            assert((0u64 >> jj) & 1 == 0) by (bit_vector);
        }
    } else {
        lemma_lowest_bit(x);
    }
}

/// The trailing zeros of a non-zero mask point at its lowest set bit.
pub proof fn lemma_lowest_bit(x: u64)
    requires
        x != 0,
    ensures
        x.trailing_zeros() < 64,
        bit(x, x.trailing_zeros() as int),
        forall|j: int| 0 <= j < x.trailing_zeros() ==> !bit(x, j),
{
    vstd::std_specs::bits::axiom_u64_trailing_zeros(x);
    let t = x.trailing_zeros();
    assert forall|j: int| 0 <= j < t implies !bit(x, j) by {
        let jj = j as u64;
        assert((x >> jj) & 1u64 == 0u64);
    }
}

/// Clearing the bits up to and including bit `r` keeps exactly the set bits above `r`.
pub proof fn lemma_clear_through(x: u64, r: u64, j: u64)
    requires
        r < 64,
        j < 64,
    ensures
        ((x & (!1u64 << r)) >> j) & 1 == 1 <==> ((x >> j) & 1 == 1 && j > r),
{
    assert(((x & (!1u64 << r)) >> j) & 1 == 1 <==> ((x >> j) & 1 == 1 && j > r)) by (bit_vector)
        requires
            r < 64,
            j < 64,
    ;
}

/// Takes the lowest set bit of a non-zero mask: returns its index and clears it, with
/// every bit below it.
pub fn get_and_clear(pos: &mut u64) -> (at: usize)
    requires
        *old(pos) != 0,
    ensures
        at < 64,
        at == old(pos).trailing_zeros(),
        *final(pos) == *old(pos) & (!1u64 << at as u64),
        bit(*old(pos), at as int),
        forall|j: int| 0 <= j < at ==> !bit(*old(pos), j),
        forall|j: int| 0 <= j < 64 ==> (bit(*final(pos), j) <==> bit(*old(pos), j) && j > at),
{
    let x = *pos;
    proof {
        lemma_lowest_bit(x);
    }
    let at = x.trailing_zeros();
    *pos = x & (!1u64 << at as u64);
    proof {
        assert forall|j: int| 0 <= j < 64 implies (bit(*pos, j) <==> bit(x, j) && j > at) by {
            lemma_clear_through(x, at as u64, j as u64);
        }
    }
    at as usize
}

/// Powers of 256 are positive.
pub proof fn lemma_pow256_pos(k: nat)
    ensures
        pow256(k) > 0,
    decreases k,
{
    if k > 0 {
        lemma_pow256_pos((k - 1) as nat);
    }
}

/// The number of the first `n` bytes is the number of all bytes modulo 256^n.
pub proof fn lemma_le_take(s: Seq<u8>, n: nat)
    requires
        n <= s.len(),
    ensures
        le_value(s) % pow256(n) == le_value(s.take(n as int)),
    decreases n,
{
    if n == 0 {
        assert(s.take(0) =~= Seq::<u8>::empty());
    } else {
        let rest = s.drop_first();
        lemma_le_take(rest, (n - 1) as nat);
        lemma_pow256_pos((n - 1) as nat);
        let m = pow256((n - 1) as nat) as int;
        let b = le_value(rest) as int;
        let a = s[0] as int;
        let q = b / m;
        let r = b % m;
        vstd::arithmetic::div_mod::lemma_fundamental_div_mod(b, m);
        assert(a + 256 * b == q * (256 * m) + (a + 256 * r)) by (nonlinear_arith)
            requires
                b == m * q + r,
        ;
        assert(0 <= a + 256 * r < 256 * m) by (nonlinear_arith)
            requires
                0 <= a < 256,
                0 <= r < m,
        ;
        vstd::arithmetic::div_mod::lemma_fundamental_div_mod_converse(a + 256 * b, 256 * m, q, a + 256 * r);
        assert(s.take(n as int).drop_first() =~= rest.take(n - 1));
        assert(pow256(n) == 256 * m);
    }
}

/// A number of at most `n` bytes is below 256^n, so it is its own residue.
proof fn lemma_le_small(s: Seq<u8>, n: nat)
    requires
        s.len() <= n,
    ensures
        le_value(s) % pow256(n) == le_value(s),
{
    lemma_le_value_bound(s);
    lemma_pow_mono(s.len(), n);
    vstd::arithmetic::div_mod::lemma_small_mod(le_value(s), pow256(n));
}

/// Keeping the low `n` bytes, `n` at most 8, of the number of `s` gives the number of
/// the first `min(n, |s|)` bytes of `s`.
proof fn lemma_mask_le(s: Seq<u8>, n: nat)
    requires
        n <= 8,
        s.len() <= 8,
    ensures
        (le_value(s) as u64) & byte_mask(n) == le_value(s.take(min_int(n as int, s.len() as int))),
{
    lemma_pow256_values();
    lemma_le_value_bound(s);
    lemma_pow_mono(s.len(), 8);
    let x = le_value(s) as u64;
    lemma_and_mask(x, n);
    if n == 8 {
        assert(s.take(s.len() as int) =~= s);
    } else if n <= s.len() {
        lemma_le_take(s, n);
    } else {
        lemma_le_small(s, n);
        assert(s.take(s.len() as int) =~= s);
    }
}

/// Cutting a packed key to `len` bytes is packing the first `len` bytes.
pub proof fn lemma_truncated_packed(x: Seq<u8>, len: int)
    requires
        0 <= len,
    ensures
        truncated_key(packed_key(x), len) == packed_key(x.take(min_int(len, x.len() as int))),
{
    let m = min_int(len, x.len() as int);
    let y = x.take(m);
    let a = min_int(x.len() as int, 8);
    let b = min_int(x.len() as int, 16);
    let l1 = min_int(len, 8);
    let l2 = min_int(len - l1, 8);
    lemma_mask_le(x.subrange(0, a), l1 as nat);
    assert(x.subrange(0, a).take(min_int(l1, a)) =~= y.subrange(0, min_int(m, 8)));
    lemma_mask_le(x.subrange(a, b), l2 as nat);
    if len <= 8 || x.len() <= 8 {
        assert(x.subrange(a, b).take(min_int(l2, b - a)) =~= Seq::<u8>::empty()) by {
            if x.len() > 8 {
                assert(l2 == 0);
            }
        }
        assert(y.subrange(min_int(m, 8), min_int(m, 16)) =~= Seq::<u8>::empty());
    } else {
        assert(x.subrange(a, b).take(min_int(l2, b - a)) =~= y.subrange(min_int(m, 8), min_int(m, 16)));
    }
}

/// A packed key depends on the first sixteen bytes only.
pub proof fn lemma_packed_take16(x: Seq<u8>, k: int)
    requires
        16 <= k <= x.len(),
    ensures
        packed_key(x.take(k)) == packed_key(x.take(16)),
{
    assert(x.take(k).subrange(0, 8) =~= x.take(16).subrange(0, 8));
    assert(x.take(k).subrange(8, 16) =~= x.take(16).subrange(8, 16));
}

/// The sixteen bytes of `buf` from `start` on, fewer where the buffer ends, packed as a
/// key.
pub fn preload_key_u64x2(buf: &[u8], start: usize) -> (r: (u64, u64))
    requires
        start <= buf@.len(),
    ensures
        r == packed_key(buf@.subrange(start as int, min_int(start + 16, buf@.len() as int))),
{
    let n = buf.len();
    let end = if n - start < 16 { n } else { start + 16 };
    let a_end = if end - start < 8 { end } else { start + 8 };
    let ghost x = buf@.subrange(start as int, end as int);
    let r = (le_u64(buf, start, a_end), le_u64(buf, a_end, end));
    assert(x.subrange(0, min_int(x.len() as int, 8)) =~= buf@.subrange(start as int, a_end as int));
    assert(x.subrange(min_int(x.len() as int, 8), min_int(x.len() as int, 16)) =~= buf@.subrange(
        a_end as int,
        end as int,
    ));
    r
}

} // verus!
