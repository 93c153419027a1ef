//! Small integer operations: a 64-bit left shift, and a mix of 128-bit operations.
use vstd::prelude::*;

verus! {

/// `num` shifted left by `num2` bits, `num2` below 64.
pub fn test_shift_left(num: u64, num2: u64) -> (r: u64)
    requires
        num2 < 64,
    ensures
        r == num << num2,
{
    num << num2
}

/// The number of set bits among the low `n` bits of `x`.
pub open spec fn ones(x: u128, n: nat) -> nat
    decreases n,
{
    if n == 0 {
        0
    } else {
        ones(x, (n - 1) as nat) + if (x >> ((n - 1) as u128)) & 1 == 1 {
            1nat
        } else {
            0nat
        }
    }
}

/// The number of bits up to and including the highest set bit among the low `n` bits
/// of `x`, 0 when none of them is set.
pub open spec fn bit_length(x: u128, n: nat) -> nat
    decreases n,
{
    if n == 0 {
        0
    } else if (x >> ((n - 1) as u128)) & 1 == 1 {
        n
    } else {
        bit_length(x, (n - 1) as nat)
    }
}

/// The number of set bits of `x`.
pub fn count_ones(x: u128) -> (c: u32)
    ensures
        c == ones(x, 128),
{
    let mut c: u32 = 0;
    let mut i: u32 = 0;
    while i < 128
        invariant
            i <= 128,
            c == ones(x, i as nat),
            c <= i,
        decreases 128 - i,
    {
        if (x >> i) & 1 == 1 {
            c = c + 1;
        }
        i = i + 1;
    }
    c
}

/// The number of zero bits above the highest set bit of `x`, 128 for zero.
pub fn leading_zeros(x: u128) -> (z: u32)
    ensures
        z == 128 - bit_length(x, 128),
{
    let mut len: u32 = 0;
    let mut i: u32 = 0;
    while i < 128
        invariant
            i <= 128,
            len == bit_length(x, i as nat),
            len <= i,
        decreases 128 - i,
    {
        if (x >> i) & 1 == 1 {
            len = i + 1;
        }
        i = i + 1;
    }
    128 - len
}

/// `x` rotated left by `k` bits, `k` from 1 to 127.
pub open spec fn rotl(x: u128, k: u128) -> u128 {
    ((x << k) | (x >> (128 - k) as u128)) as u128
}

/// Mixes several operations on `num`: one more, shifted right by 16, its set bits,
/// its leading zeros, rotated left and right by 8, and its low 64 bits, all xor-ed.
pub fn test_u128(num: u128) -> (r: u128)
    requires
        num < u128::MAX,
    ensures
        r == (num + 1) as u128 ^ (num >> 16u128) ^ (ones(num, 128) as u128) ^ ((128 - bit_length(num, 128)) as u128)
            ^ rotl(num, 8) ^ rotl(num, 120) ^ (num % 0x1_0000_0000_0000_0000u128),
{
    let a = num + 1;
    let b = num >> 16u128;
    let c = count_ones(num);
    let d = leading_zeros(num);
    let e = (num << 8u128) | (num >> 120u128);
    let f = (num << 120u128) | (num >> 8u128);
    let g = (num as u64) as u128;
    assert(((num as u64) as u128) == num % 0x1_0000_0000_0000_0000u128) by (bit_vector);
    a ^ b ^ c as u128 ^ d as u128 ^ e ^ f ^ g
}

} // verus!
