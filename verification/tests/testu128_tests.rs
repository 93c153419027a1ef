use onebrc_rust::testu128::{count_ones, leading_zeros, test_shift_left, test_u128};

#[test]
fn shift_left_shifts() {
    assert_eq!(test_shift_left(5, 0), 5);
    assert_eq!(test_shift_left(5, 1), 10);
    assert_eq!(test_shift_left(1, 63), 1u64 << 63);
}

#[test]
fn u128_mix_matches_the_operations() {
    for &num in &[0u128, 1, 12345678901234567890123456789, u128::MAX - 1] {
        let expected = (num + 1) ^ (num >> 16) ^ num.count_ones() as u128 ^ num.leading_zeros() as u128 ^ num.rotate_left(8)
            ^ num.rotate_right(8) ^ (num as u64 as u128);
        assert_eq!(test_u128(num), expected);
        assert_eq!(count_ones(num), num.count_ones());
        assert_eq!(leading_zeros(num), num.leading_zeros());
    }
}
