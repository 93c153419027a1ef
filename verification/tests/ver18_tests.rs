use onebrc_rust::ver18::{parse_value_simd, str_to_hash_normal};

#[test]
fn test_str_to_hash3() {
    let name = "12345678ABCDEFGH+-=;";
    let name1 = &name[0..5];
    let name2 = &name[0..10];
    let name3 = &name[0..20];

    let (name1_a, name1_b) = str_to_hash_normal(name1.as_bytes());
    let (name2_a, name2_b) = str_to_hash_normal(name2.as_bytes());
    let (name3_a, name3_b) = str_to_hash_normal(name3.as_bytes());

    println!(
        "name1_a: {:x}, name1_b: {:x}, name2_a: {:x}, name2_b: {:x}, name3_a: {:x}, name3_b: {:x}",
        name1_a, name1_b, name2_a, name2_b, name3_a, name3_b
    );
    assert_eq!((name1_a, name1_b), (0x35_3433_3231, 0));
    assert_eq!((name2_a, name2_b), (0x3837_3635_3433_3231, 0x4241));
    assert_eq!((name3_a, name3_b), (0x3837_3635_3433_3231, 0x4847_4645_4443_4241));
}

#[test]
fn str_to_hash_packs_little_endian_halves() {
    let name = "12345678ABCDEFGH+-=;".as_bytes();
    assert_eq!(str_to_hash_normal(&name[0..5]), (0x35_34_33_32_31, 0));
    assert_eq!(str_to_hash_normal(&name[0..10]), (0x3837363534333231, 0x4241));
    assert_eq!(str_to_hash_normal(&name[0..20]), (0x3837363534333231, 0x4847464544434241));
}

#[test]
fn parse_value_simd_reads_tenths() {
    assert_eq!(parse_value_simd(b"-22.9"), -229);
    assert_eq!(parse_value_simd(b"2.5"), 25);
    assert_eq!(parse_value_simd(b"22.5"), 225);
    assert_eq!(parse_value_simd(b"-2.5"), -25);
}
