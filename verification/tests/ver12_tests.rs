use onebrc_rust::table::TABLE_SLOTS;
use onebrc_rust::ver12::AggrInfo;

#[test]
fn test_x() {
    let _arr = &[0x11u8, 0x22, 0x33, 0x44, 0x55, 0x66, 0x77, 0x88, 0x99, 0xAA, 0xBB, 0xCC, 0xDD, 0xEE, 0xFF, 0x00, 0x12, 0x23];
}

#[test]
fn ver12_save_item_counts_one_station() {
    let mut aggr = AggrInfo::new();
    assert_eq!(aggr.hashes.len(), TABLE_SLOTS);
    let (a, b) = onebrc_rust::bits::str_to_hash_normal(b"Hamburg");
    assert!(aggr.save_item(b"Hamburg", a, b, 120));
    assert!(aggr.save_item(b"Hamburg", a, b, -34));
    let slot = aggr.hashes.iter().position(|e| !e.key.is_empty()).unwrap();
    let e = &aggr.hashes[slot];
    assert_eq!(e.key, b"Hamburg".to_vec());
    assert_eq!((e.data.min, e.data.max, e.data.count, e.data.sum), (-34, 120, 2, 86));
}
