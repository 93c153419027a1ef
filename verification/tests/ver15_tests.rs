use onebrc_rust::ver15::parse_values;

#[test]
fn ver15_test_parse_values() {
    let input = ["-22.9", "-2.5", "2.5", "22.5"];
    let (v1, v2, v3, v4) = parse_values(input[0].as_bytes(), input[1].as_bytes(), input[2].as_bytes(), input[3].as_bytes());
    println!("v1: {}, v2: {}, v3: {}, v4: {}", v1, v2, v3, v4);
}

#[test]
fn ver15_parse_values_reads_tenths() {
    assert_eq!(parse_values(b"-22.9", b"-2.5", b"2.5", b"22.5"), (-229, -25, 25, 225));
}

#[test]
fn ver15_check_result_lists_stations_in_slot_order() {
    let mut aggr = onebrc_rust::ver15::AggrInfo::new();
    let (a, b) = onebrc_rust::bits::str_to_hash_normal(b"Hamburg");
    assert!(aggr.save_item(b"Hamburg", a, b, 120));
    let (c, d) = onebrc_rust::bits::str_to_hash_normal(b"Oslo");
    assert!(aggr.save_item(b"Oslo", c, d, -15));
    let report = onebrc_rust::ver15::check_result(&aggr);
    let mut expected: Vec<(usize, bool)> = aggr
        .hashes
        .iter()
        .enumerate()
        .filter(|(_, e)| !e.key.is_empty())
        .map(|(i, _)| (i, false))
        .collect();
    expected.sort();
    assert_eq!(report.len(), 2);
    assert_eq!(report, expected);
}
