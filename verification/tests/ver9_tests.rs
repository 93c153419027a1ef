use onebrc_rust::ver9::{aggregate_stations, parse_value};

#[test]
fn test_parse_value_simd() {
    assert_eq!(parse_value("10.2".as_bytes()), 102);
    assert_eq!(parse_value("-10.2".as_bytes()), -102);
    assert_eq!(parse_value("2.0".as_bytes()), 20);
    assert_eq!(parse_value("-2.0".as_bytes()), -20);
}

fn sample_buffer() -> Vec<u8> {
    let mut text = String::new();
    text.push_str("Hamburg;12.0\nBulawayo;8.9\nPalembang;38.8\nHamburg;-3.4\n");
    text.push_str("St. John's;15.2\nCracow;12.6\nBridgetown;26.9\nIstanbul;6.2\n");
    text.as_bytes().to_vec()
}

#[test]
fn ver9_aggregates_sample() {
    let buf = sample_buffer();
    let stations = aggregate_stations(&buf).expect("sample reads to its end");
    assert_eq!(stations.len(), 7);
    assert_eq!(stations.get(&b"Hamburg".to_vec()), Some(&(-34, 120, 2, 86)));
    assert_eq!(stations.get(&b"Palembang".to_vec()), Some(&(388, 388, 1, 388)));
}

#[test]
fn ver9_rejects_short_or_unterminated() {
    assert!(aggregate_stations(b"a;1.0\n").is_none());
    let mut buf = sample_buffer();
    buf.extend_from_slice(b"Oslo;1.0");
    assert!(aggregate_stations(&buf).is_none());
}
