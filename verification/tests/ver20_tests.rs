use onebrc_rust::ver20::{batch_lane_value, parse_value_u8x8, single_lane_value, AggrInfo, FileReader, AggrItemValues};
use onebrc_rust::table::HashEntry;
const UNSIGNED: [&str; 8] = ["12.3", "45.6", "70.0", "33.3", "10.1", "99.9", "50.5", "11.1"];
const SIGNED: [&str; 8] = ["12.3", "-1.5", "-45.6", "-9.9", "70.0", "3.3", "10.1", "-2.0"];

fn sample(values: &[&str], lines: usize) -> Vec<u8> {
    let mut text = String::new();
    for i in 0..lines {
        text.push_str(&format!("Station_{:02};{}\n", i % 8, values[(i / 8 + i) % values.len()]));
    }
    text.into_bytes()
}

fn tenths(v: &str) -> i64 {
    let neg = v.starts_with('-');
    let digits: String = v.chars().filter(|c| c.is_ascii_digit()).collect();
    let x: i64 = digits.parse().unwrap();
    if neg { -x } else { x }
}

fn reference(buf: &[u8]) -> std::collections::BTreeMap<Vec<u8>, (i64, i64, u64, i64)> {
    let mut m = std::collections::BTreeMap::new();
    let text = std::str::from_utf8(buf).unwrap();
    for line in text.split_terminator('\n') {
        let (name, value) = line.split_once(';').unwrap();
        let v = tenths(value);
        let e = m.entry(name.as_bytes().to_vec()).or_insert((v, v, 0u64, 0i64));
        e.0 = e.0.min(v);
        e.1 = e.1.max(v);
        e.2 += 1;
        e.3 += v;
    }
    m
}
fn table_stats(t: &[HashEntry]) -> std::collections::BTreeMap<Vec<u8>, (i64, i64, u64, i64)> {
    let mut m = std::collections::BTreeMap::new();
    for e in t {
        if !e.key.is_empty() {
            m.insert(e.key.clone(), (e.data.min as i64, e.data.max as i64, e.data.count as u64, e.data.sum as i64));
        }
    }
    m
}

#[test]
fn ver20_scan_loop_aggregates_sample() {
    let buf = sample(&UNSIGNED, 64);
    let reader = FileReader::new(&buf);
    let mut aggr = AggrInfo::new();
    assert!(reader.scan_loop(&mut aggr));
    assert_eq!(table_stats(&aggr.linar_hash_table), reference(&buf));
}

#[test]
fn ver20_window_values() {
    assert_eq!(parse_value_u8x8(*b"_01;12.3"), 123);
    assert_eq!(single_lane_value(*b"urg;-3.4"), -34);
    assert_eq!(batch_lane_value(*b"urg;-3.4"), -34);
    assert_eq!(parse_value_u8x8(*b"abcd;1.2"), 12);
    assert_eq!(single_lane_value(*b"abcd;1.2"), 12);
    assert_eq!(batch_lane_value(*b"xyz;-1.2"), -12);
    assert_eq!(batch_lane_value(*b"_01;45.6"), 456);
}

#[test]
fn ver20_values_start_at_zero() {
    let v = AggrItemValues::new();
    assert_eq!(v.explot(), (0, 0, 0, 0));
}

#[test]
fn ver20_scan_loop_reads_signs_and_short_values() {
    let buf = sample(&SIGNED, 64);
    let reader = FileReader::new(&buf);
    let mut aggr = AggrInfo::new();
    assert!(reader.scan_loop(&mut aggr));
    assert_eq!(table_stats(&aggr.linar_hash_table), reference(&buf));
}
