use onebrc_rust::ver21::{check_result, parse_val_u8x8x4, parse_value_u8x8, AggrInfo, FileReader};
use onebrc_rust::table::HashEntry;
const SIGNED: [&str; 8] = ["12.3", "-1.5", "45.6", "-9.9", "70.0", "33.3", "10.1", "-2.0"];

fn sample(values: &[&str], lines: usize) -> Vec<u8> {
    let mut text = String::new();
    for i in 0..lines {
        text.push_str(&format!("Station_{:02};{}\n", i % 8, values[(i / 8 + i) % values.len()]));
    }
    text.into_bytes()
}

fn tenths(v: &str) -> i64 {
    let neg = v.starts_with('-');
    let digits: String = v.chars().filter(|c| c.is_ascii_digit()).collect();
    let x: i64 = digits.parse().unwrap();
    if neg { -x } else { x }
}

fn reference(buf: &[u8]) -> std::collections::BTreeMap<Vec<u8>, (i64, i64, u64, i64)> {
    let mut m = std::collections::BTreeMap::new();
    let text = std::str::from_utf8(buf).unwrap();
    for line in text.split_terminator('\n') {
        let (name, value) = line.split_once(';').unwrap();
        let v = tenths(value);
        let e = m.entry(name.as_bytes().to_vec()).or_insert((v, v, 0u64, 0i64));
        e.0 = e.0.min(v);
        e.1 = e.1.max(v);
        e.2 += 1;
        e.3 += v;
    }
    m
}
fn table_stats(t: &[HashEntry]) -> std::collections::BTreeMap<Vec<u8>, (i64, i64, u64, i64)> {
    let mut m = std::collections::BTreeMap::new();
    for e in t {
        if !e.key.is_empty() {
            m.insert(e.key.clone(), (e.data.min as i64, e.data.max as i64, e.data.count as u64, e.data.sum as i64));
        }
    }
    m
}

#[test]
fn ver21_scan_loop_aggregates_sample() {
    let buf = sample(&SIGNED, 64);
    let reader = FileReader::new(&buf);
    let mut aggr = AggrInfo::new();
    assert!(reader.scan_loop(&mut aggr));
    assert_eq!(table_stats(&aggr.linar_hash_table), reference(&buf));
    assert_eq!(check_result(&aggr).0, 8);
}

#[test]
fn ver21_window_values() {
    assert_eq!(parse_value_u8x8(*b"_01;12.3"), 123);
    assert_eq!(parse_value_u8x8(*b"_01;-1.5"), -15);
    assert_eq!(parse_val_u8x8x4(*b"_01;12.3", *b"_01;-1.5", *b"01;-12.3", *b"xxxx;0.1"), (123, -15, -123, 1));
}

#[test]
fn ver21_scan_loop_records_every_update_of_a_station_repeated_in_a_batch() {
    let text = "Station_00;12.3\nStation_01;12.3\nStation_02;12.3\nStation_03;12.3\n\
                Station_00;45.6\nStation_00;70.0\nStation_01;33.3\nStation_02;10.1\n";
    let buf = text.as_bytes().to_vec();
    let reader = FileReader::new(&buf);
    let mut aggr = AggrInfo::new();
    assert!(reader.scan_loop(&mut aggr));
    let stats = table_stats(&aggr.linar_hash_table);
    assert_eq!(stats[&b"Station_00".to_vec()], (123, 700, 3, 1279));
    assert_eq!(stats[&b"Station_01".to_vec()], (123, 333, 2, 456));
    assert_eq!(stats[&b"Station_02".to_vec()], (101, 123, 2, 224));
    assert_eq!(stats[&b"Station_03".to_vec()], (123, 123, 1, 123));
}

#[test]
fn ver21_home_slot_xors_twenty_bit_chunks() {
    assert_eq!(AggrInfo::compute_hash_code((1u64 << 60, 0)), 1);
    assert_eq!(AggrInfo::compute_hash_code((0, 1u64 << 16)), 1);
}
