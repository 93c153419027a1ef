use onebrc_rust::ver10;
use onebrc_rust::ver7;
use onebrc_rust::ver8;
const SIGNED: [&str; 8] = ["12.3", "-1.5", "45.6", "-9.9", "70.0", "33.3", "10.1", "-2.0"];

fn sample(values: &[&str], lines: usize) -> Vec<u8> {
    let mut text = String::new();
    for i in 0..lines {
        text.push_str(&format!("Station_{:02};{}\n", i % 8, values[(i / 8 + i) % values.len()]));
    }
    text.into_bytes()
}

fn tenths(v: &str) -> i64 {
    let neg = v.starts_with('-');
    let digits: String = v.chars().filter(|c| c.is_ascii_digit()).collect();
    let x: i64 = digits.parse().unwrap();
    if neg { -x } else { x }
}

fn reference(buf: &[u8]) -> std::collections::BTreeMap<Vec<u8>, (i64, i64, u64, i64)> {
    let mut m = std::collections::BTreeMap::new();
    let text = std::str::from_utf8(buf).unwrap();
    for line in text.split_terminator('\n') {
        let (name, value) = line.split_once(';').unwrap();
        let v = tenths(value);
        let e = m.entry(name.as_bytes().to_vec()).or_insert((v, v, 0u64, 0i64));
        e.0 = e.0.min(v);
        e.1 = e.1.max(v);
        e.2 += 1;
        e.3 += v;
    }
    m
}
fn fx_stats(m: &std::collections::HashMap<Vec<u8>, (i32, i32, u32, i32), rustc_hash::FxBuildHasher>) -> std::collections::BTreeMap<Vec<u8>, (i64, i64, u64, i64)> {
    m.iter().map(|(k, v)| (k.clone(), (v.0 as i64, v.1 as i64, v.2 as u64, v.3 as i64))).collect()
}

#[test]
fn ver7_aggregates_sample() {
    let buf = sample(&SIGNED, 64);
    let m = ver7::aggregate_stations(&buf).expect("reads");
    assert_eq!(fx_stats(&m), reference(&buf));
    assert_eq!(ver7::parse_value(b"-12.3"), -123);
}

#[test]
fn ver8_aggregates_sample() {
    let buf = sample(&SIGNED, 64);
    let m = ver8::aggregate_stations(&buf).expect("reads");
    assert_eq!(fx_stats(&m), reference(&buf));
}

#[test]
fn ver10_aggregates_sample() {
    let buf = sample(&SIGNED, 64);
    let map = ver10::aggregate_stations(&buf).expect("reads");
    let got: std::collections::BTreeMap<Vec<u8>, (i64, i64, u64, i64)> = map
        .iter()
        .into_iter()
        .map(|(k, t)| (k, (t.min as i64, t.max as i64, t.count as u64, t.sum as i64)))
        .collect();
    let expected: std::collections::BTreeMap<Vec<u8>, (i64, i64, u64, i64)> = reference(&buf)
        .into_iter()
        .collect();
    assert_eq!(got, expected);
    assert_eq!(ver10::parse_value(b"-12.3"), -123);
}

#[test]
fn ver10_new_station_starts_from_its_first_value() {
    let buf = b"abc;1.0\n".repeat(8);
    let map = ver10::aggregate_stations(&buf).expect("reads");
    let got = map.iter();
    assert_eq!(got.len(), 1);
    assert_eq!(got[0].0, b"abc".to_vec());
    assert_eq!((got[0].1.min, got[0].1.max, got[0].1.count, got[0].1.sum), (10, 10, 8, 80));
}
