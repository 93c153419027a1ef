use onebrc_rust::ver4::{aggregate_lines, parse_value, read_line, read_until};
use onebrc_rust::stations::Stations;
const SIGNED: [&str; 8] = ["12.3", "-1.5", "45.6", "-9.9", "70.0", "33.3", "10.1", "-2.0"];

fn sample(values: &[&str], lines: usize) -> Vec<u8> {
    let mut text = String::new();
    for i in 0..lines {
        text.push_str(&format!("Station_{:02};{}\n", i % 8, values[(i / 8 + i) % values.len()]));
    }
    text.into_bytes()
}

fn tenths(v: &str) -> i64 {
    let neg = v.starts_with('-');
    let digits: String = v.chars().filter(|c| c.is_ascii_digit()).collect();
    let x: i64 = digits.parse().unwrap();
    if neg { -x } else { x }
}

fn reference(buf: &[u8]) -> std::collections::BTreeMap<Vec<u8>, (i64, i64, u64, i64)> {
    let mut m = std::collections::BTreeMap::new();
    let text = std::str::from_utf8(buf).unwrap();
    for line in text.split_terminator('\n') {
        let (name, value) = line.split_once(';').unwrap();
        let v = tenths(value);
        let e = m.entry(name.as_bytes().to_vec()).or_insert((v, v, 0u64, 0i64));
        e.0 = e.0.min(v);
        e.1 = e.1.max(v);
        e.2 += 1;
        e.3 += v;
    }
    m
}
fn stations_stats(st: &Stations) -> std::collections::BTreeMap<Vec<u8>, (i64, i64, u64, i64)> {
    let mut m = std::collections::BTreeMap::new();
    for e in &st.entries {
        m.insert(e.name.clone(), (e.stats.min, e.stats.max, e.stats.count as u64, e.stats.sum));
    }
    m
}

#[test]
fn ver4_read_until_counts_through_the_delimiter() {
    let b = b"ab;cd\nx";
    assert_eq!(read_until(b, 0, b';'), 3);
    assert_eq!(read_until(b, 3, b'\n'), 3);
    assert_eq!(read_until(b, 6, b';'), 1);
    assert_eq!(read_until(b, 7, b';'), 0);
}

#[test]
fn ver4_read_line_splits_name_and_value() {
    let b = b"Oslo;-1.5\nRome;2.0";
    let (n, v, next) = read_line(b, 0).unwrap();
    assert_eq!(n, b"Oslo");
    assert_eq!(v, b"-1.5");
    assert_eq!(next, 10);
    let (n2, v2, next2) = read_line(b, 10).unwrap();
    assert_eq!(n2, b"Rome");
    assert_eq!(v2, b"2.");
    assert_eq!(next2, 18);
    assert!(read_line(b, 18).is_none());
    assert!(read_line(b"Oslo", 0).is_none());
}

#[test]
fn ver4_parse_value_reads_tenths() {
    assert_eq!(parse_value(b"-12.3"), -123);
    assert_eq!(parse_value(b"4.5"), 45);
    assert_eq!(parse_value(b"0.0"), 0);
}

#[test]
fn ver4_aggregates_sample() {
    let buf = sample(&SIGNED, 64);
    let st = aggregate_lines(&buf).expect("sample reads");
    assert_eq!(stations_stats(&st), reference(&buf));
    assert_eq!(st.entries.len(), 8);
}

#[test]
fn ver4_reads_unterminated_last_line_without_its_last_byte() {
    let st = aggregate_lines(b"Oslo;1.5\nOslo;2.25").expect("reads");
    let m = stations_stats(&st);
    assert_eq!(m.get(&b"Oslo".to_vec()), Some(&(15, 22, 2, 37)));
}

#[test]
fn ver4_rejects_unreadable_value() {
    assert!(aggregate_lines(b"Oslo;1 5\n").is_none());
}

#[test]
fn ver4_empty_buffer_has_no_station() {
    let st = aggregate_lines(b"").expect("reads");
    assert!(st.entries.is_empty());
}
