use onebrc_rust::ver13::{_parse_value, count_lines, FileReader};
use onebrc_rust::scan::Scan;
const SIGNED: [&str; 8] = ["12.3", "-1.5", "45.6", "-9.9", "70.0", "33.3", "10.1", "-2.0"];

fn sample(values: &[&str], lines: usize) -> Vec<u8> {
    let mut text = String::new();
    for i in 0..lines {
        text.push_str(&format!("Station_{:02};{}\n", i % 8, values[(i / 8 + i) % values.len()]));
    }
    text.into_bytes()
}

fn tenths(v: &str) -> i64 {
    let neg = v.starts_with('-');
    let digits: String = v.chars().filter(|c| c.is_ascii_digit()).collect();
    let x: i64 = digits.parse().unwrap();
    if neg { -x } else { x }
}

fn reference(buf: &[u8]) -> std::collections::BTreeMap<Vec<u8>, (i64, i64, u64, i64)> {
    let mut m = std::collections::BTreeMap::new();
    let text = std::str::from_utf8(buf).unwrap();
    for line in text.split_terminator('\n') {
        let (name, value) = line.split_once(';').unwrap();
        let v = tenths(value);
        let e = m.entry(name.as_bytes().to_vec()).or_insert((v, v, 0u64, 0i64));
        e.0 = e.0.min(v);
        e.1 = e.1.max(v);
        e.2 += 1;
        e.3 += v;
    }
    m
}
#[test]
fn ver13_counts_sample() {
    let buf = sample(&SIGNED, 64);
    assert_eq!(count_lines(&buf), Some(64));
}

#[test]
fn ver13_counts_across_blocks() {
    let buf = sample(&SIGNED, 600);
    assert_eq!(buf.len(), 9600);
    assert_eq!(count_lines(&buf), Some(600));
}

#[test]
fn ver13_whole_last_block_needs_no_final_delimiter() {
    let mut buf = sample(&SIGNED, 256);
    assert_eq!(buf.len(), 4096);
    assert_eq!(count_lines(&buf), Some(256));
    let n = buf.len();
    buf[n - 1] = b'x';
    assert_eq!(count_lines(&buf), Some(255));
}

#[test]
fn ver13_rejects_tail_without_delimiter() {
    assert_eq!(count_lines(b"Oslo;1.5\nRome"), None);
    assert_eq!(count_lines(b""), Some(0));
}

#[test]
fn ver13_next_hands_out_lines() {
    let buf = b"a;1\nbb;22\n";
    let mut reader = FileReader::new(buf).expect("loads");
    assert!(matches!(reader.next(), Scan::Line(0, 1, 3)));
    assert!(matches!(reader.next(), Scan::Line(4, 6, 9)));
    assert!(matches!(reader.next(), Scan::End));
}

#[test]
fn ver13_parse_value_reads_tenths() {
    assert_eq!(_parse_value(b"-1.5"), -15);
    assert_eq!(_parse_value(b"12.3"), 123);
}
