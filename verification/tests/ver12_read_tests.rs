use onebrc_rust::ver12::read_all;
use onebrc_rust::table::HashEntry;
const SIGNED: [&str; 8] = ["12.3", "-1.5", "45.6", "-9.9", "70.0", "33.3", "10.1", "-2.0"];

fn sample(values: &[&str], lines: usize) -> Vec<u8> {
    let mut text = String::new();
    for i in 0..lines {
        text.push_str(&format!("Station_{:02};{}\n", i % 8, values[(i / 8 + i) % values.len()]));
    }
    text.into_bytes()
}

fn tenths(v: &str) -> i64 {
    let neg = v.starts_with('-');
    let digits: String = v.chars().filter(|c| c.is_ascii_digit()).collect();
    let x: i64 = digits.parse().unwrap();
    if neg { -x } else { x }
}

fn reference(buf: &[u8]) -> std::collections::BTreeMap<Vec<u8>, (i64, i64, u64, i64)> {
    let mut m = std::collections::BTreeMap::new();
    let text = std::str::from_utf8(buf).unwrap();
    for line in text.split_terminator('\n') {
        let (name, value) = line.split_once(';').unwrap();
        let v = tenths(value);
        let e = m.entry(name.as_bytes().to_vec()).or_insert((v, v, 0u64, 0i64));
        e.0 = e.0.min(v);
        e.1 = e.1.max(v);
        e.2 += 1;
        e.3 += v;
    }
    m
}
fn table_stats(t: &[HashEntry]) -> std::collections::BTreeMap<Vec<u8>, (i64, i64, u64, i64)> {
    let mut m = std::collections::BTreeMap::new();
    for e in t {
        if !e.key.is_empty() {
            m.insert(e.key.clone(), (e.data.min as i64, e.data.max as i64, e.data.count as u64, e.data.sum as i64));
        }
    }
    m
}

#[test]
fn ver12_read_all_aggregates_sample() {
    let buf = sample(&SIGNED, 65);
    let (aggr, lines, longest, shortest) = read_all(&buf).expect("sample reads");
    assert_eq!(lines, 65);
    assert_eq!((longest, shortest), (16, 16));
    assert_eq!(table_stats(&aggr.hashes), reference(&buf));
}

#[test]
fn ver12_read_all_needs_a_whole_block() {
    assert!(read_all(b"Oslo;1.0\n").is_none());
}

#[test]
fn ver12_read_all_refuses_a_buffer_ending_at_a_block_boundary() {
    let buf = sample(&SIGNED, 64);
    assert!(read_all(&buf).is_none());
}

#[test]
fn ver12_read_all_reads_every_line_in_the_tail() {
    let buf = sample(&SIGNED, 66);
    let (aggr, lines, _, _) = read_all(&buf).expect("sample reads");
    assert_eq!(lines, 66);
    assert_eq!(table_stats(&aggr.hashes), reference(&buf));
}

#[test]
fn ver12_read_all_refuses_a_value_it_cannot_read() {
    let mut buf = sample(&SIGNED, 65);
    buf[12] = b' ';
    assert!(read_all(&buf).is_none());
}
