use onebrc_rust::ver17::{parse_delimeter, parse_values, AggrInfo, FileReader};
use onebrc_rust::table::HashEntry;
const SIGNED: [&str; 8] = ["12.3", "-1.5", "45.6", "-9.9", "70.0", "33.3", "10.1", "-2.0"];

fn sample(values: &[&str], lines: usize) -> Vec<u8> {
    let mut text = String::new();
    for i in 0..lines {
        text.push_str(&format!("Station_{:02};{}\n", i % 8, values[(i / 8 + i) % values.len()]));
    }
    text.into_bytes()
}

fn tenths(v: &str) -> i64 {
    let neg = v.starts_with('-');
    let digits: String = v.chars().filter(|c| c.is_ascii_digit()).collect();
    let x: i64 = digits.parse().unwrap();
    if neg { -x } else { x }
}

fn reference(buf: &[u8]) -> std::collections::BTreeMap<Vec<u8>, (i64, i64, u64, i64)> {
    let mut m = std::collections::BTreeMap::new();
    let text = std::str::from_utf8(buf).unwrap();
    for line in text.split_terminator('\n') {
        let (name, value) = line.split_once(';').unwrap();
        let v = tenths(value);
        let e = m.entry(name.as_bytes().to_vec()).or_insert((v, v, 0u64, 0i64));
        e.0 = e.0.min(v);
        e.1 = e.1.max(v);
        e.2 += 1;
        e.3 += v;
    }
    m
}
fn table_stats(t: &[HashEntry]) -> std::collections::BTreeMap<Vec<u8>, (i64, i64, u64, i64)> {
    let mut m = std::collections::BTreeMap::new();
    for e in t {
        if !e.key.is_empty() {
            m.insert(e.key.clone(), (e.data.min as i64, e.data.max as i64, e.data.count as u64, e.data.sum as i64));
        }
    }
    m
}

#[test]
fn ver17_test_parse_values() {
    let input = ["-22.9", "-2.5", "2.5", "22.5"];
    let (v1, v2, v3, v4) = parse_values(input[0].as_bytes(), input[1].as_bytes(), input[2].as_bytes(), input[3].as_bytes());
    println!("v1: {}, v2: {}, v3: {}, v4: {}", v1, v2, v3, v4);
}

#[test]
fn ver17_parse_values_reads_tenths() {
    assert_eq!(parse_values(b"-22.9", b"-2.5", b"2.5", b"22.5"), (-229, -25, 25, 225));
}

#[test]
fn ver17_parse_delimeter_keeps_first_per_group() {
    let mut block = vec![b'x'; 128];
    block[3] = b';';
    block[5] = b';';
    block[17] = b';';
    block[127] = b';';
    assert_eq!(parse_delimeter(&block, 0, b';'), vec![3u8, 17, 127]);
}

#[test]
fn ver17_scan_loop_aggregates_sample() {
    let buf = sample(&SIGNED, 64);
    let reader = FileReader::new(&buf);
    let mut aggr = AggrInfo::new();
    assert!(reader.scan_loop(&mut aggr));
    assert_eq!(table_stats(&aggr.hashes), reference(&buf));
}

#[test]
fn ver17_scan_loop_leaves_out_bytes_after_last_block() {
    let mut buf = sample(&SIGNED, 64);
    let expected = reference(&buf);
    buf.extend_from_slice(b"Tail;1.0\n");
    let reader = FileReader::new(&buf);
    let mut aggr = AggrInfo::new();
    assert!(reader.scan_loop(&mut aggr));
    assert_eq!(table_stats(&aggr.hashes), expected);
}

#[test]
fn ver17_str_to_hash_keys_a_name_by_its_first_sixteen_bytes() {
    let buf = b"Hamburg;12.0\nPetropavlovsk-Kamchatsky;9.5\n";
    assert_eq!(onebrc_rust::ver17::str_to_hash(buf, 0, 7), (u64::from_le_bytes(*b"Hamburg\0"), 0));
    assert_eq!(
        onebrc_rust::ver17::str_to_hash(buf, 13, 37),
        (u64::from_le_bytes(*b"Petropav"), u64::from_le_bytes(*b"lovsk-Ka"))
    );
    assert_eq!(onebrc_rust::ver17::str_to_hash(buf, 38, 41), (u64::from_le_bytes(*b"9.5\0\0\0\0\0"), 0));
}

#[test]
fn ver17_scan_loop_carries_a_semicolon_across_blocks() {
    let mut text = String::new();
    for i in 0..40 {
        text.push_str(&format!("Oslo_{};{}\n", i % 10, SIGNED[(i / 10 + i) % 8]));
    }
    let buf = text.into_bytes();
    assert_eq!(buf[126], b';');
    let reader = FileReader::new(&buf);
    let mut aggr = AggrInfo::new();
    assert!(reader.scan_loop(&mut aggr));
    assert_eq!(table_stats(&aggr.hashes), reference(&buf[..32 * 12]));
}

#[test]
fn ver17_scan_loop_refuses_a_carry_into_a_block_of_three_lines() {
    let mut text = String::new();
    for i in 0..10 {
        text.push_str(&format!("{}{:02};12.3\n", "S".repeat(35), i));
    }
    let buf = text.into_bytes();
    assert_eq!((buf[123], buf[128]), (b';', b'\n'));
    let reader = FileReader::new(&buf);
    let mut aggr = AggrInfo::new();
    assert!(!reader.scan_loop(&mut aggr));
}
