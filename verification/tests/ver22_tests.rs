use onebrc_rust::ver22::{check_result, AggrHashTable, FileReader};
use onebrc_rust::table::HashEntry;
const SIGNED: [&str; 8] = ["12.3", "-1.5", "45.6", "-9.9", "70.0", "33.3", "10.1", "-2.0"];

fn sample(values: &[&str], lines: usize) -> Vec<u8> {
    let mut text = String::new();
    for i in 0..lines {
        text.push_str(&format!("Station_{:02};{}\n", i % 8, values[(i / 8 + i) % values.len()]));
    }
    text.into_bytes()
}

fn tenths(v: &str) -> i64 {
    let neg = v.starts_with('-');
    let digits: String = v.chars().filter(|c| c.is_ascii_digit()).collect();
    let x: i64 = digits.parse().unwrap();
    if neg { -x } else { x }
}

fn reference(buf: &[u8]) -> std::collections::BTreeMap<Vec<u8>, (i64, i64, u64, i64)> {
    let mut m = std::collections::BTreeMap::new();
    let text = std::str::from_utf8(buf).unwrap();
    for line in text.split_terminator('\n') {
        let (name, value) = line.split_once(';').unwrap();
        let v = tenths(value);
        let e = m.entry(name.as_bytes().to_vec()).or_insert((v, v, 0u64, 0i64));
        e.0 = e.0.min(v);
        e.1 = e.1.max(v);
        e.2 += 1;
        e.3 += v;
    }
    m
}
fn table_stats(t: &[HashEntry]) -> std::collections::BTreeMap<Vec<u8>, (i64, i64, u64, i64)> {
    let mut m = std::collections::BTreeMap::new();
    for e in t {
        if !e.key.is_empty() {
            m.insert(e.key.clone(), (e.data.min as i64, e.data.max as i64, e.data.count as u64, e.data.sum as i64));
        }
    }
    m
}

#[test]
fn ver22_scan_loop_aggregates_sample() {
    let buf = sample(&SIGNED, 64);
    let reader = FileReader::new(&buf);
    let mut aggr = AggrHashTable::new();
    assert!(reader.scan_loop(&mut aggr));
    assert_eq!(table_stats(&aggr.linear_hash_table), reference(&buf));
    assert_eq!(check_result(&aggr).0, 8);
}

#[test]
fn ver22_home_slot_xors_twenty_bit_chunks() {
    assert_eq!(AggrHashTable::compute_hash_code((1u64 << 60, 0)), 1);
    assert_eq!(AggrHashTable::compute_hash_code((0, 1u64 << 56)), 1);
    assert_eq!(AggrHashTable::compute_hash_code((0x12345, 0)), 0x12345);
    assert_eq!(AggrHashTable::compute_hash_code((3 << 20, 0)), 3);
}

#[test]
fn batch_save_item_records_four_values_in_order() {
    let mut a = AggrHashTable::new();
    assert!(a.save_item_u64x2(b"ab", (0x6261, 0), 10));
    assert!(a.save_item_u64x2(b"cd", (0x6463, 0), 20));
    assert!(a.batch_save_item(
        b"ab", (0x6261, 0), 30, b"ab", (0x6261, 0), -40, b"cd", (0x6463, 0), 50, b"ab", (0x6261, 0), 5
    ));
    let ab = a.linear_hash_table[25185].data;
    let cd = a.linear_hash_table[25699].data;
    assert_eq!((ab.min, ab.max, ab.count, ab.sum), (-40, 30, 4, 5));
    assert_eq!((cd.min, cd.max, cd.count, cd.sum), (20, 50, 2, 70));
    assert!(a.batch_save_item(
        b"ab", (0x6261, 0), 1, b"cd", (0x6463, 0), 2, b"ef", (0x6665, 0), 3, b"gh", (0x6867, 0), 4
    ));
    let ab = a.linear_hash_table[25185].data;
    assert_eq!((ab.min, ab.max, ab.count, ab.sum), (-40, 30, 5, 6));
    assert!(a.batch_save_item(
        b"ab", (0x6261, 0), 2, b"cd", (0x6463, 0), 3, b"ef", (0x6665, 0), 4, b"gh", (0x6867, 0), 5
    ));
    let ab = a.linear_hash_table[25185].data;
    let gh = a.linear_hash_table[0x6867].data;
    assert_eq!((ab.min, ab.max, ab.count, ab.sum), (-40, 30, 6, 8));
    assert_eq!((gh.min, gh.max, gh.count, gh.sum), (4, 5, 2, 9));
}
