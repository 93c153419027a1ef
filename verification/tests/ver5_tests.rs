use onebrc_rust::ver5::{aggregate_bytes, StateMachine};
use onebrc_rust::stations::Stations;
const SIGNED: [&str; 8] = ["12.3", "-1.5", "45.6", "-9.9", "70.0", "33.3", "10.1", "-2.0"];

fn sample(values: &[&str], lines: usize) -> Vec<u8> {
    let mut text = String::new();
    for i in 0..lines {
        text.push_str(&format!("Station_{:02};{}\n", i % 8, values[(i / 8 + i) % values.len()]));
    }
    text.into_bytes()
}

fn tenths(v: &str) -> i64 {
    let neg = v.starts_with('-');
    let digits: String = v.chars().filter(|c| c.is_ascii_digit()).collect();
    let x: i64 = digits.parse().unwrap();
    if neg { -x } else { x }
}

fn reference(buf: &[u8]) -> std::collections::BTreeMap<Vec<u8>, (i64, i64, u64, i64)> {
    let mut m = std::collections::BTreeMap::new();
    let text = std::str::from_utf8(buf).unwrap();
    for line in text.split_terminator('\n') {
        let (name, value) = line.split_once(';').unwrap();
        let v = tenths(value);
        let e = m.entry(name.as_bytes().to_vec()).or_insert((v, v, 0u64, 0i64));
        e.0 = e.0.min(v);
        e.1 = e.1.max(v);
        e.2 += 1;
        e.3 += v;
    }
    m
}
fn stations_stats(st: &Stations) -> std::collections::BTreeMap<Vec<u8>, (i64, i64, u64, i64)> {
    let mut m = std::collections::BTreeMap::new();
    for e in &st.entries {
        m.insert(e.name.clone(), (e.stats.min, e.stats.max, e.stats.count as u64, e.stats.sum));
    }
    m
}

#[test]
fn ver5_machine_splits_a_line() {
    let mut m = StateMachine::new();
    for &b in b"Oslo;-1.5" {
        assert!(m.accepts(b));
        assert_eq!(m.next(b), None);
    }
    assert_eq!(m.next(b'\n'), Some((4, -15)));
    assert_eq!(&m.name[..4], b"Oslo");
    assert_eq!(m.name_length, 0);
}

#[test]
fn ver5_machine_refuses_a_byte_below_zero_in_a_value() {
    let mut m = StateMachine::new();
    for &b in b"Oslo;1" {
        m.next(b);
    }
    assert!(!m.accepts(b' '));
    assert!(m.accepts(b'.'));
}

#[test]
fn ver5_aggregates_sample() {
    let buf = sample(&SIGNED, 64);
    let st = aggregate_bytes(&buf).expect("sample reads");
    assert_eq!(stations_stats(&st), reference(&buf));
}

#[test]
fn ver5_leaves_out_unfinished_last_line() {
    let st = aggregate_bytes(b"Oslo;1.5\nRome;2.0").expect("reads");
    let m = stations_stats(&st);
    assert_eq!(m.len(), 1);
    assert_eq!(m.get(&b"Oslo".to_vec()), Some(&(15, 15, 1, 15)));
}

#[test]
fn ver5_name_capacity() {
    let mut ok = vec![b'a'; 512];
    ok.extend_from_slice(b";1.0\n");
    assert!(aggregate_bytes(&ok).is_some());
    let mut long = vec![b'a'; 513];
    long.extend_from_slice(b";1.0\n");
    assert!(aggregate_bytes(&long).is_none());
}

#[test]
fn ver5_rejects_unreadable_value() {
    assert!(aggregate_bytes(b"Oslo;1 5\n").is_none());
    assert!(aggregate_bytes(b"Oslo;1.5\nRome;1 ").is_none());
}
