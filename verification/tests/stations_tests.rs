use onebrc_rust::stations::{same_bytes, Stations};

#[test]
fn stations_record_keeps_statistics() {
    let mut st = Stations::new();
    assert!(st.record(b"Oslo", 15));
    assert!(st.record(b"Rome", -20));
    assert!(st.record(b"Oslo", -5));
    assert_eq!(st.entries.len(), 2);
    let oslo = &st.entries[0].stats;
    assert_eq!((oslo.min, oslo.max, oslo.count, oslo.sum), (-5, 15, 2, 10));
}

#[test]
fn stations_record_refuses_sum_overflow() {
    let mut st = Stations::new();
    assert!(st.record(b"Oslo", i64::MAX));
    assert!(!st.record(b"Oslo", 1));
    assert_eq!(st.entries[0].stats.count, 1);
}

#[test]
fn same_bytes_compares() {
    assert!(same_bytes(b"ab", b"ab"));
    assert!(!same_bytes(b"ab", b"abc"));
    assert!(!same_bytes(b"ab", b"ac"));
}
