use onebrc_rust::pages::{preload_pages, PAGE_STRIDE};

#[test]
fn preload_pages_of_one_page_reads_its_first_word() {
    let mut buf = vec![0u8; 64];
    buf[..8].copy_from_slice(&0x0102_0304_0506_0708u64.to_le_bytes());
    assert_eq!(preload_pages(&buf), 0x0102_0304_0506_0708);
}

#[test]
fn preload_pages_folds_every_page_with_xor() {
    let mut buf = vec![0u8; 2 * PAGE_STRIDE + 16];
    buf[..8].copy_from_slice(&0xFFu64.to_le_bytes());
    buf[PAGE_STRIDE..PAGE_STRIDE + 8].copy_from_slice(&0x0Fu64.to_le_bytes());
    buf[2 * PAGE_STRIDE..2 * PAGE_STRIDE + 8].copy_from_slice(&(-1i64).to_le_bytes());
    buf[8] = 0x77;
    assert_eq!(preload_pages(&buf), 0xF0 ^ -1i64);
}

#[test]
fn preload_pages_of_nothing_is_zero() {
    assert_eq!(preload_pages(&[]), 0);
}
