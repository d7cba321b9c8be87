use locatew::walk::{walk_line, DwordBits, Statistics};

#[test]
fn dwordbits_ok() {
    let mut bits = DwordBits::new(12u32);
    assert_eq!(bits.next(), Some(false));
    assert_eq!(bits.next(), Some(false));
    assert_eq!(bits.next(), Some(true));
    assert_eq!(bits.next(), Some(true));
    while let Some(bit) = bits.next() {
        assert_eq!(bit, false);
    }
}

#[test]
fn dwordbits_yields_thirty_two_bits() {
    let mut bits = DwordBits::new(u32::MAX);
    let mut count = 0;
    while let Some(bit) = bits.next() {
        assert!(bit);
        count += 1;
    }
    assert_eq!(count, 32);
    assert_eq!(bits.next(), None);
}

#[test]
fn walk_line_marks_directories() {
    let path = b"C:\\x".to_vec();
    assert_eq!(walk_line(&path, true), b"C:\\x\\".to_vec());
    assert_eq!(walk_line(&path, false), b"C:\\x".to_vec());
}

#[test]
fn statistics_account_entries() {
    let mut stats = Statistics::new();
    stats.record_entry(4, true);
    stats.record_entry(10, false);
    stats.record_entry(7, false);
    assert_eq!(stats.dirs, 1);
    assert_eq!(stats.files, 2);
    assert_eq!(stats.files_bytes, 17);
    assert_eq!(stats.db_size, 0);
    assert_eq!(stats.elapsed, 0);
}
