use num_bigint::BigUint;
use pascal::entry::{ledger_bytes, PascalEntry, ENTRY_BYTES, ROW_LIMIT};

#[test]
fn an_entry_gives_back_what_it_was_made_of() {
    let entry = PascalEntry::new(120, 16, 2);
    assert_eq!(entry.value(), 120);
    assert_eq!(entry.row(), 16);
    assert_eq!(entry.col(), 2);
}

#[test]
fn rows_beyond_16_bits_are_kept() {
    for row in [0u64, 1, 65535, 65536, 65537, 0x1234_5678, 0xffff_ffff, 0x1_0000_0000, ROW_LIMIT - 1]
    {
        let entry = PascalEntry::new(u64::MAX, row, 65535);
        assert_eq!(entry.row(), row);
        assert_eq!(entry.col(), 65535);
        assert_eq!(entry.value(), u64::MAX);
    }
}

#[test]
fn an_entry_takes_16_bytes() {
    assert_eq!(std::mem::size_of::<PascalEntry>(), ENTRY_BYTES);
    assert_eq!(ENTRY_BYTES, 16);
}

#[test]
fn ledger_bytes_is_count_times_size() {
    assert_eq!(ledger_bytes(0), 0);
    assert_eq!(ledger_bytes(1), 16);
    assert_eq!(ledger_bytes(65536), 1 << 20);
    assert_eq!(ledger_bytes(usize::MAX), usize::MAX as u128 * 16);
}

#[test]
fn full_value_is_the_exact_binomial() {
    let entry = PascalEntry::new(0, 100, 50);
    let expected = "100891344545564193334812497256".parse::<BigUint>().unwrap();
    assert_eq!(BigUint::new(entry.full_value().digits), expected);
    assert_eq!(BigUint::new(PascalEntry::new(7, 16, 2).full_value().digits), BigUint::from(120u8));
}
