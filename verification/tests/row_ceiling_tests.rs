use num_bigint::BigUint;
use pascal::duplicates::Duplicate;
use pascal::row_ceiling::{row_limit_ledger, search_row_limit, MAX_ROW_LIMIT};
use pascal::search::SearchError;

fn positions(found: &[Duplicate]) -> Vec<((u64, u16), (u64, u16), BigUint)> {
    found
        .iter()
        .map(|pair| {
            (
                (pair.first.row(), pair.first.col()),
                (pair.second.row(), pair.second.col()),
                BigUint::new(pair.value.digits.clone()),
            )
        })
        .collect()
}

fn binomial(row: u64, column: u64) -> BigUint {
    let mut value = BigUint::from(1u8);
    for step in 0..column {
        value = value * BigUint::from(row - step) / BigUint::from(step + 1);
    }
    value
}

#[test]
fn seventeen_rows_hold_120_twice_and_3003_twice() {
    let report = search_row_limit(17).unwrap();
    assert_eq!(report.ledger.len(), 50);
    assert_eq!(
        positions(&report.duplicates),
        vec![
            ((10, 3), (16, 2), BigUint::from(120u8)),
            ((14, 6), (15, 5), BigUint::from(3003u16)),
        ]
    );
}

#[test]
fn sixteen_rows_miss_row_16() {
    let report = search_row_limit(16).unwrap();
    assert_eq!(positions(&report.duplicates), vec![((14, 6), (15, 5), BigUint::from(3003u16))]);
}

#[test]
fn eighty_rows() {
    let report = search_row_limit(80).unwrap();
    assert_eq!(report.ledger.len(), 1483);
    assert_eq!(
        positions(&report.duplicates),
        vec![
            ((10, 3), (16, 2), BigUint::from(120u8)),
            ((10, 4), (21, 2), BigUint::from(210u8)),
            ((22, 3), (56, 2), BigUint::from(1540u16)),
            ((14, 6), (15, 5), BigUint::from(3003u16)),
            ((14, 6), (78, 2), BigUint::from(3003u16)),
            ((15, 5), (78, 2), BigUint::from(3003u16)),
        ]
    );
}

#[test]
fn the_first_rows_in_order() {
    let ledger = row_limit_ledger(8);
    let listed: Vec<(u64, u64, u16)> =
        ledger.iter().map(|entry| (entry.value(), entry.row(), entry.col())).collect();
    assert_eq!(
        listed,
        vec![
            (2, 2, 1),
            (6, 4, 2),
            (10, 5, 2),
            (20, 6, 3),
            (15, 6, 2),
            (35, 7, 3),
            (21, 7, 2),
        ]
    );
}

#[test]
fn no_rows_no_entries() {
    assert!(row_limit_ledger(0).is_empty());
    assert!(row_limit_ledger(1).is_empty());
    assert!(row_limit_ledger(2).is_empty());
    let report = search_row_limit(1).unwrap();
    assert!(report.ledger.is_empty());
    assert!(report.duplicates.is_empty());
}

#[test]
fn keys_wrap_at_64_bits() {
    let ledger = row_limit_ledger(120);
    let modulus = BigUint::from(1u8) << 64;
    let mut wrapped = 0;
    for entry in &ledger {
        let exact = binomial(entry.row(), entry.col() as u64);
        assert_eq!(BigUint::from(entry.value()), &exact % &modulus);
        assert!(2 * entry.col() as u64 <= entry.row());
        if exact >= modulus {
            wrapped += 1;
        }
    }
    assert!(wrapped > 0);
}

#[test]
fn the_sorted_ledger_ascends() {
    let report = search_row_limit(60).unwrap();
    for pair in report.ledger.windows(2) {
        assert!(pair[0].value() <= pair[1].value());
    }
    let mut generated = row_limit_ledger(60);
    generated.sort_by_key(|entry| entry.value());
    assert_eq!(generated, report.ledger);
}

#[test]
fn a_row_limit_beyond_the_record_is_refused() {
    assert_eq!(search_row_limit(MAX_ROW_LIMIT + 1).err(), Some(SearchError::RowLimitTooLarge));
    assert_eq!(search_row_limit(u32::MAX).err(), Some(SearchError::RowLimitTooLarge));
    assert_eq!(MAX_ROW_LIMIT, 2 * 65535);
}

#[test]
fn two_row_searches_agree() {
    let first = search_row_limit(40).unwrap();
    let second = search_row_limit(40).unwrap();
    assert_eq!(first.ledger, second.ledger);
    assert_eq!(first.duplicates, second.duplicates);
}
