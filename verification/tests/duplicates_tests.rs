use num_bigint::BigUint;
use pascal::duplicates::{find_duplicates_in, Duplicate};
use pascal::entry::PascalEntry;

fn positions(found: &[Duplicate]) -> Vec<((u64, u16), (u64, u16))> {
    found
        .iter()
        .map(|pair| ((pair.first.row(), pair.first.col()), (pair.second.row(), pair.second.col())))
        .collect()
}

#[test]
fn an_empty_ledger_has_no_duplicates() {
    let mut ledger: Vec<PascalEntry> = vec![];
    assert!(find_duplicates_in(&mut ledger).is_empty());
    assert!(ledger.is_empty());
}

#[test]
fn a_single_entry_has_no_duplicates() {
    let mut ledger = vec![PascalEntry::new(120, 16, 2)];
    assert!(find_duplicates_in(&mut ledger).is_empty());
    assert_eq!(ledger, vec![PascalEntry::new(120, 16, 2)]);
}

#[test]
fn equal_values_are_reported_with_their_value() {
    let mut ledger = vec![
        PascalEntry::new(210, 10, 4),
        PascalEntry::new(120, 16, 2),
        PascalEntry::new(84, 9, 3),
        PascalEntry::new(120, 10, 3),
    ];
    let found = find_duplicates_in(&mut ledger);
    assert_eq!(positions(&found), vec![((16, 2), (10, 3))]);
    assert_eq!(BigUint::new(found[0].value.digits.clone()), BigUint::from(120u8));
}

#[test]
fn the_ledger_is_left_sorted_and_ties_keep_their_order() {
    let mut ledger = vec![
        PascalEntry::new(210, 10, 4),
        PascalEntry::new(120, 16, 2),
        PascalEntry::new(84, 9, 3),
        PascalEntry::new(120, 10, 3),
        PascalEntry::new(84, 9, 6),
    ];
    find_duplicates_in(&mut ledger);
    assert_eq!(
        ledger,
        vec![
            PascalEntry::new(84, 9, 3),
            PascalEntry::new(84, 9, 6),
            PascalEntry::new(120, 16, 2),
            PascalEntry::new(120, 10, 3),
            PascalEntry::new(210, 10, 4),
        ]
    );
}

#[test]
fn exact_values_are_compared_as_numbers() {
    let mut ledger = vec![
        PascalEntry::new(0, 100, 50),
        PascalEntry::new(0, 100, 49),
        PascalEntry::new(0, 101, 50),
        PascalEntry::new(0, 100, 50),
    ];
    let found = find_duplicates_in(&mut ledger);
    assert_eq!(positions(&found), vec![((100, 50), (100, 50))]);
}

#[test]
fn a_shared_key_alone_is_no_duplicate() {
    let mut ledger = vec![
        PascalEntry::new(7, 10, 3),
        PascalEntry::new(7, 11, 4),
        PascalEntry::new(7, 12, 5),
    ];
    assert!(find_duplicates_in(&mut ledger).is_empty());
}

#[test]
fn equal_values_under_different_keys_are_not_compared() {
    let mut ledger = vec![PascalEntry::new(1, 16, 2), PascalEntry::new(2, 10, 3)];
    assert!(find_duplicates_in(&mut ledger).is_empty());
}

#[test]
fn every_pair_of_a_run_is_reported_in_order() {
    let mut ledger = vec![
        PascalEntry::new(3003, 78, 2),
        PascalEntry::new(3003, 14, 6),
        PascalEntry::new(5, 5, 1),
        PascalEntry::new(3003, 15, 5),
        PascalEntry::new(3003, 15, 6),
    ];
    let found = find_duplicates_in(&mut ledger);
    assert_eq!(
        positions(&found),
        vec![((78, 2), (14, 6)), ((78, 2), (15, 5)), ((14, 6), (15, 5))]
    );
    for pair in &found {
        assert_eq!(BigUint::new(pair.value.digits.clone()), BigUint::from(3003u16));
    }
}

#[test]
fn an_entry_and_its_mirror_are_reported_when_both_are_in_the_ledger() {
    let mut ledger = vec![PascalEntry::new(120, 10, 3), PascalEntry::new(120, 10, 7)];
    let found = find_duplicates_in(&mut ledger);
    assert_eq!(positions(&found), vec![((10, 3), (10, 7))]);
}

#[test]
fn two_runs_report_the_same() {
    let ledger = vec![
        PascalEntry::new(3003, 78, 2),
        PascalEntry::new(120, 16, 2),
        PascalEntry::new(3003, 14, 6),
        PascalEntry::new(120, 10, 3),
        PascalEntry::new(3003, 15, 5),
    ];
    let mut first = ledger.clone();
    let mut second = ledger.clone();
    let found_first = find_duplicates_in(&mut first);
    let found_second = find_duplicates_in(&mut second);
    assert_eq!(found_first, found_second);
    assert_eq!(first, second);
    let mut again = first.clone();
    assert_eq!(find_duplicates_in(&mut again), found_first);
    assert_eq!(again, first);
}
