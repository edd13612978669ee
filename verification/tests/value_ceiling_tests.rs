use num_bigint::BigUint;
use pascal::search::SearchError;
use pascal::uint::UInt;
use pascal::value_ceiling::{
    search_entry_limit, Sighting, ValueSearch, ValueSearchReport, MAX_POWER_OF_TEN, ROW_WIDTH,
};

fn sightings(report: &ValueSearchReport) -> Vec<(u64, usize, u64)> {
    report
        .sightings
        .iter()
        .map(|sighting| (sighting.row, sighting.column, sighting.value.to_u64().unwrap()))
        .collect()
}

fn duplicates(report: &ValueSearchReport) -> Vec<((u64, u16), (u64, u16), BigUint)> {
    report
        .duplicates
        .iter()
        .map(|pair| {
            (
                (pair.first.row(), pair.first.col()),
                (pair.second.row(), pair.second.col()),
                BigUint::new(pair.value.digits.clone()),
            )
        })
        .collect()
}

#[test]
fn up_to_a_hundred_nothing_is_recorded() {
    let report = search_entry_limit(2).unwrap();
    assert_eq!(report.rows, 9);
    assert!(report.ledger.is_empty());
    assert!(report.duplicates.is_empty());
    assert!(report.sightings.is_empty());
}

#[test]
fn up_to_a_thousand_six_entries_and_no_duplicate() {
    let report = search_entry_limit(3).unwrap();
    assert_eq!(report.rows, 13);
    let listed: Vec<(u64, u64, u16)> =
        report.ledger.iter().map(|entry| (entry.value(), entry.row(), entry.col())).collect();
    assert_eq!(
        listed,
        vec![
            (252, 10, 5),
            (462, 11, 5),
            (792, 12, 5),
            (924, 12, 6),
            (1287, 13, 5),
            (1716, 13, 6),
        ]
    );
    assert!(report.duplicates.is_empty());
    assert!(report.sightings.is_empty());
}

#[test]
fn up_to_ten_thousand_3003_is_found_twice() {
    let report = search_entry_limit(4).unwrap();
    assert_eq!(report.rows, 19);
    assert_eq!(report.ledger.len(), 20);
    assert_eq!(duplicates(&report), vec![((14, 6), (15, 5), BigUint::from(3003u16))]);
    assert_eq!(sightings(&report), vec![(14, 6, 3003), (15, 5, 3003), (19, 5, 11628)]);
}

#[test]
fn up_to_a_million() {
    let report = search_entry_limit(6).unwrap();
    assert_eq!(report.rows, 44);
    assert_eq!(report.ledger.len(), 95);
    assert_eq!(duplicates(&report), vec![((14, 6), (15, 5), BigUint::from(3003u16))]);
    assert_eq!(
        sightings(&report),
        vec![(14, 6, 3003), (15, 5, 3003), (17, 8, 24310), (19, 5, 11628)]
    );
}

#[test]
fn the_limit_one_ends_after_the_first_row() {
    let report = search_entry_limit(0).unwrap();
    assert!(report.rows >= 1);
    assert!(report.ledger.is_empty());
}

#[test]
fn the_rows_under_a_limit_that_is_no_power_of_ten() {
    let mut search = ValueSearch::new(UInt::from_u64(3003));
    assert_eq!(search.limit(), UInt::from_u64(3003));
    assert_eq!(search.row(), 0);
    assert_eq!(search.range(), ROW_WIDTH);
    let mut found: Vec<Sighting> = vec![];
    while !search.is_finished() {
        assert!(search.has_room());
        let row = search.row();
        found.extend(search.advance());
        assert_eq!(search.row(), row + 1);
    }
    let expected: Vec<Sighting> = vec![
        Sighting { row: 14, column: 6, value: UInt::from_u64(3003) },
        Sighting { row: 15, column: 5, value: UInt::from_u64(3003) },
    ];
    assert_eq!(found, expected);
    assert_eq!(search.row(), 16);
    assert_eq!(search.range(), 5);
    assert_eq!(search.ledger_len(), 12);
    let report = search.detect();
    assert_eq!(report.ledger.len(), 12);
    assert_eq!(report.duplicates.len(), 1);
    assert_eq!((report.duplicates[0].first.row(), report.duplicates[0].first.col()), (14, 6));
    assert_eq!((report.duplicates[0].second.row(), report.duplicates[0].second.col()), (15, 5));
}

#[test]
fn the_range_shrinks_to_the_first_column_above_the_limit() {
    let mut search = ValueSearch::new(UInt::from_u64(100));
    let mut ranges: Vec<usize> = vec![];
    while !search.is_finished() {
        search.advance();
        ranges.push(search.range());
    }
    assert_eq!(ranges, vec![500, 500, 500, 500, 500, 500, 500, 500, 4]);
    assert_eq!(search.ledger_len(), 0);
}

#[test]
fn steps_give_what_the_whole_value_search_gives() {
    let mut search = ValueSearch::up_to_power_of_ten(6).unwrap();
    let mut found: Vec<Sighting> = vec![];
    while !search.is_finished() {
        found.extend(search.advance());
    }
    let whole = search_entry_limit(6).unwrap();
    assert_eq!(search.row(), whole.rows);
    assert_eq!(found, whole.sightings);
    let report = search.detect();
    assert_eq!(report.ledger, whole.ledger);
    assert_eq!(report.duplicates, whole.duplicates);
}

#[test]
fn the_power_of_ten_is_the_limit() {
    assert_eq!(ValueSearch::up_to_power_of_ten(0).unwrap().limit(), UInt::from_u64(1));
    assert_eq!(ValueSearch::up_to_power_of_ten(3).unwrap().limit(), UInt::from_u64(1000));
    assert_eq!(
        ValueSearch::up_to_power_of_ten(19).unwrap().limit(),
        UInt::from_u64(10_000_000_000_000_000_000)
    );
    assert_eq!(
        ValueSearch::up_to_power_of_ten(20).unwrap().limit(),
        UInt { limbs: [0x6bc7_5e2d_6310_0000, 5, 0, 0] }
    );
    assert_eq!(
        ValueSearch::up_to_power_of_ten(75).err(),
        Some(SearchError::PowerTooLarge)
    );
}

#[test]
fn a_power_beyond_the_width_is_refused() {
    assert_eq!(search_entry_limit(75).err(), Some(SearchError::PowerTooLarge));
    assert_eq!(search_entry_limit(usize::MAX).err(), Some(SearchError::PowerTooLarge));
    assert_eq!(MAX_POWER_OF_TEN, 74);
}

#[test]
fn two_value_searches_agree() {
    let first = search_entry_limit(5).unwrap();
    let second = search_entry_limit(5).unwrap();
    assert_eq!(first.rows, second.rows);
    assert_eq!(first.ledger, second.ledger);
    assert_eq!(first.duplicates, second.duplicates);
    assert_eq!(first.sightings, second.sightings);
}
