use pascal::column_ceiling::{search_col_limit, ColumnMatch, ColumnSearch, FIRST_ROW};
use pascal::uint::UInt;

fn listed(matches: &[ColumnMatch]) -> Vec<(usize, usize, u32, Option<u64>)> {
    matches
        .iter()
        .map(|found| {
            (found.row, found.column, found.order, found.other_row.map(|m| m.to_u64().unwrap()))
        })
        .collect()
}

#[test]
fn sixty_orders_leave_no_room() {
    let report = search_col_limit(60);
    assert_eq!(report.rows, 5);
    assert!(report.exhausted);
    assert!(report.matches.is_empty());
}

#[test]
fn forty_one_orders_end_at_row_28() {
    let report = search_col_limit(41);
    assert_eq!(report.rows, 28);
    assert!(report.exhausted);
    assert!(report.matches.is_empty());
}

#[test]
fn forty_orders_find_3003() {
    let report = search_col_limit(40);
    assert_eq!(report.rows, 344);
    assert!(report.exhausted);
    assert_eq!(
        listed(&report.matches),
        vec![
            (14, 6, 2, None),
            (14, 6, 5, Some(15)),
            (15, 5, 2, None),
            (17, 8, 2, None),
            (19, 5, 2, None),
        ]
    );
}

#[test]
fn the_cutoff_of_forty_orders() {
    let search = ColumnSearch::new(40);
    assert_eq!(search.cutoff(), UInt::from_u64(58695));
    assert_eq!(search.column_limit(), 40);
    assert_eq!(search.row(), FIRST_ROW);
    assert_eq!(search.range(), usize::MAX);
    assert!(!search.is_finished());
    assert!(!search.is_exhausted());
    assert_eq!(ColumnSearch::new(42).cutoff(), UInt::from_u64(2));
    assert_eq!(ColumnSearch::new(60).cutoff(), UInt::from_u64(0));
    assert_eq!(ColumnSearch::new(200).cutoff(), UInt::from_u64(0));
}

#[test]
fn the_cutoff_without_orders_leaves_three_bits() {
    let expected = UInt { limbs: [u64::MAX, u64::MAX, u64::MAX, u64::MAX >> 3] };
    assert_eq!(ColumnSearch::new(0).cutoff(), expected);
    assert_eq!(ColumnSearch::new(1).cutoff(), expected);
    assert_eq!(
        ColumnSearch::new(2).cutoff(),
        UInt { limbs: [u64::MAX, u64::MAX, u64::MAX, u64::MAX >> 6] }
    );
}

#[test]
fn steps_give_what_the_whole_search_gives() {
    let mut search = ColumnSearch::new(40);
    let mut matches: Vec<ColumnMatch> = vec![];
    while !search.is_finished() {
        let row = search.row();
        let found = search.advance();
        assert_eq!(search.row(), row + 1);
        for one in &found {
            assert_eq!(one.row, row + 1);
        }
        matches.extend(found);
    }
    let report = search_col_limit(40);
    assert_eq!(search.row(), report.rows);
    assert_eq!(search.is_exhausted(), report.exhausted);
    assert_eq!(matches, report.matches);
    assert_eq!(search.range(), 2);
}

#[test]
fn the_first_rows_of_a_wide_search() {
    let mut search = ColumnSearch::new(30);
    let mut matches: Vec<ColumnMatch> = vec![];
    while search.row() < 300 {
        matches.extend(search.advance());
    }
    assert!(!search.is_finished());
    assert_eq!(search.range(), 17);
    assert_eq!(
        listed(&matches),
        vec![
            (14, 6, 2, None),
            (14, 6, 5, Some(15)),
            (15, 5, 2, None),
            (17, 8, 2, None),
            (19, 5, 2, None),
        ]
    );
}

#[test]
fn two_column_searches_agree() {
    let first = search_col_limit(40);
    let second = search_col_limit(40);
    assert_eq!(first.rows, second.rows);
    assert_eq!(first.matches, second.matches);
}
