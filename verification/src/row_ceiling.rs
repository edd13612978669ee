//! The row-ceiling strategy: every row below a limit, in 64-bit arithmetic
//! that wraps. The keys are the entries' values modulo 2^64; the detector
//! restores exactness.

use crate::binomial::{binomial, lemma_binomial_one, lemma_binomial_symmetric};
use crate::duplicates::{
    find_duplicates_in, is_stable_sort_of, lemma_detection_deterministic, lemma_records_push,
    records, reports, same_duplicates,
};
use crate::entry::{record_of, LedgerRecord, PascalEntry};
use crate::search::{SearchError, SearchReport};
use vstd::prelude::*;

verus! {

/// The largest row limit: twice the largest column of a record.
pub const MAX_ROW_LIMIT: u32 = 131070;

/// The top column of the lower part of a row: (max(3, row) - 1) / 2.
pub open spec fn top_column(row: nat) -> nat {
    if row <= 3 {
        1
    } else {
        ((row - 1) / 2) as nat
    }
}

/// The records of the columns from `from` down to 2 of a row.
pub open spec fn descending_records(row: nat, from: nat) -> Seq<LedgerRecord>
    decreases from,
{
    if from < 2 {
        Seq::empty()
    } else {
        seq![record_of(row, from)] + descending_records(row, (from - 1) as nat)
    }
}

/// The record of the middle column of an even row after the first.
pub open spec fn middle_record(row: nat) -> Seq<LedgerRecord> {
    if row > 0 && row % 2 == 0 {
        seq![record_of(row, row / 2)]
    } else {
        Seq::empty()
    }
}

/// The records of one row: the middle column of an even row, then the
/// columns from the top of the lower part down to 2.
pub open spec fn row_records(row: nat) -> Seq<LedgerRecord> {
    middle_record(row) + descending_records(row, top_column(row))
}

/// The ledger of the rows below `rows`, row by row.
pub open spec fn ledger_of_rows(rows: nat) -> Seq<LedgerRecord>
    decreases rows,
{
    if rows == 0 {
        Seq::empty()
    } else {
        ledger_of_rows((rows - 1) as nat) + row_records((rows - 1) as nat)
    }
}

/// The last column of a row that the rolling row holds: half the row, and
/// at least 1.
pub open spec fn reach(row: nat) -> nat {
    if row < 2 {
        1
    } else {
        row / 2
    }
}

/// Whether the rolling row holds the columns `from` to `to` of `row`,
/// modulo 2^64.
pub open spec fn holds_columns(values: Seq<u64>, row: nat, from: int, to: int) -> bool {
    forall|c: int|
        from <= c <= to && 0 <= c < values.len() ==> (#[trigger] values[c]) == record_of(
            row,
            c as nat,
        ).value
}

/// The sum of two keys, wrapping, is the key of the sum.
proof fn lemma_wrapping_sum(a: nat, b: nat)
    ensures
        vstd::wrapping::u64_specs::wrapping_add(
            (a % 0x1_0000_0000_0000_0000) as u64,
            (b % 0x1_0000_0000_0000_0000) as u64,
        ) == ((a + b) % 0x1_0000_0000_0000_0000) as u64,
        vstd::wrapping::u64_specs::wrapping_mul((a % 0x1_0000_0000_0000_0000) as u64, 2) == ((2
            * a) % 0x1_0000_0000_0000_0000) as u64,
{
    vstd::arithmetic::div_mod::lemma_add_mod_noop(a as int, b as int, 0x1_0000_0000_0000_0000);
    vstd::arithmetic::div_mod::lemma_add_mod_noop(a as int, a as int, 0x1_0000_0000_0000_0000);
}

/// Turns the rolling row from row `row - 1` into row `row`, and appends the
/// row's records to the ledger.
fn advance_row(pascal_row: &mut Vec<u64>, row: u64, ledger: &mut Vec<PascalEntry>)
    requires
        1 <= row < MAX_ROW_LIMIT,
        old(pascal_row)@.len() >= row / 2 + 2,
        holds_columns(old(pascal_row)@, (row - 1) as nat, 0, reach((row - 1) as nat) as int),
    ensures
        final(pascal_row)@.len() == old(pascal_row)@.len(),
        holds_columns(final(pascal_row)@, row as nat, 0, reach(row as nat) as int),
        records(final(ledger)@) == records(old(ledger)@) + row_records(row as nat),
{
    let ghost before = records(ledger@);
    let ghost prev = (row - 1) as nat;
    let ghost this = row as nat;
    let middle: usize = (row / 2) as usize;
    if row % 2 == 0 {
        let doubled = pascal_row[middle - 1].wrapping_mul(2);
        pascal_row.set(middle, doubled);
        let entry = PascalEntry::new(doubled, row, middle as u16);
        proof {
            lemma_binomial_symmetric(prev, middle as nat);
            lemma_records_push(ledger@, entry);
            assert(binomial(this, middle as nat) == 2 * binomial(prev, (middle - 1) as nat));
            lemma_wrapping_sum(binomial(prev, (middle - 1) as nat), 0);
        }
        ledger.push(entry);
    }
    proof {
        assert(records(ledger@) =~= before + middle_record(this));
    }
    let top: usize = if row <= 3 {
        1
    } else {
        ((row - 1) / 2) as usize
    };
    let mut col: usize = top;
    while col >= 2
        invariant
            1 <= row < MAX_ROW_LIMIT,
            prev == row - 1,
            this == row,
            middle == row / 2,
            top == top_column(this),
            1 <= col <= top,
            pascal_row@.len() == old(pascal_row)@.len(),
            pascal_row@.len() >= row / 2 + 2,
            pascal_row@[0] == old(pascal_row)@[0],
            top >= 2 ==> holds_columns(pascal_row@, prev, 0, col as int),
            holds_columns(pascal_row@, this, col + 1, top as int),
            row % 2 == 0 && middle > top ==> pascal_row@[middle as int] == record_of(
                this,
                middle as nat,
            ).value,
            records(ledger@) + descending_records(this, col as nat) =~= before + row_records(this),
        decreases col,
    {
        let sum = pascal_row[col].wrapping_add(pascal_row[col - 1]);
        pascal_row.set(col, sum);
        let entry = PascalEntry::new(sum, row, col as u16);
        proof {
            assert(binomial(this, col as nat) == binomial(prev, (col - 1) as nat) + binomial(
                prev,
                col as nat,
            ));
            lemma_wrapping_sum(binomial(prev, col as nat), binomial(prev, (col - 1) as nat));
            assert(sum == record_of(this, col as nat).value);
            lemma_records_push(ledger@, entry);
            assert(records(ledger@).push(record_of(this, col as nat)) + descending_records(
                this,
                (col - 1) as nat,
            ) =~= records(ledger@) + descending_records(this, col as nat));
        }
        ledger.push(entry);
        col = col - 1;
    }
    pascal_row.set(1, row);
    proof {
        lemma_binomial_one(this);
        assert(binomial(this, 0) == 1);
        assert(descending_records(this, col as nat) =~= Seq::<LedgerRecord>::empty());
        assert forall|c: int| 0 <= c <= reach(this) && 0 <= c < pascal_row@.len() implies (
        #[trigger] pascal_row@[c]) == record_of(this, c as nat).value by {
            if c == 0 {
                assert(binomial(prev, 0) == 1);
            }
        }
    }
}

/// The ledger of the row-ceiling strategy: the records of the rows below
/// `row_limit`, keyed modulo 2^64.
pub fn row_limit_ledger(row_limit: u32) -> (ledger: Vec<PascalEntry>)
    requires
        row_limit <= MAX_ROW_LIMIT,
    ensures
        records(ledger@) == ledger_of_rows(row_limit as nat),
{
    let limit: u64 = row_limit as u64;
    let width: usize = (row_limit / 2) as usize + 2;
    let mut pascal_row: Vec<u64> = Vec::new();
    while pascal_row.len() < width
        invariant
            pascal_row@.len() <= width,
            forall|c: int| 0 <= c < pascal_row@.len() ==> pascal_row@[c] == 0,
        decreases width - pascal_row@.len(),
    {
        pascal_row.push(0);
    }
    pascal_row.set(0, 1);
    let mut ledger: Vec<PascalEntry> = Vec::new();
    proof {
        assert(records(ledger@) =~= ledger_of_rows(0));
    }
    if limit == 0 {
        return ledger;
    }
    proof {
        assert(binomial(0, 0) == 1);
        assert(binomial(0, 1) == 0);
        assert(row_records(0) =~= Seq::<LedgerRecord>::empty()) by {
            assert(descending_records(0, 1) =~= Seq::<LedgerRecord>::empty());
        }
        assert(ledger_of_rows(1) =~= ledger_of_rows(0) + row_records(0));
        assert(records(ledger@) =~= ledger_of_rows(1));
    }
    let mut row: u64 = 1;
    while row < limit
        invariant
            limit == row_limit,
            row_limit <= MAX_ROW_LIMIT,
            1 <= row <= limit,
            pascal_row@.len() == width,
            width == row_limit / 2 + 2,
            holds_columns(pascal_row@, (row - 1) as nat, 0, reach((row - 1) as nat) as int),
            records(ledger@) == ledger_of_rows(row as nat),
        decreases limit - row,
    {
        advance_row(&mut pascal_row, row, &mut ledger);
        row = row + 1;
    }
    ledger
}

/// Whether `report` is the outcome of the row-ceiling search below
/// `row_limit`: the ledger of the rows, sorted by key, and its duplicates.
pub open spec fn is_row_search_report(row_limit: nat, report: SearchReport) -> bool {
    &&& is_stable_sort_of(records(report.ledger@), ledger_of_rows(row_limit))
    &&& reports(report.duplicates@, report.ledger@)
}

/// The row-ceiling search is deterministic: two outcomes under one limit
/// hold the same ledger and report the same duplicates.
pub proof fn lemma_row_search_deterministic(row_limit: nat, first: SearchReport, second: SearchReport)
    requires
        is_row_search_report(row_limit, first),
        is_row_search_report(row_limit, second),
    ensures
        first.ledger@ == second.ledger@,
        same_duplicates(first.duplicates@, second.duplicates@),
{
    lemma_detection_deterministic(
        ledger_of_rows(row_limit),
        first.ledger@,
        first.duplicates@,
        second.ledger@,
        second.duplicates@,
    );
}

/// The row-ceiling search: the rows below `row_limit`, then the detector on
/// their ledger. A limit above twice the largest column of a record is
/// refused.
pub fn search_row_limit(row_limit: u32) -> (outcome: Result<SearchReport, SearchError>)
    ensures
        match outcome {
            Ok(report) => row_limit <= MAX_ROW_LIMIT && is_row_search_report(
                row_limit as nat,
                report,
            ),
            Err(error) => row_limit > MAX_ROW_LIMIT && error == SearchError::RowLimitTooLarge,
        },
{
    if row_limit > MAX_ROW_LIMIT {
        return Err(SearchError::RowLimitTooLarge);
    }
    let mut ledger = row_limit_ledger(row_limit);
    proof {
        lemma_ledger_of_rows_columns(row_limit as nat);
        assert forall|i: int| 0 <= i < ledger@.len() implies (#[trigger] ledger@[i])@.column
            <= ledger@[i]@.row by {
            assert(records(ledger@)[i] == ledger@[i]@);
        }
    }
    let duplicates = find_duplicates_in(&mut ledger);
    Ok(SearchReport { ledger, duplicates })
}

/// Every record of the row-ceiling ledger stands in the lower half of a row
/// below the limit: twice its column is at most its row.
pub proof fn lemma_ledger_of_rows_columns(rows: nat)
    ensures
        forall|i: int|
            0 <= i < ledger_of_rows(rows).len() ==> {
                &&& 2 * (#[trigger] ledger_of_rows(rows)[i]).column <= ledger_of_rows(rows)[i].row
                &&& ledger_of_rows(rows)[i].row < rows
                &&& ledger_of_rows(rows)[i] == record_of(
                    ledger_of_rows(rows)[i].row,
                    ledger_of_rows(rows)[i].column,
                )
            },
    decreases rows,
{
    if rows > 0 {
        let row = (rows - 1) as nat;
        lemma_ledger_of_rows_columns(row);
        lemma_descending_records(row, top_column(row));
        let shorter = ledger_of_rows(row);
        let middle = middle_record(row);
        let lower = descending_records(row, top_column(row));
        assert forall|i: int| 0 <= i < ledger_of_rows(rows).len() implies {
            &&& 2 * (#[trigger] ledger_of_rows(rows)[i]).column <= ledger_of_rows(rows)[i].row
            &&& ledger_of_rows(rows)[i].row < rows
            &&& ledger_of_rows(rows)[i] == record_of(
                ledger_of_rows(rows)[i].row,
                ledger_of_rows(rows)[i].column,
            )
        } by {
            if i < shorter.len() {
                assert(ledger_of_rows(rows)[i] == shorter[i]);
            } else if i < shorter.len() + middle.len() {
                assert(ledger_of_rows(rows)[i] == middle[i - shorter.len()]);
            } else {
                assert(ledger_of_rows(rows)[i] == lower[i - shorter.len() - middle.len()]);
            }
        }
    }
}

/// The records of the columns from `from` down to 2 of a row are those of
/// that row and of columns between 2 and `from`.
pub proof fn lemma_descending_records(row: nat, from: nat)
    ensures
        forall|i: int|
            0 <= i < descending_records(row, from).len() ==> {
                &&& 2 <= (#[trigger] descending_records(row, from)[i]).column <= from
                &&& descending_records(row, from)[i].row == row
                &&& descending_records(row, from)[i] == record_of(
                    row,
                    descending_records(row, from)[i].column,
                )
            },
    decreases from,
{
    if from >= 2 {
        lemma_descending_records(row, (from - 1) as nat);
        let rest = descending_records(row, (from - 1) as nat);
        assert forall|i: int| 0 <= i < descending_records(row, from).len() implies {
            &&& 2 <= (#[trigger] descending_records(row, from)[i]).column <= from
            &&& descending_records(row, from)[i].row == row
            &&& descending_records(row, from)[i] == record_of(
                row,
                descending_records(row, from)[i].column,
            )
        } by {
            if i > 0 {
                assert(descending_records(row, from)[i] == rest[i - 1]);
            }
        }
    }
}

} // verus!
