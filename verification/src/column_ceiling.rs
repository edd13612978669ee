//! The column-ceiling strategy: rows grow for as long as the fixed width
//! allows, and every entry beyond column 4 of the first half of a row is
//! tested on the spot against each order up to a limit: against order 2 by
//! the closed form, against the higher orders by the solver.
//!
//! The state of the search is explicit. One step generates one row, so that a
//! caller can report matches as they come; `search_col_limit` runs the steps
//! to the end.

use crate::binomial::{
    binomial, factorial, lemma_binomial_one, lemma_binomial_symmetric, lemma_factorial_positive,
};
use crate::solver::{
    find_choose_r, find_choose_spec, is_choose2, is_perfect_square, lemma_factorial_monotonic,
    lemma_pow2_limbs, lemma_solver_fits, scaled_target,
};
use crate::search::{first_above, lemma_first_above};
use crate::uint::{uint_modulus, UInt};
use vstd::arithmetic::power2::{lemma2_to64, lemma_pow2_strictly_increases, pow2};
use vstd::prelude::*;

verus! {

/// The row that the search starts from: its entries 1, 4, 6 are given.
pub const FIRST_ROW: usize = 4;

/// What a match stands for.
pub struct MatchRecord {
    /// The row of the entry.
    pub row: nat,
    /// The column of the entry.
    pub column: nat,
    /// The order `r` of the C(m, r) that the entry equals.
    pub order: nat,
    /// The `m`, where the solver found it; the closed form for order 2 finds
    /// none.
    pub other_row: Option<nat>,
}

/// An entry of the triangle that equals C(m, r) for an order `r` up to the
/// limit.
#[derive(Clone, Copy, Debug, PartialEq, Eq)]
pub struct ColumnMatch {
    /// The row of the entry.
    pub row: usize,
    /// The column of the entry.
    pub column: usize,
    /// The order `r` of the C(m, r) that the entry equals.
    pub order: u32,
    /// The `m`, where the solver found it; the closed form for order 2 finds
    /// none.
    pub other_row: Option<UInt>,
}

impl View for ColumnMatch {
    type V = MatchRecord;

    open spec fn view(&self) -> MatchRecord {
        MatchRecord {
            row: self.row as nat,
            column: self.column as nat,
            order: self.order as nat,
            other_row: match self.other_row {
                Some(m) => Some(m@),
                None => None,
            },
        }
    }
}

/// What a list of matches stands for.
pub open spec fn matched(matches: Seq<ColumnMatch>) -> Seq<MatchRecord> {
    matches.map_values(|found: ColumnMatch| found@)
}

/// The number of bits that the cutoff leaves free: two for each order up to
/// the limit and one more, and never less than the three that the closed
/// form for order 2 takes.
pub open spec fn headroom(column_limit: nat) -> nat {
    if column_limit == 0 {
        3
    } else {
        2 * column_limit + 1
    }
}

/// The cutoff: the largest value shifted right by the headroom, divided by
/// the factorial of the column limit. An entry above it is not followed any
/// further.
pub open spec fn cutoff_of(column_limit: nat) -> nat {
    ((uint_modulus() - 1) as nat / pow2(headroom(column_limit))) / factorial(column_limit)
}

/// The number of columns that are generated in `row`, of `range` active
/// ones: the first half of the row and its middle.
pub open spec fn row_bound(row: nat, range: nat) -> nat {
    if row / 2 + 1 < range {
        row / 2 + 1
    } else {
        range
    }
}

/// The range after `row`, given the range before it: the first column from 2
/// on whose entry is above the cutoff, where there is one.
pub open spec fn next_range(cutoff: nat, row: nat, range: nat) -> nat {
    let bound = row_bound(row, range);
    let first = first_above(cutoff, row, 2, bound);
    if first < bound {
        first
    } else {
        range
    }
}

/// The number of active columns after `row` rows: every column at first.
pub open spec fn column_range(cutoff: nat, row: nat) -> nat
    decreases row,
{
    if row <= FIRST_ROW {
        usize::MAX as nat
    } else {
        next_range(cutoff, row, column_range(cutoff, (row - 1) as nat))
    }
}

/// The matches of one entry of value `value` with the orders from `from` up
/// to `to`, as the solver finds them.
pub open spec fn order_matches(row: nat, column: nat, value: nat, from: nat, to: nat) -> Seq<
    MatchRecord,
>
    decreases to - from,
{
    if from >= to {
        Seq::empty()
    } else {
        match find_choose_spec(value, from) {
            Some(m) => seq![MatchRecord { row, column, order: from, other_row: Some(m) }]
                + order_matches(row, column, value, from + 1, to),
            None => order_matches(row, column, value, from + 1, to),
        }
    }
}

/// The end of the orders that an entry in `column` is tested against: the
/// orders from 3 on, below the column and up to the limit.
pub open spec fn order_end(column: nat, column_limit: nat) -> nat {
    if column < column_limit + 1 {
        column
    } else {
        column_limit + 1
    }
}

/// The matches of the entry at (`row`, `column`): order 2 by the closed
/// form, then the orders from 3 on.
pub open spec fn entry_matches(column_limit: nat, row: nat, column: nat) -> Seq<MatchRecord> {
    let value = binomial(row, column);
    let higher = order_matches(row, column, value, 3, order_end(column, column_limit));
    if is_perfect_square(8 * value + 1) {
        seq![MatchRecord { row, column, order: 2, other_row: None }] + higher
    } else {
        higher
    }
}

/// The matches of a row in the columns from `from` down to 2: those of the
/// entries beyond column 4 that are not above the cutoff.
pub open spec fn row_matches(column_limit: nat, cutoff: nat, row: nat, from: nat) -> Seq<
    MatchRecord,
>
    decreases from,
{
    if from < 2 {
        Seq::empty()
    } else if from > 4 && binomial(row, from) <= cutoff {
        entry_matches(column_limit, row, from) + row_matches(
            column_limit,
            cutoff,
            row,
            (from - 1) as nat,
        )
    } else {
        row_matches(column_limit, cutoff, row, (from - 1) as nat)
    }
}

/// The matches of row `row` of the search.
pub open spec fn matches_of_row(column_limit: nat, row: nat) -> Seq<MatchRecord> {
    let cutoff = cutoff_of(column_limit);
    let bound = row_bound(row, column_range(cutoff, (row - 1) as nat));
    row_matches(column_limit, cutoff, row, (bound - 1) as nat)
}

/// The matches of the rows after the first up to `rows`.
pub open spec fn matches_up_to(column_limit: nat, rows: nat) -> Seq<MatchRecord>
    decreases rows,
{
    if rows <= FIRST_ROW {
        Seq::empty()
    } else {
        matches_up_to(column_limit, (rows - 1) as nat) + matches_of_row(column_limit, rows)
    }
}

/// Whether the search is over after `row` rows: fewer than three columns are
/// active, or the row index is at its end.
pub open spec fn is_over(column_limit: nat, row: nat) -> bool {
    column_range(cutoff_of(column_limit), row) <= 2 || row + 1 >= usize::MAX
}

/// The range never grows from one row to a later one.
pub proof fn lemma_column_range_monotonic(cutoff: nat, earlier: nat, later: nat)
    requires
        earlier <= later,
    ensures
        column_range(cutoff, later) <= column_range(cutoff, earlier),
    decreases later,
{
    if earlier < later {
        let before = column_range(cutoff, (later - 1) as nat);
        lemma_column_range_monotonic(cutoff, earlier, (later - 1) as nat);
        if later > FIRST_ROW && row_bound(later, before) >= 2 {
            lemma_first_above(cutoff, later, 2, row_bound(later, before));
        }
    }
}

/// The search ends at one row: the first after which it is over.
pub proof fn lemma_last_row_unique(column_limit: nat, rows_a: nat, rows_b: nat)
    requires
        rows_a >= 1,
        is_over(column_limit, rows_a),
        !is_over(column_limit, (rows_a - 1) as nat),
        rows_b >= 1,
        is_over(column_limit, rows_b),
        !is_over(column_limit, (rows_b - 1) as nat),
    ensures
        rows_a == rows_b,
{
    let cutoff = cutoff_of(column_limit);
    if rows_a < rows_b {
        lemma_column_range_monotonic(cutoff, rows_a, (rows_b - 1) as nat);
    }
    if rows_b < rows_a {
        lemma_column_range_monotonic(cutoff, rows_b, (rows_a - 1) as nat);
    }
}

/// Appending a match appends what it stands for.
proof fn lemma_matched_push(matches: Seq<ColumnMatch>, found: ColumnMatch)
    ensures
        matched(matches.push(found)) == matched(matches).push(found@),
{
    assert(matched(matches.push(found)) =~= matched(matches).push(found@));
}

/// The state of a column-ceiling search between two rows.
#[derive(Debug)]
pub struct ColumnSearch {
    column_limit: u16,
    cutoff: UInt,
    row: usize,
    range: usize,
    pascal_row: Vec<UInt>,
}

impl ColumnSearch {
    /// The column limit of the search.
    pub closed spec fn spec_column_limit(&self) -> nat {
        self.column_limit as nat
    }

    /// The last row that was generated.
    pub closed spec fn spec_row(&self) -> nat {
        self.row as nat
    }

    /// The state that the search is in after its rows: the cutoff and the
    /// range are those of the column limit and the row, and the rolling row
    /// holds the active columns of the row, none of them above the cutoff.
    pub closed spec fn wf(&self) -> bool {
        let cutoff = self.cutoff@;
        let row = self.row as nat;
        let bound = row_bound(row, self.range as nat);
        &&& FIRST_ROW <= self.row
        &&& cutoff == cutoff_of(self.column_limit as nat)
        &&& 8 * (cutoff * factorial(self.column_limit as nat)) < uint_modulus()
        &&& self.range == column_range(cutoff, row)
        &&& self.range >= 2
        &&& 3 <= self.pascal_row@.len()
        &&& bound <= self.pascal_row@.len()
        &&& self.range > row / 2 ==> self.pascal_row@.len() == row / 2 + 1
        &&& forall|c: int|
            2 <= c < bound ==> (#[trigger] self.pascal_row@[c])@ == binomial(row, c as nat) && (row
                > FIRST_ROW ==> binomial(row, c as nat) <= cutoff)
    }

    /// The cutoff of a search.
    fn initial_cutoff(column_limit: u16) -> (cutoff: UInt)
        ensures
            cutoff@ == cutoff_of(column_limit as nat),
            8 * (cutoff@ * factorial(column_limit as nat)) < uint_modulus(),
    {
        let orders: u32 = if column_limit == 0 {
            1
        } else {
            column_limit as u32
        };
        let shift: u32 = 2 * orders + 1;
        let ghost limit = column_limit as nat;
        let ghost top = (uint_modulus() - 1) as nat;
        let ghost shifted = top / pow2(shift as nat);
        proof {
            lemma_pow2_limbs();
            lemma2_to64();
            vstd::arithmetic::power2::lemma_pow2_pos(shift as nat);
            if shift > 3 {
                lemma_pow2_strictly_increases(3, shift as nat);
            }
            vstd::arithmetic::div_mod::lemma_div_is_ordered_by_denominator(
                top as int,
                8,
                pow2(shift as nat) as int,
            );
            if shift >= 256 {
                if shift > 256 {
                    lemma_pow2_strictly_increases(256, shift as nat);
                }
                vstd::arithmetic::div_mod::lemma_basic_div(top as int, pow2(shift as nat) as int);
            }
            assert(factorial(1) == 1) by {
                reveal_with_fuel(factorial, 2);
            }
            assert(factorial(0) == 1);
            assert(8 * shifted < uint_modulus());
        }
        let mut cutoff = if shift >= 256 {
            UInt::from_u64(0)
        } else {
            UInt::max_value().shifted_right(shift)
        };
        let mut i: u32 = 1;
        while i < column_limit as u32
            invariant
                1 <= i,
                i <= column_limit || i == 1,
                shifted == top / pow2(headroom(limit)),
                8 * shifted < uint_modulus(),
                limit == column_limit,
                cutoff@ == shifted / factorial(i as nat),
            decreases column_limit - i,
        {
            i = i + 1;
            proof {
                let f = factorial((i - 1) as nat);
                lemma_factorial_positive((i - 1) as nat);
                vstd::arithmetic::div_mod::lemma_div_denominator(shifted as int, f as int, i as int);
                assert(factorial(i as nat) == i * f);
                assert(f * i == i * f) by (nonlinear_arith);
            }
            cutoff = cutoff.divided_by(UInt::from_u64(i as u64));
        }
        proof {
            let f = factorial(limit);
            lemma_factorial_positive(limit);
            reveal_with_fuel(factorial, 2);
            assert(cutoff@ == shifted / f);
            vstd::arithmetic::div_mod::lemma_fundamental_div_mod(shifted as int, f as int);
            vstd::arithmetic::div_mod::lemma_mod_bound(shifted as int, f as int);
            assert(cutoff@ * f <= shifted) by (nonlinear_arith)
                requires
                    shifted == f * (shifted / f) + shifted % f,
                    shifted % f >= 0,
                    cutoff@ == shifted / f,
            ;
        }
        cutoff
    }

    /// The search at its start: the entries of row 4 are in place, every
    /// column is active.
    pub fn new(column_limit: u16) -> (search: ColumnSearch)
        ensures
            search.wf(),
            search.spec_column_limit() == column_limit,
            search.spec_row() == FIRST_ROW,
    {
        let cutoff = Self::initial_cutoff(column_limit);
        let mut pascal_row: Vec<UInt> = Vec::new();
        pascal_row.push(UInt::from_u64(1));
        pascal_row.push(UInt::from_u64(4));
        pascal_row.push(UInt::from_u64(6));
        proof {
            assert(binomial(4, 2) == 6) by {
                reveal_with_fuel(binomial, 5);
            }
        }
        ColumnSearch { column_limit, cutoff, row: FIRST_ROW, range: usize::MAX, pascal_row }
    }

    /// The column limit of the search.
    pub fn column_limit(&self) -> (limit: u16)
        ensures
            limit == self.spec_column_limit(),
    {
        self.column_limit
    }

    /// The last row that was generated.
    pub fn row(&self) -> (row: usize)
        ensures
            row == self.spec_row(),
    {
        self.row
    }

    /// The number of active columns.
    pub fn range(&self) -> (range: usize)
        requires
            self.wf(),
        ensures
            range == column_range(cutoff_of(self.spec_column_limit()), self.spec_row()),
    {
        self.range
    }

    /// The cutoff of the search.
    pub fn cutoff(&self) -> (cutoff: UInt)
        requires
            self.wf(),
        ensures
            cutoff@ == cutoff_of(self.spec_column_limit()),
    {
        self.cutoff
    }

    /// Whether the search is over: fewer than three columns are active, or
    /// the row index is at its end.
    pub fn is_finished(&self) -> (over: bool)
        requires
            self.wf(),
        ensures
            over == is_over(self.spec_column_limit(), self.spec_row()),
    {
        self.range <= 2 || self.row >= usize::MAX - 1
    }

    /// Whether the search ended for want of bits: fewer than three columns
    /// are active.
    pub fn is_exhausted(&self) -> (exhausted: bool)
        requires
            self.wf(),
        ensures
            exhausted == (column_range(cutoff_of(self.spec_column_limit()), self.spec_row())
                <= 2),
    {
        self.range <= 2
    }

    /// Tests one entry against every order: against order 2 by the closed
    /// form, against the orders from 3 on, below the column and up to the
    /// limit, by the solver.
    fn test_entry(&self, row: usize, column: usize, value: UInt, matches: &mut Vec<ColumnMatch>)
        requires
            value@ == binomial(row as nat, column as nat),
            value@ <= self.cutoff@,
            8 * (self.cutoff@ * factorial(self.column_limit as nat)) < uint_modulus(),
        ensures
            matched(final(matches)@) == matched(old(matches)@) + entry_matches(
                self.column_limit as nat,
                row as nat,
                column as nat,
            ),
    {
        let ghost before = matched(matches@);
        let ghost limit = self.column_limit as nat;
        let ghost here = row as nat;
        let ghost col = column as nat;
        proof {
            lemma_factorial_positive(limit);
            assert(8 * value@ + 1 < uint_modulus()) by (nonlinear_arith)
                requires
                    value@ <= self.cutoff@,
                    factorial(limit) >= 1,
                    8 * (self.cutoff@ * factorial(limit)) < uint_modulus(),
            ;
        }
        if is_choose2(value) {
            let found = ColumnMatch { row, column, order: 2, other_row: None };
            proof {
                lemma_matched_push(matches@, found);
            }
            matches.push(found);
        }
        let end: usize = if column < self.column_limit as usize + 1 {
            column
        } else {
            self.column_limit as usize + 1
        };
        let ghost tested = matched(matches@);
        let mut order: usize = 3;
        proof {
            assert(tested + order_matches(here, col, value@, 3, end as nat) =~= before
                + entry_matches(limit, here, col));
        }
        while order < end
            invariant
                3 <= order,
                end == order_end(col, limit),
                limit == self.column_limit,
                here == row,
                col == column,
                value@ == binomial(here, col),
                value@ <= self.cutoff@,
                8 * (self.cutoff@ * factorial(limit)) < uint_modulus(),
                matched(matches@) + order_matches(here, col, value@, order as nat, end as nat)
                    =~= before + entry_matches(limit, here, col),
            decreases end - order,
        {
            proof {
                lemma_factorial_monotonic(order as nat, limit);
                assert(8 * scaled_target(value@, order as nat) < uint_modulus())
                    by (nonlinear_arith)
                    requires
                        value@ <= self.cutoff@,
                        factorial(order as nat) <= factorial(limit),
                        scaled_target(value@, order as nat) == value@ * factorial(order as nat),
                        8 * (self.cutoff@ * factorial(limit)) < uint_modulus(),
                ;
                lemma_solver_fits(value@, order as nat);
            }
            match find_choose_r(value, order as u32) {
                Some(m) => {
                    let found = ColumnMatch { row, column, order: order as u32, other_row: Some(m) };
                    proof {
                        lemma_matched_push(matches@, found);
                        assert(matched(matches@).push(found@) + order_matches(
                            here,
                            col,
                            value@,
                            order as nat + 1,
                            end as nat,
                        ) =~= matched(matches@) + order_matches(
                            here,
                            col,
                            value@,
                            order as nat,
                            end as nat,
                        ));
                    }
                    matches.push(found);
                },
                None => {},
            }
            order = order + 1;
        }
    }

    /// Generates the next row: turns the rolling row into it from the right,
    /// gives up the columns from the first one on whose entry is above the
    /// cutoff, and returns the matches of the row's entries.
    pub fn advance(&mut self) -> (matches: Vec<ColumnMatch>)
        requires
            old(self).wf(),
            !is_over(old(self).spec_column_limit(), old(self).spec_row()),
        ensures
            final(self).wf(),
            final(self).spec_column_limit() == old(self).spec_column_limit(),
            final(self).spec_row() == old(self).spec_row() + 1,
            matched(matches@) == matches_of_row(
                final(self).spec_column_limit(),
                final(self).spec_row(),
            ),
    {
        let row: usize = self.row + 1;
        let before: usize = self.range;
        let bound: usize = if row / 2 + 1 < before {
            row / 2 + 1
        } else {
            before
        };
        let ghost limit = self.column_limit as nat;
        let ghost cutoff = self.cutoff@;
        let ghost prev = self.row as nat;
        let ghost this = row as nat;
        let ghost old_bound = row_bound(prev, before as nat);
        let ghost old_row = self.pascal_row@;
        let mut matches: Vec<ColumnMatch> = Vec::new();
        let mut range: usize = before;
        let mut col: usize = bound - 1;
        if row % 2 == 0 && row / 2 < before {
            self.pascal_row.push(UInt::from_u64(0));
        }
        proof {
            lemma_pow2_limbs();
            lemma_factorial_positive(limit);
            assert(8 * cutoff < uint_modulus()) by (nonlinear_arith)
                requires
                    factorial(limit) >= 1,
                    8 * (cutoff * factorial(limit)) < uint_modulus(),
            ;
            assert(matched(matches@) + row_matches(limit, cutoff, this, col as nat) =~= row_matches(
                limit,
                cutoff,
                this,
                (bound - 1) as nat,
            ));
            assert(binomial(4, 2) == 6) by {
                reveal_with_fuel(binomial, 5);
            }
        }
        while col >= 2
            invariant
                row == self.row + 1,
                self.column_limit == old(self).column_limit,
                self.cutoff == old(self).cutoff,
                self.row == old(self).row,
                self.range == old(self).range,
                FIRST_ROW <= self.row,
                row < usize::MAX,
                limit == self.column_limit,
                cutoff == self.cutoff@,
                prev == self.row,
                this == row,
                before == self.range,
                before > 2,
                bound == row_bound(this, before as nat),
                old_bound == row_bound(prev, before as nat),
                old_row == old(self).pascal_row@,
                1 <= col < bound,
                binomial(4, 2) == 6,
                8 * cutoff < uint_modulus(),
                8 * (cutoff * factorial(limit)) < uint_modulus(),
                3 <= old_row.len(),
                old_bound <= old_row.len(),
                before > prev / 2 ==> old_row.len() == prev / 2 + 1,
                forall|c: int|
                    2 <= c < old_bound ==> (#[trigger] old_row[c])@ == binomial(prev, c as nat) && (
                    prev > FIRST_ROW ==> binomial(prev, c as nat) <= cutoff),
                self.pascal_row@.len() == if row % 2 == 0 && row / 2 < before {
                    old_row.len() + 1
                } else {
                    old_row.len()
                },
                bound <= self.pascal_row@.len(),
                forall|c: int|
                    0 <= c <= col && c < old_row.len() ==> (#[trigger] self.pascal_row@[c])
                        == old_row[c],
                forall|c: int|
                    col < c < bound ==> (#[trigger] self.pascal_row@[c])@ == binomial(
                        this,
                        c as nat,
                    ),
                range == if first_above(cutoff, this, (col + 1) as nat, bound as nat) < bound {
                    first_above(cutoff, this, (col + 1) as nat, bound as nat)
                } else {
                    before as nat
                },
                matched(matches@) + row_matches(limit, cutoff, this, col as nat) =~= row_matches(
                    limit,
                    cutoff,
                    this,
                    (bound - 1) as nat,
                ),
            decreases col,
        {
            proof {
                assert(binomial(this, col as nat) == binomial(prev, (col - 1) as nat) + binomial(
                    prev,
                    col as nat,
                ));
                lemma_binomial_one(prev);
                lemma2_to64();
            }
            let value = if 2 * col == row {
                proof {
                    lemma_binomial_symmetric(prev, col as nat);
                    assert(self.pascal_row@[col - 1] == old_row[col - 1]);
                }
                self.pascal_row[col - 1].times(UInt::from_u64(2))
            } else if col == 2 {
                proof {
                    assert(self.pascal_row@[2] == old_row[2]);
                }
                self.pascal_row[2].plus(UInt::from_u64((row - 1) as u64))
            } else {
                proof {
                    assert(self.pascal_row@[col as int] == old_row[col as int]);
                    assert(self.pascal_row@[col - 1] == old_row[col - 1]);
                }
                self.pascal_row[col].plus(self.pascal_row[col - 1])
            };
            self.pascal_row.set(col, value);
            if value.is_greater(&self.cutoff) {
                range = col;
            } else if col > 4 {
                self.test_entry(row, col, value, &mut matches);
            }
            col = col - 1;
        }
        proof {
            lemma_first_above(cutoff, this, 2, bound as nat);
            assert(row_matches(limit, cutoff, this, 1) =~= Seq::<MatchRecord>::empty());
        }
        self.row = row;
        self.range = range;
        matches
    }
}

/// The outcome of the column-ceiling search.
#[derive(Debug)]
pub struct ColumnSearchReport {
    /// The last row that was generated.
    pub rows: usize,
    /// Whether the search ended for want of bits, with fewer than three
    /// columns active.
    pub exhausted: bool,
    /// The matches, in the order in which they were found.
    pub matches: Vec<ColumnMatch>,
}

/// Whether `report` is the outcome of the column-ceiling search for the
/// orders up to `column_limit`: the rows end with the first one after which
/// the search is over, and the matches are those of the rows.
pub open spec fn is_column_search_report(column_limit: nat, report: ColumnSearchReport) -> bool {
    &&& report.rows > FIRST_ROW
    &&& is_over(column_limit, report.rows as nat)
    &&& !is_over(column_limit, (report.rows - 1) as nat)
    &&& report.exhausted == (column_range(cutoff_of(column_limit), report.rows as nat) <= 2)
    &&& matched(report.matches@) == matches_up_to(column_limit, report.rows as nat)
}

/// The column-ceiling search is deterministic: two outcomes under one column
/// limit end at the same row, for the same reason, with the same matches.
pub proof fn lemma_column_search_deterministic(
    column_limit: nat,
    first: ColumnSearchReport,
    second: ColumnSearchReport,
)
    requires
        is_column_search_report(column_limit, first),
        is_column_search_report(column_limit, second),
    ensures
        first.rows == second.rows,
        first.exhausted == second.exhausted,
        matched(first.matches@) == matched(second.matches@),
{
    lemma_last_row_unique(column_limit, first.rows as nat, second.rows as nat);
}

/// The column-ceiling search for the orders up to `column_limit`: row after
/// row from row 5 on, until fewer than three columns are active.
pub fn search_col_limit(column_limit: u16) -> (report: ColumnSearchReport)
    ensures
        is_column_search_report(column_limit as nat, report),
{
    let mut search = ColumnSearch::new(column_limit);
    let mut matches: Vec<ColumnMatch> = Vec::new();
    proof {
        assert(matched(matches@) =~= matches_up_to(column_limit as nat, FIRST_ROW as nat));
    }
    while !search.is_finished()
        invariant
            search.wf(),
            search.spec_column_limit() == column_limit,
            search.spec_row() >= FIRST_ROW,
            search.spec_row() > FIRST_ROW ==> !is_over(
                column_limit as nat,
                (search.spec_row() - 1) as nat,
            ),
            matched(matches@) == matches_up_to(column_limit as nat, search.spec_row()),
        decreases usize::MAX - search.spec_row(),
    {
        let mut found = search.advance();
        let ghost earlier = matched(matches@);
        let ghost later = matched(found@);
        matches.append(&mut found);
        proof {
            assert(matched(matches@) =~= earlier + later);
        }
    }
    let rows = search.row();
    let exhausted = search.is_exhausted();
    ColumnSearchReport { rows, exhausted, matches }
}

} // verus!
