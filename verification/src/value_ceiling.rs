//! The value-ceiling strategy: rows grow until all but the first five
//! columns have passed a limit on the entries' magnitude. Every entry of the
//! populous half of a row beyond column 4 goes to the ledger, and is tested
//! on the spot for being of the form C(m, 2), C(m, 3) or C(m, 4).

use crate::binomial::binomial;
use crate::duplicates::{
    find_duplicates_in, is_stable_sort_of, lemma_detection_deterministic, lemma_records_push,
    records, reports, same_duplicates, Duplicate,
};
use crate::entry::{record_of, LedgerRecord, PascalEntry, ROW_LIMIT};
use crate::search::{first_above, lemma_first_above, SearchError, SearchReport};
use crate::solver::{find_choose_spec, is_choose_r, lemma_solver_fits};
use crate::uint::{uint_modulus, UInt};
use vstd::arithmetic::power::{lemma_pow1, lemma_pow_adds, lemma_pow_increases, pow};
use vstd::arithmetic::power2::lemma2_to64;
use vstd::prelude::*;

verus! {

/// The number of columns of the rolling row.
pub const ROW_WIDTH: usize = 500;

/// The largest power of ten that leaves the arithmetic ten bits of
/// headroom: 10^74 < 2^246.
pub const MAX_POWER_OF_TEN: usize = 74;

/// The number of columns still active after `row` rows: columns are given up
/// from the first one on whose entry has passed the limit.
pub open spec fn active_range(limit: nat, row: nat) -> nat
    decreases row,
{
    if row == 0 {
        ROW_WIDTH as nat
    } else {
        first_above(limit, row, 1, active_range(limit, (row - 1) as nat))
    }
}

/// Whether the entry at (`row`, `column`) goes to the ledger: it lies beyond
/// column 4 and in the first half of its row.
pub open spec fn is_candidate(row: nat, column: nat) -> bool {
    column > 4 && 2 * column <= row
}

/// The records of the candidates of a row in the columns from `from` down
/// to 1.
pub open spec fn candidate_records(row: nat, from: nat) -> Seq<LedgerRecord>
    decreases from,
{
    if from == 0 {
        Seq::empty()
    } else if is_candidate(row, from) {
        seq![record_of(row, from)] + candidate_records(row, (from - 1) as nat)
    } else {
        candidate_records(row, (from - 1) as nat)
    }
}

/// The ledger after `rows` rows of the search under `limit`.
pub open spec fn value_ledger(limit: nat, rows: nat) -> Seq<LedgerRecord>
    decreases rows,
{
    if rows == 0 {
        Seq::empty()
    } else {
        value_ledger(limit, (rows - 1) as nat) + candidate_records(
            rows,
            (active_range(limit, (rows - 1) as nat) - 1) as nat,
        )
    }
}

/// Whether `value` is C(m, 2), C(m, 3) or C(m, 4) for an `m` that the solver
/// finds.
pub open spec fn is_generalized(value: nat) -> bool {
    ||| find_choose_spec(value, 2) is Some
    ||| find_choose_spec(value, 3) is Some
    ||| find_choose_spec(value, 4) is Some
}

/// What a sighting stands for.
pub struct SightingRecord {
    /// The row of the entry.
    pub row: nat,
    /// The column of the entry.
    pub column: nat,
    /// The exact value of the entry.
    pub value: nat,
}

/// An entry that the solver recognised as a generalized duplicate.
#[derive(Clone, Copy, Debug, PartialEq, Eq)]
pub struct Sighting {
    /// The row of the entry.
    pub row: u64,
    /// The column of the entry.
    pub column: usize,
    /// The value of the entry.
    pub value: UInt,
}

impl View for Sighting {
    type V = SightingRecord;

    open spec fn view(&self) -> SightingRecord {
        SightingRecord { row: self.row as nat, column: self.column as nat, value: self.value@ }
    }
}

/// What a list of sightings stands for.
pub open spec fn sighted(sightings: Seq<Sighting>) -> Seq<SightingRecord> {
    sightings.map_values(|sighting: Sighting| sighting@)
}

/// The sightings of a row in the columns from `from` down to 1: the
/// candidates whose value is a generalized duplicate.
pub open spec fn row_sightings(row: nat, from: nat) -> Seq<SightingRecord>
    decreases from,
{
    if from == 0 {
        Seq::empty()
    } else if is_candidate(row, from) && is_generalized(binomial(row, from)) {
        seq![SightingRecord { row, column: from, value: binomial(row, from) }] + row_sightings(
            row,
            (from - 1) as nat,
        )
    } else {
        row_sightings(row, (from - 1) as nat)
    }
}

/// The sightings after `rows` rows of the search under `limit`.
pub open spec fn value_sightings(limit: nat, rows: nat) -> Seq<SightingRecord>
    decreases rows,
{
    if rows == 0 {
        Seq::empty()
    } else {
        value_sightings(limit, (rows - 1) as nat) + row_sightings(
            rows,
            (active_range(limit, (rows - 1) as nat) - 1) as nat,
        )
    }
}

/// Whether the rolling row holds the first `range` columns of `row`, none of
/// them above `limit`.
pub open spec fn holds_exact(values: Seq<UInt>, row: nat, range: nat, limit: nat) -> bool {
    forall|c: int|
        0 <= c < range && c < values.len() ==> (#[trigger] values[c])@ == binomial(row, c as nat)
            && binomial(row, c as nat) <= limit
}

/// The outcome of the value-ceiling search.
#[derive(Debug)]
pub struct ValueSearchReport {
    /// The number of rows that were generated.
    pub rows: u64,
    /// The ledger, sorted by key.
    pub ledger: Vec<PascalEntry>,
    /// The duplicates found in it.
    pub duplicates: Vec<Duplicate>,
    /// The entries that the solver recognised on the way.
    pub sightings: Vec<Sighting>,
}

/// 10^74 is below 2^246.
pub proof fn lemma_largest_limit()
    ensures
        pow(10, MAX_POWER_OF_TEN as nat) == 100000000000000000000000000000000000000000000000000000000000000000000000000int,
        1024 * pow(10, MAX_POWER_OF_TEN as nat) < uint_modulus(),
{
    lemma_pow1(10);
    lemma_pow_adds(10, 1, 1);
    assert(pow(10, 2) == 100int);
    lemma_pow_adds(10, 2, 2);
    assert(pow(10, 4) == 10000int);
    lemma_pow_adds(10, 4, 4);
    assert(pow(10, 8) == 100000000int);
    lemma_pow_adds(10, 8, 8);
    assert(pow(10, 16) == 10000000000000000int);
    lemma_pow_adds(10, 16, 16);
    assert(pow(10, 32) == 100000000000000000000000000000000int);
    lemma_pow_adds(10, 32, 32);
    assert(pow(10, 64) == 10000000000000000000000000000000000000000000000000000000000000000int);
    lemma_pow_adds(10, 64, 8);
    assert(pow(10, 72) == 1000000000000000000000000000000000000000000000000000000000000000000000000int);
    lemma_pow_adds(10, 72, 2);
}

/// The active range is at least 1 and never grows.
pub proof fn lemma_active_range(limit: nat, row: nat)
    ensures
        1 <= active_range(limit, row) <= ROW_WIDTH,
        row > 0 ==> active_range(limit, row) <= active_range(limit, (row - 1) as nat),
    decreases row,
{
    if row > 0 {
        lemma_active_range(limit, (row - 1) as nat);
        lemma_first_above(limit, row, 1, active_range(limit, (row - 1) as nat));
    }
}

/// The active range never grows from one row to a later one.
pub proof fn lemma_active_range_monotonic(limit: nat, earlier: nat, later: nat)
    requires
        earlier <= later,
    ensures
        active_range(limit, later) <= active_range(limit, earlier),
    decreases later,
{
    if earlier < later {
        lemma_active_range(limit, later);
        lemma_active_range_monotonic(limit, earlier, (later - 1) as nat);
    }
}

/// The search ends at one row: the first after which at most five columns
/// are active.
pub proof fn lemma_last_row_unique(limit: nat, rows_a: nat, rows_b: nat)
    requires
        rows_a >= 1,
        active_range(limit, rows_a) <= 5,
        active_range(limit, (rows_a - 1) as nat) > 5,
        rows_b >= 1,
        active_range(limit, rows_b) <= 5,
        active_range(limit, (rows_b - 1) as nat) > 5,
    ensures
        rows_a == rows_b,
{
    if rows_a < rows_b {
        lemma_active_range_monotonic(limit, rows_a, (rows_b - 1) as nat);
    }
    if rows_b < rows_a {
        lemma_active_range_monotonic(limit, rows_b, (rows_a - 1) as nat);
    }
}

/// Appending a sighting appends what it stands for.
proof fn lemma_sighted_push(sightings: Seq<Sighting>, sighting: Sighting)
    ensures
        sighted(sightings.push(sighting)) == sighted(sightings).push(sighting@),
{
    assert(sighted(sightings.push(sighting)) =~= sighted(sightings).push(sighting@));
}

/// Whether `value` is a generalized duplicate: C(m, 2), C(m, 3) or C(m, 4).
fn is_generalized_duplicate(value: UInt) -> (b: bool)
    requires
        192 * value@ < uint_modulus(),
    ensures
        b == is_generalized(value@),
{
    proof {
        crate::binomial::lemma_factorial_small();
        lemma_solver_fits(value@, 2);
        lemma_solver_fits(value@, 3);
        lemma_solver_fits(value@, 4);
    }
    is_choose_r(value, 2) || is_choose_r(value, 3) || is_choose_r(value, 4)
}

/// Turns the rolling row from row `row - 1` into row `row` in the columns
/// below `bound`, from the right, records the candidates and the sightings
/// among them, and returns the new range: the first column that has passed
/// the limit.
fn advance_row(
    pascal_row: &mut Vec<UInt>,
    bound: usize,
    row: u64,
    limit: UInt,
    ledger: &mut Vec<PascalEntry>,
    sightings: &mut Vec<Sighting>,
) -> (range: usize)
    requires
        1 <= row < ROW_LIMIT,
        1 <= bound <= ROW_WIDTH,
        old(pascal_row)@.len() == ROW_WIDTH,
        1 <= limit@,
        512 * limit@ < uint_modulus(),
        holds_exact(old(pascal_row)@, (row - 1) as nat, bound as nat, limit@),
    ensures
        final(pascal_row)@.len() == ROW_WIDTH,
        range == first_above(limit@, row as nat, 1, bound as nat),
        holds_exact(final(pascal_row)@, row as nat, range as nat, limit@),
        records(final(ledger)@) == records(old(ledger)@) + candidate_records(
            row as nat,
            (bound - 1) as nat,
        ),
        sighted(final(sightings)@) == sighted(old(sightings)@) + row_sightings(
            row as nat,
            (bound - 1) as nat,
        ),
{
    let ghost prev = (row - 1) as nat;
    let ghost this = row as nat;
    let ghost ledger_before = records(ledger@);
    let ghost sighted_before = sighted(sightings@);
    let mut range: usize = bound;
    let mut col: usize = bound - 1;
    proof {
        assert(binomial(prev, 0) == 1);
        assert(binomial(this, 0) == 1);
    }
    while col >= 1
        invariant
            1 <= row < ROW_LIMIT,
            prev == row - 1,
            this == row,
            1 <= bound <= ROW_WIDTH,
            col < bound,
            pascal_row@.len() == ROW_WIDTH,
            1 <= limit@,
            512 * limit@ < uint_modulus(),
            holds_exact(pascal_row@, prev, (col + 1) as nat, limit@),
            forall|c: int|
                col < c < bound ==> (#[trigger] pascal_row@[c])@ == binomial(this, c as nat),
            range == first_above(limit@, this, (col + 1) as nat, bound as nat),
            records(ledger@) + candidate_records(this, col as nat) =~= ledger_before
                + candidate_records(this, (bound - 1) as nat),
            sighted(sightings@) + row_sightings(this, col as nat) =~= sighted_before
                + row_sightings(this, (bound - 1) as nat),
        decreases col,
    {
        proof {
            assert(binomial(this, col as nat) == binomial(prev, (col - 1) as nat) + binomial(
                prev,
                col as nat,
            ));
        }
        let value = pascal_row[col].plus(pascal_row[col - 1]);
        pascal_row.set(col, value);
        if col > 4 && col as u64 <= row / 2 {
            if is_generalized_duplicate(value) {
                let sighting = Sighting { row, column: col, value };
                proof {
                    lemma_sighted_push(sightings@, sighting);
                    assert(sighted(sightings@).push(sighting@) + row_sightings(
                        this,
                        (col - 1) as nat,
                    ) =~= sighted(sightings@) + row_sightings(this, col as nat));
                }
                sightings.push(sighting);
            }
            let entry = PascalEntry::new(value.low_word(), row, col as u16);
            proof {
                lemma2_to64();
                lemma_records_push(ledger@, entry);
                assert(records(ledger@).push(record_of(this, col as nat)) + candidate_records(
                    this,
                    (col - 1) as nat,
                ) =~= records(ledger@) + candidate_records(this, col as nat));
            }
            ledger.push(entry);
        }
        if value.is_greater(&limit) {
            range = col;
        }
        col = col - 1;
    }
    proof {
        lemma_first_above(limit@, this, 1, bound as nat);
        assert(candidate_records(this, 0) =~= Seq::<LedgerRecord>::empty());
        assert(row_sightings(this, 0) =~= Seq::<SightingRecord>::empty());
    }
    range
}

/// The rolling row at row 0: a one in column 0, zeros beyond.
fn first_row() -> (pascal_row: Vec<UInt>)
    ensures
        pascal_row@.len() == ROW_WIDTH,
        forall|c: int| 0 <= c < ROW_WIDTH ==> (#[trigger] pascal_row@[c])@ == binomial(0, c as nat),
{
    let mut pascal_row: Vec<UInt> = Vec::new();
    pascal_row.push(UInt::from_u64(1));
    proof {
        assert(binomial(0, 0) == 1);
    }
    while pascal_row.len() < ROW_WIDTH
        invariant
            1 <= pascal_row@.len() <= ROW_WIDTH,
            forall|c: int|
                0 <= c < pascal_row@.len() ==> (#[trigger] pascal_row@[c])@ == binomial(
                    0,
                    c as nat,
                ),
        decreases ROW_WIDTH - pascal_row@.len(),
    {
        pascal_row.push(UInt::from_u64(0));
    }
    pascal_row
}

/// The state of a value-ceiling search between two rows. The search owns its
/// ledger until it hands it to the detector.
#[derive(Debug)]
pub struct ValueSearch {
    limit: UInt,
    row: u64,
    range: usize,
    pascal_row: Vec<UInt>,
    ledger: Vec<PascalEntry>,
}

impl ValueSearch {
    /// The limit of the search.
    pub closed spec fn spec_limit(&self) -> nat {
        self.limit@
    }

    /// The last row that was generated.
    pub closed spec fn spec_row(&self) -> nat {
        self.row as nat
    }

    /// The ledger so far.
    pub closed spec fn spec_ledger(&self) -> Seq<PascalEntry> {
        self.ledger@
    }

    /// The state that the search is in after its rows: the range is that of
    /// the limit and the row, the rolling row holds the active columns of the
    /// row, none of them above the limit, and the ledger holds the candidates
    /// of the rows so far.
    pub closed spec fn wf(&self) -> bool {
        &&& 1 <= self.limit@
        &&& 512 * self.limit@ < uint_modulus()
        &&& self.row < ROW_LIMIT
        &&& self.pascal_row@.len() == ROW_WIDTH
        &&& self.range == active_range(self.limit@, self.row as nat)
        &&& holds_exact(self.pascal_row@, self.row as nat, self.range as nat, self.limit@)
        &&& records(self.ledger@) == value_ledger(self.limit@, self.row as nat)
    }

    /// The search under `limit` at its start: row 0 is in place, every column
    /// is active, the ledger is empty.
    pub fn new(limit: UInt) -> (search: ValueSearch)
        requires
            1 <= limit@,
            512 * limit@ < uint_modulus(),
        ensures
            search.wf(),
            search.spec_limit() == limit@,
            search.spec_row() == 0,
            search.spec_ledger().len() == 0,
    {
        let pascal_row = first_row();
        let ledger: Vec<PascalEntry> = Vec::new();
        proof {
            assert(records(ledger@) =~= value_ledger(limit@, 0));
        }
        ValueSearch { limit, row: 0, range: ROW_WIDTH, pascal_row, ledger }
    }

    /// The search up to 10^`power_of_10` at its start. A power that leaves
    /// the arithmetic less than ten bits of headroom is refused.
    pub fn up_to_power_of_ten(power_of_10: usize) -> (outcome: Result<ValueSearch, SearchError>)
        ensures
            match outcome {
                Ok(search) => {
                    &&& power_of_10 <= MAX_POWER_OF_TEN
                    &&& search.wf()
                    &&& search.spec_limit() == pow(10, power_of_10 as nat)
                    &&& search.spec_row() == 0
                },
                Err(error) => power_of_10 > MAX_POWER_OF_TEN && error
                    == SearchError::PowerTooLarge,
            },
    {
        if power_of_10 > MAX_POWER_OF_TEN {
            return Err(SearchError::PowerTooLarge);
        }
        proof {
            lemma_largest_limit();
            lemma_pow_increases(10, power_of_10 as nat, MAX_POWER_OF_TEN as nat);
            vstd::arithmetic::power::lemma_pow_positive(10, power_of_10 as nat);
        }
        Ok(ValueSearch::new(UInt::from_u64(10).power(power_of_10 as u32)))
    }

    /// The limit of the search.
    pub fn limit(&self) -> (limit: UInt)
        ensures
            limit@ == self.spec_limit(),
    {
        self.limit
    }

    /// The last row that was generated.
    pub fn row(&self) -> (row: u64)
        ensures
            row == self.spec_row(),
    {
        self.row
    }

    /// The number of active columns.
    pub fn range(&self) -> (range: usize)
        requires
            self.wf(),
        ensures
            range == active_range(self.spec_limit(), self.spec_row()),
    {
        self.range
    }

    /// The number of records in the ledger.
    pub fn ledger_len(&self) -> (len: usize)
        ensures
            len == self.spec_ledger().len(),
    {
        self.ledger.len()
    }

    /// Whether the search is over: at most five columns are active.
    pub fn is_finished(&self) -> (over: bool)
        requires
            self.wf(),
        ensures
            over == (active_range(self.spec_limit(), self.spec_row()) <= 5),
    {
        self.range <= 5
    }

    /// Whether a record can tell the next row from the others.
    pub fn has_room(&self) -> (room: bool)
        ensures
            room == (self.spec_row() + 1 < ROW_LIMIT),
    {
        self.row < ROW_LIMIT - 1
    }

    /// Generates the next row: turns the rolling row into it from the right,
    /// gives up the columns from the first one on whose entry is above the
    /// limit, appends the row's candidates to the ledger and returns the
    /// sightings among them.
    pub fn advance(&mut self) -> (sightings: Vec<Sighting>)
        requires
            old(self).wf(),
            active_range(old(self).spec_limit(), old(self).spec_row()) > 5,
            old(self).spec_row() + 1 < ROW_LIMIT,
        ensures
            final(self).wf(),
            final(self).spec_limit() == old(self).spec_limit(),
            final(self).spec_row() == old(self).spec_row() + 1,
            records(final(self).spec_ledger()) == records(old(self).spec_ledger())
                + candidate_records(
                final(self).spec_row(),
                (active_range(old(self).spec_limit(), old(self).spec_row()) - 1) as nat,
            ),
            sighted(sightings@) == row_sightings(
                final(self).spec_row(),
                (active_range(old(self).spec_limit(), old(self).spec_row()) - 1) as nat,
            ),
    {
        let mut sightings: Vec<Sighting> = Vec::new();
        let row = self.row + 1;
        let ghost before = records(self.ledger@);
        proof {
            assert(sighted(sightings@) =~= Seq::<SightingRecord>::empty());
            lemma_active_range(self.limit@, self.row as nat);
        }
        let range = advance_row(
            &mut self.pascal_row,
            self.range,
            row,
            self.limit,
            &mut self.ledger,
            &mut sightings,
        );
        self.row = row;
        self.range = range;
        proof {
            assert(sighted(sightings@) =~= row_sightings(
                row as nat,
                (active_range(self.limit@, (row - 1) as nat) - 1) as nat,
            ));
        }
        sightings
    }

    /// Hands the ledger to the detector: the ledger sorted by key, and the
    /// duplicates in it.
    pub fn detect(self) -> (report: SearchReport)
        requires
            self.wf(),
        ensures
            is_stable_sort_of(
                records(report.ledger@),
                value_ledger(self.spec_limit(), self.spec_row()),
            ),
            reports(report.duplicates@, report.ledger@),
    {
        let mut ledger = self.ledger;
        proof {
            lemma_value_ledger_columns(self.limit@, self.row as nat);
            assert forall|i: int| 0 <= i < ledger@.len() implies (#[trigger] ledger@[i])@.column
                <= ledger@[i]@.row by {
                assert(records(ledger@)[i] == ledger@[i]@);
            }
        }
        let duplicates = find_duplicates_in(&mut ledger);
        SearchReport { ledger, duplicates }
    }
}

/// Whether `report` is the outcome of the value-ceiling search under
/// `limit`: the rows end with the first one after which at most five columns
/// are active; the ledger is that of the rows, sorted by key, with its
/// duplicates; the sightings are those of the rows.
pub open spec fn is_value_search_report(limit: nat, report: ValueSearchReport) -> bool {
    &&& 1 <= report.rows < ROW_LIMIT
    &&& active_range(limit, report.rows as nat) <= 5
    &&& active_range(limit, (report.rows - 1) as nat) > 5
    &&& is_stable_sort_of(records(report.ledger@), value_ledger(limit, report.rows as nat))
    &&& reports(report.duplicates@, report.ledger@)
    &&& sighted(report.sightings@) == value_sightings(limit, report.rows as nat)
}

/// The value-ceiling search is deterministic: two outcomes under one limit
/// end at the same row, hold the same ledger and report the same duplicates
/// and the same sightings.
pub proof fn lemma_value_search_deterministic(
    limit: nat,
    first: ValueSearchReport,
    second: ValueSearchReport,
)
    requires
        is_value_search_report(limit, first),
        is_value_search_report(limit, second),
    ensures
        first.rows == second.rows,
        first.ledger@ == second.ledger@,
        same_duplicates(first.duplicates@, second.duplicates@),
        sighted(first.sightings@) == sighted(second.sightings@),
{
    lemma_last_row_unique(limit, first.rows as nat, second.rows as nat);
    lemma_detection_deterministic(
        value_ledger(limit, first.rows as nat),
        first.ledger@,
        first.duplicates@,
        second.ledger@,
        second.duplicates@,
    );
}

/// The value-ceiling search up to 10^`power_of_10`: the rows until at most
/// five columns stay below the limit, then the detector on their ledger.
pub fn search_entry_limit(power_of_10: usize) -> (outcome: Result<ValueSearchReport, SearchError>)
    ensures
        match outcome {
            Ok(report) => power_of_10 <= MAX_POWER_OF_TEN && is_value_search_report(
                pow(10, power_of_10 as nat) as nat,
                report,
            ),
            Err(SearchError::PowerTooLarge) => power_of_10 > MAX_POWER_OF_TEN,
            Err(SearchError::RowOutOfRange) => {
                &&& power_of_10 <= MAX_POWER_OF_TEN
                &&& active_range(pow(10, power_of_10 as nat) as nat, (ROW_LIMIT - 1) as nat) > 5
            },
            Err(SearchError::RowLimitTooLarge) => false,
        },
{
    let mut search = match ValueSearch::up_to_power_of_ten(power_of_10) {
        Ok(search) => search,
        Err(error) => {
            return Err(error);
        },
    };
    let ghost limit = search.spec_limit();
    let mut sightings: Vec<Sighting> = Vec::new();
    proof {
        assert(sighted(sightings@) =~= value_sightings(limit, 0));
    }
    while !search.is_finished()
        invariant
            search.wf(),
            search.spec_limit() == limit,
            limit == pow(10, power_of_10 as nat),
            power_of_10 <= MAX_POWER_OF_TEN,
            search.spec_row() > 0 ==> active_range(limit, (search.spec_row() - 1) as nat) > 5,
            sighted(sightings@) == value_sightings(limit, search.spec_row()),
        decreases ROW_LIMIT - search.spec_row(),
    {
        if !search.has_room() {
            return Err(SearchError::RowOutOfRange);
        }
        let mut found = search.advance();
        let ghost earlier = sighted(sightings@);
        let ghost later = sighted(found@);
        sightings.append(&mut found);
        proof {
            assert(sighted(sightings@) =~= earlier + later);
        }
    }
    proof {
        lemma_active_range(limit, 0);
    }
    let rows = search.row();
    let report = search.detect();
    Ok(
        ValueSearchReport {
            rows,
            ledger: report.ledger,
            duplicates: report.duplicates,
            sightings,
        },
    )
}

/// The records of the candidates of a row are those of that row, in the
/// first half of it and beyond column 4.
pub proof fn lemma_candidate_records(row: nat, from: nat)
    ensures
        forall|i: int|
            0 <= i < candidate_records(row, from).len() ==> {
                &&& is_candidate(row, (#[trigger] candidate_records(row, from)[i]).column)
                &&& candidate_records(row, from)[i].column <= from
                &&& candidate_records(row, from)[i] == record_of(
                    row,
                    candidate_records(row, from)[i].column,
                )
            },
    decreases from,
{
    if from > 0 {
        lemma_candidate_records(row, (from - 1) as nat);
        let rest = candidate_records(row, (from - 1) as nat);
        assert forall|i: int| 0 <= i < candidate_records(row, from).len() implies {
            &&& is_candidate(row, (#[trigger] candidate_records(row, from)[i]).column)
            &&& candidate_records(row, from)[i].column <= from
            &&& candidate_records(row, from)[i] == record_of(
                row,
                candidate_records(row, from)[i].column,
            )
        } by {
            if is_candidate(row, from) {
                if i > 0 {
                    assert(candidate_records(row, from)[i] == rest[i - 1]);
                }
            }
        }
    }
}

/// Every record of the value-ceiling ledger stands for a candidate of a row
/// that was generated.
pub proof fn lemma_value_ledger_columns(limit: nat, rows: nat)
    ensures
        forall|i: int|
            0 <= i < value_ledger(limit, rows).len() ==> {
                &&& is_candidate(
                    (#[trigger] value_ledger(limit, rows)[i]).row,
                    value_ledger(limit, rows)[i].column,
                )
                &&& 1 <= value_ledger(limit, rows)[i].row <= rows
                &&& value_ledger(limit, rows)[i] == record_of(
                    value_ledger(limit, rows)[i].row,
                    value_ledger(limit, rows)[i].column,
                )
            },
    decreases rows,
{
    if rows > 0 {
        let shorter = value_ledger(limit, (rows - 1) as nat);
        let from = (active_range(limit, (rows - 1) as nat) - 1) as nat;
        let last = candidate_records(rows, from);
        lemma_value_ledger_columns(limit, (rows - 1) as nat);
        lemma_candidate_records(rows, from);
        assert forall|i: int| 0 <= i < value_ledger(limit, rows).len() implies {
            &&& is_candidate(
                (#[trigger] value_ledger(limit, rows)[i]).row,
                value_ledger(limit, rows)[i].column,
            )
            &&& 1 <= value_ledger(limit, rows)[i].row <= rows
            &&& value_ledger(limit, rows)[i] == record_of(
                value_ledger(limit, rows)[i].row,
                value_ledger(limit, rows)[i].column,
            )
        } by {
            if i < shorter.len() {
                assert(value_ledger(limit, rows)[i] == shorter[i]);
            } else {
                assert(value_ledger(limit, rows)[i] == last[i - shorter.len()]);
            }
        }
    }
}

} // verus!
