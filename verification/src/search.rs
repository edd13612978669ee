//! What the searches share: the scan for the first column that has passed a
//! bound, what a search returns, and why one is refused.

use crate::binomial::binomial;
use crate::duplicates::Duplicate;
use crate::entry::PascalEntry;
use vstd::prelude::*;

verus! {

/// The least column from `from` up to `bound` whose entry in `row` is above
/// `limit`, or `bound` where there is none.
pub open spec fn first_above(limit: nat, row: nat, from: nat, bound: nat) -> nat
    decreases bound - from,
{
    if from >= bound {
        bound
    } else if binomial(row, from) > limit {
        from
    } else {
        first_above(limit, row, from + 1, bound)
    }
}

/// The first column above the limit lies between the ends of its range, and
/// no column before it is above the limit.
pub proof fn lemma_first_above(limit: nat, row: nat, from: nat, bound: nat)
    requires
        from <= bound,
    ensures
        from <= first_above(limit, row, from, bound) <= bound,
        forall|c: nat|
            from <= c < first_above(limit, row, from, bound) ==> #[trigger] binomial(row, c)
                <= limit,
        first_above(limit, row, from, bound) < bound ==> binomial(
            row,
            first_above(limit, row, from, bound),
        ) > limit,
    decreases bound - from,
{
    if from < bound && binomial(row, from) <= limit {
        lemma_first_above(limit, row, from + 1, bound);
    }
}

/// Why a search cannot be run as asked.
#[derive(Clone, Copy, Debug, PartialEq, Eq)]
pub enum SearchError {
    /// The power of ten is too large for 256 bits.
    PowerTooLarge,
    /// The row limit is too large for the 16 bits of a record's column.
    RowLimitTooLarge,
    /// The search ran out of the 48 bits of a record's row.
    RowOutOfRange,
}

/// The outcome of a search that keeps a ledger.
#[derive(Debug)]
pub struct SearchReport {
    /// The ledger, sorted by key.
    pub ledger: Vec<PascalEntry>,
    /// The duplicates found in it.
    pub duplicates: Vec<Duplicate>,
}

} // verus!
