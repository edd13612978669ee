//! The compact record of the ledger: an entry of the triangle that is worth
//! checking for a duplicate, as its position and the low 64 bits of its
//! value.

use crate::binomial::binomial;
use crate::exact::{exact_value, ExactValue};
use vstd::prelude::*;

verus! {

/// The number of rows that a record can tell apart: 2^48.
pub const ROW_LIMIT: u64 = 0x1_0000_0000_0000;

/// The size of a record in bytes.
pub const ENTRY_BYTES: usize = 16;

/// What a record of the ledger stands for.
pub struct LedgerRecord {
    /// The key: the entry's value modulo 2^64.
    pub value: u64,
    /// The row of the entry.
    pub row: nat,
    /// The column of the entry.
    pub column: nat,
}

/// The record of the entry at (`row`, `column`), keyed by the low 64 bits of
/// its value.
pub open spec fn record_of(row: nat, column: nat) -> LedgerRecord {
    LedgerRecord { value: (binomial(row, column) % 0x1_0000_0000_0000_0000) as u64, row, column }
}

/// A record of the ledger, in 16 bytes: the key, 48 bits of row and 16 bits
/// of column.
#[derive(Clone, Copy, Debug, PartialEq, Eq)]
pub struct PascalEntry {
    value: u64,
    row_lo: u16,
    row_hi: u32,
    col: u16,
}

impl View for PascalEntry {
    type V = LedgerRecord;

    closed spec fn view(&self) -> LedgerRecord {
        LedgerRecord {
            value: self.value,
            row: (self.row_lo as nat + 0x1_0000 * self.row_hi as nat),
            column: self.col as nat,
        }
    }
}

impl PascalEntry {
    /// The record of `row` and `col` under the key `value`.
    pub fn new(value: u64, row: u64, col: u16) -> (entry: PascalEntry)
        requires
            row < ROW_LIMIT,
        ensures
            entry@ == (LedgerRecord { value, row: row as nat, column: col as nat }),
    {
        let row_lo: u16 = (row & 0xffff) as u16;
        let row_hi: u32 = (row >> 16) as u32;
        proof {
            assert(row < 0x1_0000_0000_0000 ==> (row & 0xffff) == row % 0x1_0000 && (row >> 16)
                == row / 0x1_0000 && (row >> 16) < 0x1_0000_0000) by (bit_vector);
        }
        PascalEntry { value, row_lo, row_hi, col }
    }

    /// The key of the record.
    pub fn value(self) -> (value: u64)
        ensures
            value == self@.value,
    {
        self.value
    }

    /// The row of the record.
    pub fn row(self) -> (row: u64)
        ensures
            row == self@.row,
            row < ROW_LIMIT,
    {
        let lo: u64 = self.row_lo as u64;
        let hi: u64 = self.row_hi as u64;
        proof {
            assert(lo < 0x1_0000 && hi < 0x1_0000_0000 ==> (lo | hi << 16) == lo + 0x1_0000 * hi)
                by (bit_vector);
        }
        lo | hi << 16
    }

    /// The column of the record.
    pub fn col(self) -> (col: u16)
        ensures
            col == self@.column,
    {
        self.col
    }

    /// The exact value of the entry that the record stands for.
    pub fn full_value(self) -> (value: ExactValue)
        requires
            self@.column <= self@.row,
        ensures
            value@ == binomial(self@.row, self@.column),
    {
        exact_value(self.row(), self.col as u64)
    }

    /// Records are determined by what they stand for.
    pub proof fn lemma_view_injective(self, other: PascalEntry)
        requires
            self@ == other@,
        ensures
            self == other,
    {
    }
}

/// The memory that a ledger of `entry_count` records takes, in bytes.
pub fn ledger_bytes(entry_count: usize) -> (bytes: u128)
    ensures
        bytes == entry_count * ENTRY_BYTES,
{
    entry_count as u128 * ENTRY_BYTES as u128
}

} // verus!
