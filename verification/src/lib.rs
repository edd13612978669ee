//! Search of Pascal's triangle for repeated binomial coefficients.
//!
//! The triangle's rows are generated under one of three bounds (on the
//! entries' magnitude, on the row index, or on the column index). Entries of
//! interest are kept in a ledger of compact records and compared pairwise by
//! their exact values, or tested directly for being of the form C(m, r).

pub mod binomial;
pub mod column_ceiling;
pub mod duplicates;
pub mod entry;
pub mod exact;
pub mod row_ceiling;
pub mod search;
pub mod search_range;
pub mod solver;
pub mod text;
pub mod uint;
pub mod value_ceiling;
