//! Monthly expense ledger parsing and positional reconciliation into a
//! year/month block spreadsheet layout, with bounded backup rotation.
pub mod address;
pub mod backup;
pub mod grid;
pub mod ledger;
pub mod lexical;
pub mod merge;
pub mod text;
