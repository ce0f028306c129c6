//! Spreadsheet utilities for tab- or comma-delimited tabular text.
//!
//! A table is parsed from a sequence of lines into a flat, row-major
//! buffer of typed cells, with numeric and symbolic indexing and
//! row-, column-, and single-direction cursors over the buffer.

pub mod cell;
pub mod iter;
pub mod parse;
pub mod table;

pub use cell::Cell;
pub use cell::CellValue;
pub use iter::Column;
pub use iter::Direction;
pub use iter::Iter;
pub use iter::Row;
pub use table::NumericIndex;
pub use table::Spreadsheet;
pub use table::SpreadsheetError;
pub use table::SymbolicIndex;
