//! Zero-indexed spreadsheet-style cell addresses (examples: `A3`, `J18`).
//!
//! A cell address pairs a zero-based `(column, row)` coordinate with its
//! textual label: the column rendered in the bijective base-26 letter
//! system (`A`, ..., `Z`, `AA`, ...) followed by the one-based row number
//! in decimal.  The crate provides the letter codec, parsing and
//! formatting of labels, and row-major traversal over rectangular ranges.


pub mod chars;
pub mod error;
pub mod helper;
pub mod indexes;

pub use error::ParseError;
pub use helper::AlphaNumber;
pub use indexes::ExcelIndex;
pub use indexes::ExcelIndexRange;
