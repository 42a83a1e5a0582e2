//! Filtering of a result table held in an HTML page, line by line.
//!
//! The page is read as a sequence of lines. Rows of the table are
//! delimited by row-open and row-close markers; a row is kept when its
//! opening line holds a chosen substring. Everything from the
//! table-close marker on is passed through unchanged.

pub mod laws;
pub mod path;
pub mod text;
pub mod trim;
