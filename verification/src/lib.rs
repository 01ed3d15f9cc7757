//! Building blocks for evaluating `SELECT` statements over CSV data:
//! scanning for line starts, locating a field within each line, matching a
//! four-byte pattern at those positions, converting decimal fields to
//! integers, and merging sorted row-index lists.

pub mod conv;
pub mod eval;
pub mod parse;
pub mod query;
pub mod scan;
pub mod util;
