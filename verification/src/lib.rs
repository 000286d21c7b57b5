//! Decoder for tab-separated table exports: a single-pass scanner over lines
//! of text that yields a sequence of named tables, each with an ordered list
//! of column headers and an ordered list of data rows.

pub mod laws;
pub mod scan;
pub mod split;
