//! Extraction of string values from JSON documents.
//!
//! The library holds the verified logic: decoding of the separator given on
//! the command line, and the walk over a parsed document that selects the
//! strings to emit and frames them with the separator.

pub mod separator;
pub mod value;
pub mod walker;
