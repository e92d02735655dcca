//! Utilities: searching, combinations and string casing.
pub mod iteration;
