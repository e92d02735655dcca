//! Global and local ranges.
pub mod ranges;
