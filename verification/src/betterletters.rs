//! Substituting alternative spellings of letters: German umlauts and eszett written as
//! `ue`, `oe`, `ae` and `ss`, and ASCII symbols written for their Unicode equivalents.
pub mod macros;
pub mod modules;
pub mod stages;
pub mod util;

pub use stages::{apply, Stage};
