//! German, driven by the state machine that finds words and their possible special
//! characters.
pub use super::processor::German;
pub use super::processor::VALID_GERMAN_WORDS as WORDS;
