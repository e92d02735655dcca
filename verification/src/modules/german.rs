//! German: umlauts and eszett, checked against a word list.
pub mod machine;
pub mod processor;
pub mod word;

pub use processor::German;
