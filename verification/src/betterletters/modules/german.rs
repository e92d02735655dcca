//! German: umlauts and eszett.
pub mod machine;
pub mod processor;
pub mod special_characters;

pub use processor::German;
