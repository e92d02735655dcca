//! German: umlauts and eszett.
pub mod driver;
pub mod words;

pub use driver::GermanStage;
