//! Text processors that work on a string in place.
pub mod german;
pub mod symbols;
