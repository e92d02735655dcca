//! The symbols stage.
use vstd::prelude::*;

use super::{Stage, StageResult};
use crate::strs::from_chars;

verus! {

/// The symbols stage: passes its input through unchanged.
#[derive(Debug, Clone, Copy)]
pub struct Symbols;

impl Stage for Symbols {
    open spec fn substitution(&self, input: Seq<char>) -> Option<Seq<char>> {
        Some(input)
    }

    fn substitute(&self, input: &str) -> (r: StageResult) {
        let cs = crate::strs::to_chars(input);
        Ok(from_chars(cs.as_slice()))
    }
}

} // verus!
