//! The symbols processor.
use vstd::prelude::*;

use crate::modules::{ProcessResult, TextProcessor};

verus! {

/// The symbols processor: leaves its input unchanged.
#[derive(Debug, Clone, Copy)]
pub struct Symbols;

impl TextProcessor for Symbols {
    open spec fn processed(&self, input: Seq<char>) -> Option<Seq<char>> {
        Some(input)
    }

    fn process(&self, input: &mut String) -> (r: ProcessResult)
        ensures
            r is Ok,
            final(input)@ == old(input)@,
    {
        Ok(())
    }
}

} // verus!
