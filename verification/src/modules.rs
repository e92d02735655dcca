//! Text processors that work on a string in place.
use vstd::prelude::*;

pub mod german;

verus! {

/// An error in a text processor.
#[derive(Debug)]
pub struct ProcessError;

/// The result of a text processor.
pub type ProcessResult = Result<(), ProcessError>;

/// A text processor, changing a string in place.
pub trait TextProcessor {
    /// What the processor makes of the text `input`, or `None` where it fails.
    spec fn processed(&self, input: Seq<char>) -> Option<Seq<char>>;

    /// Processes `input` in place.
    fn process(&self, input: &mut String) -> (r: ProcessResult)
        ensures
            r is Ok <==> self.processed(old(input)@) is Some,
            r is Ok ==> self.processed(old(input)@) == Some(final(input)@),
    ;
}

} // verus!
