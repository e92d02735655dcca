//! Replacing inputs with a fixed string, taken verbatim.
use vstd::prelude::*;

use crate::actions::replace::unescaped;
use crate::actions::{Action, ActionError};
use crate::scope::ScopeContext;

verus! {

/// An error that can occur when creating a replacement.
#[derive(Debug, PartialEq, Eq)]
pub enum ReplacementCreationError {
    /// The replacement contains invalid escape sequences.
    InvalidEscapeSequences(String),
}

impl ReplacementCreationError {
    /// What the error says.
    pub fn to_string(&self) -> (r: String)
        ensures
            r@ == match self {
                ReplacementCreationError::InvalidEscapeSequences(s) => "Contains invalid escape sequences: '"@ + s@ + "'"@,
            },
    {
        match self {
            ReplacementCreationError::InvalidEscapeSequences(s) => crate::strs::framed(
                "Contains invalid escape sequences: '",
                s.as_str(),
                "'",
            ),
        }
    }
}

/// Replaces input with a fixed string.
#[derive(Debug, Clone, PartialEq, Eq, Default)]
pub struct Replacement(String);

impl Replacement {
    /// The replacement text, escape sequences processed.
    pub closed spec fn text(&self) -> Seq<char> {
        self.0@
    }

    /// Creates a new replacement from an owned string.
    ///
    /// Escape sequences are accepted and processed, with invalid escape sequences
    /// returning an [`Err`].
    pub fn try_from(replacement: String) -> (r: Result<Self, ReplacementCreationError>)
        ensures
            match r {
                Ok(rep) => unescaped(replacement@) == Some(rep.text()),
                Err(ReplacementCreationError::InvalidEscapeSequences(s)) => unescaped(replacement@) is None
                    && s@ == replacement@,
            },
    {
        match crate::actions::replace::unescape_str(replacement.as_str()) {
            Some(res) => Ok(Replacement(res)),
            None => Err(ReplacementCreationError::InvalidEscapeSequences(replacement)),
        }
    }
}

impl Action for Replacement {
    open spec fn acts(&self, input: Seq<char>) -> Seq<char> {
        self.text()
    }

    /// The replacement text, whatever the input.
    fn act(&self, input: &str) -> (r: String) {
        self.0.clone()
    }

    open spec fn acts_in_context(&self, input: Seq<char>, context: ScopeContext) -> Option<Seq<char>> {
        Some(self.acts(input))
    }

    /// Context is not needed: acts as [`Action::act`] does.
    fn act_with_context(&self, input: &str, context: &ScopeContext) -> (r: Result<String, ActionError>)
        ensures
            r matches Ok(s) && s@ == self.acts(input@),
    {
        Ok(self.act(input))
    }
}

} // verus!
