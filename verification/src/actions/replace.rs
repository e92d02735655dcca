//! Replacing inputs.
use vstd::prelude::*;

use crate::actions::{Action, ActionError};
use crate::scope::ScopeContext;

pub mod variables;

pub use variables::VariableExpressionError;

use variables::{injected, inject_variables, VariableErrorView};

verus! {

/// What the escape sequences of `s` stand for, once each is replaced by the character
/// it denotes, or `None` if some escape sequence is invalid (the result of
/// `unescape::unescape`).
pub uninterp spec fn unescaped(s: Seq<char>) -> Option<Seq<char>>;

/// Processes the backslash escape sequences of `s` (`unescape::unescape`).
///
/// Trusted: the result is `unescaped(s)`, and a string without any backslash comes back
/// unchanged, as the crate's source shows (every character but a backslash is copied).
#[verifier::external_body]
pub(crate) fn unescape_str(s: &str) -> (r: Option<String>)
    ensures
        match r {
            Some(t) => unescaped(s@) == Some(t@),
            None => unescaped(s@) is None,
        },
        !s@.contains('\\') ==> r.is_some() && r.unwrap()@ == s@,
{
    unescape::unescape(s)
}

/// An error that can occur when creating a replacement.
#[derive(Debug, PartialEq, Eq)]
pub enum ReplacementError {
    /// The replacement contains invalid escape sequences.
    InvalidEscapeSequences(String),
    /// The replacement contains an error in its variable expressions.
    VariableError(VariableExpressionError),
}

/// What a replacement error says.
pub open spec fn replacement_error_text(e: &ReplacementError) -> Seq<char> {
    match e {
        ReplacementError::InvalidEscapeSequences(s) => "Contains invalid escape sequences: '"@ + s@ + "'"@,
        ReplacementError::VariableError(v) => "Error in variable expressions: "@ + variables::variable_error_text(v@),
    }
}

impl ReplacementError {
    /// What the error says.
    pub fn to_string(&self) -> (r: String)
        ensures
            r@ == replacement_error_text(self),
    {
        match self {
            ReplacementError::InvalidEscapeSequences(s) => crate::strs::framed(
                "Contains invalid escape sequences: '",
                s.as_str(),
                "'",
            ),
            ReplacementError::VariableError(v) => {
                proof {
                    reveal_strlit("");
                }
                let text = v.to_string();
                crate::strs::framed("Error in variable expressions: ", text.as_str(), "")
            },
        }
    }
}

/// Replaces input with a fixed string, in which variables can be referred to.
#[derive(Debug, Clone, PartialEq, Eq, Default)]
pub struct Replacement(String);

impl Replacement {
    /// The replacement text, escape sequences processed.
    pub closed spec fn text(&self) -> Seq<char> {
        self.0@
    }

    /// Creates a new replacement from an owned string.
    ///
    /// Escape sequences are accepted and processed, with invalid escape sequences
    /// returning an [`Err`].
    pub fn try_from(replacement: String) -> (r: Result<Self, ReplacementError>)
        ensures
            match r {
                Ok(rep) => unescaped(replacement@) == Some(rep.text()),
                Err(ReplacementError::InvalidEscapeSequences(s)) => unescaped(replacement@) is None
                    && s@ == replacement@,
                Err(_) => false,
            },
    {
        match unescape_str(replacement.as_str()) {
            Some(res) => Ok(Replacement(res)),
            None => Err(ReplacementError::InvalidEscapeSequences(replacement)),
        }
    }
}

impl Action for Replacement {
    open spec fn acts(&self, input: Seq<char>) -> Seq<char> {
        self.text()
    }

    /// The replacement text, whatever the input.
    fn act(&self, input: &str) -> (r: String) {
        self.0.clone()
    }

    open spec fn acts_in_context(&self, input: Seq<char>, context: ScopeContext) -> Option<Seq<char>> {
        match context {
            ScopeContext::CaptureGroups(cgs) => match injected(cgs@, self.text()) {
                Ok(t) => Some(t),
                Err(_) => None,
            },
        }
    }

    /// The replacement text with the capture groups of the context injected as
    /// variables.
    fn act_with_context(&self, input: &str, context: &ScopeContext) -> (r: Result<String, ActionError>)
        ensures
            match context {
                ScopeContext::CaptureGroups(cgs) => match r {
                    Ok(s) => injected(cgs@, self.text()) == Ok::<Seq<char>, VariableErrorView>(s@),
                    Err(ActionError::ReplacementError(ReplacementError::VariableError(e))) =>
                        injected(cgs@, self.text()) == Err::<Seq<char>, VariableErrorView>(e@),
                    Err(_) => false,
                },
            },
    {
        match context {
            ScopeContext::CaptureGroups(cgs) => match inject_variables(self.0.as_str(), cgs) {
                Ok(s) => Ok(s),
                Err(e) => Err(ActionError::ReplacementError(ReplacementError::VariableError(e))),
            },
        }
    }
}

/// Replacing again changes nothing: a replacement can be applied any number of times.
pub proof fn lemma_replacement_idempotent(r: Replacement, input: Seq<char>)
    ensures
        r.acts(r.acts(input)) == r.acts(input),
{
}

} // verus!
