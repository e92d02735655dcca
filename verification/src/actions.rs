//! Actions: what is done to the parts of the input that are in scope.
use vstd::prelude::*;

use crate::scope::ScopeContext;

pub mod german;
pub mod replace;
pub mod simple;
pub mod symbols;
pub mod verbatim;

pub use german::German;
pub use replace::{Replacement, ReplacementError};
pub use simple::{Deletion, Lower, Normalization, Print, Titlecase, Upper};
pub use symbols::inversion::SymbolsInversion;
pub use symbols::Symbols;

verus! {

/// An action in the processing pipeline.
///
/// Actions are the core of the text processing pipeline and can be applied in any
/// order, any number of times each (more than once being wasted work, though).
pub trait Action: Send + Sync {
    /// What the action makes of the text `input`.
    spec fn acts(&self, input: Seq<char>) -> Seq<char>;

    /// Apply this action to the given input.
    ///
    /// This is infallible: it cannot fail in the sense of [`Result`].
    fn act(&self, input: &str) -> (r: String)
        ensures
            r@ == self.acts(input@),
    ;

    /// What the action makes of the text `input` in the context `context`, or `None`
    /// where it fails there.
    spec fn acts_in_context(&self, input: Seq<char>, context: ScopeContext) -> Option<Seq<char>>;

    /// Acts taking into account additional context.
    ///
    /// Actions that do not need context ignore it and act as [`Action::act`] does;
    /// those that need it, and know how to handle it, take it into account.
    fn act_with_context(&self, input: &str, context: &ScopeContext) -> (r: Result<String, ActionError>)
        ensures
            r is Ok <==> self.acts_in_context(input@, *context) is Some,
            r matches Ok(s) ==> self.acts_in_context(input@, *context) == Some(s@),
    ;
}

/// An error during application of an action.
#[derive(Debug, PartialEq, Eq)]
pub enum ActionError {
    /// Produced if [`Replacement`] fails.
    ReplacementError(ReplacementError),
}

/// What an action error says.
pub open spec fn action_error_text(e: &ActionError) -> Seq<char> {
    match e {
        ActionError::ReplacementError(e) => "Action failed in replacement: "@ + replace::replacement_error_text(e),
    }
}

impl ActionError {
    /// What the error says.
    pub fn to_string(&self) -> (r: String)
        ensures
            r@ == action_error_text(self),
    {
        match self {
            ActionError::ReplacementError(e) => {
                proof {
                    reveal_strlit("");
                }
                let text = e.to_string();
                crate::strs::framed("Action failed in replacement: ", text.as_str(), "")
            },
        }
    }
}

} // verus!
