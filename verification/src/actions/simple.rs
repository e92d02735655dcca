//! Actions that transform their whole input: deleting, lowercasing, normalizing, and
//! printing unchanged.
use vstd::prelude::*;

use crate::actions::{Action, ActionError};
use crate::scope::ScopeContext;
use crate::strs::{
    from_chars, lowercased, push_char, titlecase_lower_rest, to_chars, to_lowercase, to_titlecase_lower_rest, to_uppercase,
    uppercased,
};

verus! {

/// Deletes everything in the input.
#[derive(Debug, Clone, Copy, PartialEq, Eq, Default)]
pub struct Deletion {}

impl Action for Deletion {
    open spec fn acts(&self, input: Seq<char>) -> Seq<char> {
        Seq::<char>::empty()
    }

    fn act(&self, input: &str) -> (r: String)
        ensures
            r@ == Seq::<char>::empty(),
    {
        String::new()
    }

    open spec fn acts_in_context(&self, input: Seq<char>, context: ScopeContext) -> Option<Seq<char>> {
        Some(self.acts(input))
    }

    /// Context is not needed: acts as [`Action::act`] does.
    fn act_with_context(&self, input: &str, context: &ScopeContext) -> (r: Result<String, ActionError>)
        ensures
            r matches Ok(s) && s@ == self.acts(input@),
    {
        Ok(self.act(input))
    }
}

/// Renders in uppercase.
#[derive(Debug, Clone, Copy, PartialEq, Eq, Default)]
pub struct Upper {}

impl Action for Upper {
    open spec fn acts(&self, input: Seq<char>) -> Seq<char> {
        uppercased(input)
    }

    fn act(&self, input: &str) -> (r: String) {
        to_uppercase(input)
    }

    open spec fn acts_in_context(&self, input: Seq<char>, context: ScopeContext) -> Option<Seq<char>> {
        Some(self.acts(input))
    }

    /// Context is not needed: acts as [`Action::act`] does.
    fn act_with_context(&self, input: &str, context: &ScopeContext) -> (r: Result<String, ActionError>)
        ensures
            r matches Ok(s) && s@ == self.acts(input@),
    {
        Ok(self.act(input))
    }
}

/// Renders in titlecase: the first character titlecased, the rest lowercased.
#[derive(Debug, Clone, Copy, PartialEq, Eq, Default)]
pub struct Titlecase {}

impl Action for Titlecase {
    open spec fn acts(&self, input: Seq<char>) -> Seq<char> {
        titlecase_lower_rest(input)
    }

    fn act(&self, input: &str) -> (r: String) {
        to_titlecase_lower_rest(input)
    }

    open spec fn acts_in_context(&self, input: Seq<char>, context: ScopeContext) -> Option<Seq<char>> {
        Some(self.acts(input))
    }

    /// Context is not needed: acts as [`Action::act`] does.
    fn act_with_context(&self, input: &str, context: &ScopeContext) -> (r: Result<String, ActionError>)
        ensures
            r matches Ok(s) && s@ == self.acts(input@),
    {
        Ok(self.act(input))
    }
}

/// Renders in lowercase.
#[derive(Debug, Clone, Copy, PartialEq, Eq, Default)]
pub struct Lower {}

impl Action for Lower {
    open spec fn acts(&self, input: Seq<char>) -> Seq<char> {
        lowercased(input)
    }

    fn act(&self, input: &str) -> (r: String) {
        to_lowercase(input)
    }

    open spec fn acts_in_context(&self, input: Seq<char>, context: ScopeContext) -> Option<Seq<char>> {
        Some(self.acts(input))
    }

    /// Context is not needed: acts as [`Action::act`] does.
    fn act_with_context(&self, input: &str, context: &ScopeContext) -> (r: Result<String, ActionError>)
        ensures
            r matches Ok(s) && s@ == self.acts(input@),
    {
        Ok(self.act(input))
    }
}

/// Returns its input unchanged.
#[derive(Debug, Clone, Copy, PartialEq, Eq, Default)]
pub struct Print {}

impl Action for Print {
    open spec fn acts(&self, input: Seq<char>) -> Seq<char> {
        input
    }

    fn act(&self, input: &str) -> (r: String) {
        let cs = to_chars(input);
        from_chars(cs.as_slice())
    }

    open spec fn acts_in_context(&self, input: Seq<char>, context: ScopeContext) -> Option<Seq<char>> {
        Some(self.acts(input))
    }

    /// Context is not needed: acts as [`Action::act`] does.
    fn act_with_context(&self, input: &str, context: &ScopeContext) -> (r: Result<String, ActionError>)
        ensures
            r matches Ok(s) && s@ == self.acts(input@),
    {
        Ok(self.act(input))
    }
}

/// The canonical decomposition (Unicode Normalization Form D) of `s`.
pub uninterp spec fn nfd(s: Seq<char>) -> Seq<char>;

/// Whether `c` is in one of the Unicode "Mark" categories.
pub uninterp spec fn is_mark(c: char) -> bool;

/// The canonical decomposition of `s` (`unicode_normalization::UnicodeNormalization::nfd`).
///
/// Trusted: the result is `nfd(s)`.
#[verifier::external_body]
fn decompose(s: &str) -> (r: Vec<char>)
    ensures
        r@ == nfd(s@),
{
    unicode_normalization::UnicodeNormalization::nfd(s).collect()
}

/// Whether `c` is a mark (`unicode_categories::UnicodeCategories::is_mark`).
///
/// Trusted: the result is `is_mark(c)`.
#[verifier::external_body]
fn mark(c: char) -> (b: bool)
    ensures
        b == is_mark(c),
{
    unicode_categories::UnicodeCategories::is_mark(c)
}

/// The characters of `s` that are not marks, in order.
pub open spec fn without_marks(s: Seq<char>) -> Seq<char>
    decreases s.len(),
{
    if s.len() == 0 {
        Seq::empty()
    } else if is_mark(s.last()) {
        without_marks(s.drop_last())
    } else {
        without_marks(s.drop_last()).push(s.last())
    }
}

/// Performs Unicode normalization: canonical decomposition (NFD), with all marks
/// removed.
#[derive(Debug, Clone, Copy, PartialEq, Eq, Default)]
pub struct Normalization {}

impl Action for Normalization {
    open spec fn acts(&self, input: Seq<char>) -> Seq<char> {
        without_marks(nfd(input))
    }

    fn act(&self, input: &str) -> (r: String) {
        let cs = decompose(input);
        let n = cs.len();
        let mut out = String::new();
        let mut i: usize = 0;
        while i < n
            invariant
                i <= n,
                n == cs@.len(),
                out@ == without_marks(cs@.take(i as int)),
            decreases n - i,
        {
            proof {
                assert(cs@.take(i + 1).drop_last() =~= cs@.take(i as int));
            }
            if !mark(cs[i]) {
                push_char(&mut out, cs[i]);
            }
            i = i + 1;
        }
        proof {
            assert(cs@.take(n as int) =~= cs@);
        }
        out
    }

    open spec fn acts_in_context(&self, input: Seq<char>, context: ScopeContext) -> Option<Seq<char>> {
        Some(self.acts(input))
    }

    /// Context is not needed: acts as [`Action::act`] does.
    fn act_with_context(&self, input: &str, context: &ScopeContext) -> (r: Result<String, ActionError>)
        ensures
            r matches Ok(s) && s@ == self.acts(input@),
    {
        Ok(self.act(input))
    }
}

/// Applying deletion or printing again changes nothing: both can be applied any number
/// of times.
pub proof fn lemma_simple_idempotent(d: Deletion, p: Print, input: Seq<char>)
    ensures
        d.acts(d.acts(input)) == d.acts(input),
        p.acts(p.acts(input)) == p.acts(input),
{
}

/// The characters of `s` that are not marks are what filtering the marks out of `s`
/// keeps.
proof fn lemma_without_marks_filter(s: Seq<char>)
    ensures
        without_marks(s) == s.filter(|c: char| !is_mark(c)),
    decreases s.len(),
{
    reveal(Seq::filter);
    let pred = |c: char| !is_mark(c);
    if s.len() > 0 {
        lemma_without_marks_filter(s.drop_last());
        assert(s.filter(pred) == (if pred(s.last()) {
            s.drop_last().filter(pred).push(s.last())
        } else {
            s.drop_last().filter(pred)
        }));
    } else {
        assert(s.filter(pred) == s);
    }
}

/// Normalizing leaves no mark behind: the result is the canonical decomposition of the
/// input with every mark filtered out, wherever it stands, and everything else kept in
/// order.
pub proof fn lemma_normalization_drops_marks(n: Normalization, input: Seq<char>)
    ensures
        n.acts(input) == nfd(input).filter(|c: char| !is_mark(c)),
        forall|i: int| 0 <= i < n.acts(input).len() ==> !is_mark(#[trigger] n.acts(input)[i]),
{
    broadcast use vstd::seq_lib::group_filter_ensures;
    lemma_without_marks_filter(nfd(input));
}

} // verus!
