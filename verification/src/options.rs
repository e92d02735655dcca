//! The options a run is given, as plain values, and the actions and scoper they make.
use std::ops::Range;
use vstd::prelude::*;

use crate::actions::replace::unescaped;
use crate::actions::{
    Action, ActionError, Deletion, Lower, Normalization, Replacement, ReplacementError, Titlecase, Upper,
};
use crate::literal::{literal_ranges, Literal, LiteralError};
use crate::regex::{capture_names_of, groups_of_names, regex_compiles, GroupKey, Regex, RegexError};
use crate::scope::{RangesWithContext, ScopeContext};
use crate::Scoper;

verus! {

/// The actions that can be combined with each other.
#[derive(Debug, Clone, PartialEq, Eq, Default)]
pub struct ComposableActions {
    /// Replace anything in scope with this value (variables are expanded).
    pub replace: Option<String>,
    /// Uppercase anything in scope.
    pub upper: bool,
    /// Lowercase anything in scope.
    pub lower: bool,
    /// Titlecase anything in scope.
    pub titlecase: bool,
    /// Normalize anything in scope: decompose, then drop combining marks.
    pub normalize: bool,
    /// Perform substitutions on German words, such as `Abenteuergruesse` to
    /// `Abenteuergrüße`, for anything in scope.
    pub german: bool,
    /// Perform substitutions on symbols, such as `!=` to `≠`, `->` to `→`, on anything in
    /// scope.
    pub symbols: bool,
}

/// The actions that can only be used alone.
#[derive(Debug, Clone, Copy, PartialEq, Eq, Default)]
pub struct StandaloneActions {
    /// Delete anything in scope.
    pub delete: bool,
    /// Squeeze consecutive occurrences of scope into one.
    pub squeeze: bool,
}

/// Options for the German action.
#[derive(Debug, Clone, Copy, PartialEq, Eq, Default)]
pub struct GermanOptions {
    /// When some original version and its replacement are equally legal, prefer the
    /// original and do not modify.
    pub german_prefer_original: bool,
    /// Always perform any possible replacement, even if the word list does not know the
    /// result.
    pub german_naive: bool,
}

/// A standalone action to perform on the results of applying a scope.
#[derive(Debug, Clone, Copy, PartialEq, Eq, Structural)]
pub enum StandaloneAction {
    /// Delete anything in scope.
    ///
    /// Cannot be used with any other action: there is no point in deleting and
    /// performing any other processing.
    Delete,
    /// Squeeze consecutive occurrences of scope into one.
    Squeeze,
    /// No standalone action is set.
    Unset,
}

/// The standalone action the flags ask for: deleting before squeezing.
pub open spec fn standalone_of(value: StandaloneActions) -> StandaloneAction {
    if value.delete {
        StandaloneAction::Delete
    } else if value.squeeze {
        StandaloneAction::Squeeze
    } else {
        StandaloneAction::Unset
    }
}

impl vstd::std_specs::convert::FromSpecImpl<StandaloneActions> for StandaloneAction {
    open spec fn obeys_from_spec() -> bool {
        true
    }

    open spec fn from_spec(value: StandaloneActions) -> StandaloneAction {
        standalone_of(value)
    }
}

impl From<StandaloneActions> for StandaloneAction {
    fn from(value: StandaloneActions) -> (r: Self)
        ensures
            r == standalone_of(value),
    {
        if value.delete {
            StandaloneAction::Delete
        } else if value.squeeze {
            StandaloneAction::Squeeze
        } else {
            StandaloneAction::Unset
        }
    }
}

/// One of the actions that the composable and standalone flags give.
#[derive(Debug)]
pub enum CommonAction {
    /// See [`Replacement`].
    Replacement(Replacement),
    /// See [`Deletion`].
    Deletion(Deletion),
    /// See [`Upper`].
    Upper(Upper),
    /// See [`Lower`].
    Lower(Lower),
    /// See [`Titlecase`].
    Titlecase(Titlecase),
    /// See [`Normalization`].
    Normalization(Normalization),
}

/// Which action a [`CommonAction`] is, a replacement by its text.
pub ghost enum ActionKind {
    /// A replacement by this text.
    Replacement(Seq<char>),
    /// Deleting.
    Deletion,
    /// Uppercasing.
    Upper,
    /// Lowercasing.
    Lower,
    /// Titlecasing.
    Titlecase,
    /// Normalizing.
    Normalization,
}

impl View for CommonAction {
    type V = ActionKind;

    open spec fn view(&self) -> ActionKind {
        match self {
            CommonAction::Replacement(r) => ActionKind::Replacement(r.text()),
            CommonAction::Deletion(_) => ActionKind::Deletion,
            CommonAction::Upper(_) => ActionKind::Upper,
            CommonAction::Lower(_) => ActionKind::Lower,
            CommonAction::Titlecase(_) => ActionKind::Titlecase,
            CommonAction::Normalization(_) => ActionKind::Normalization,
        }
    }
}

impl Action for CommonAction {
    open spec fn acts(&self, input: Seq<char>) -> Seq<char> {
        match self {
            CommonAction::Replacement(a) => a.acts(input),
            CommonAction::Deletion(a) => a.acts(input),
            CommonAction::Upper(a) => a.acts(input),
            CommonAction::Lower(a) => a.acts(input),
            CommonAction::Titlecase(a) => a.acts(input),
            CommonAction::Normalization(a) => a.acts(input),
        }
    }

    fn act(&self, input: &str) -> (r: String) {
        match self {
            CommonAction::Replacement(a) => a.act(input),
            CommonAction::Deletion(a) => a.act(input),
            CommonAction::Upper(a) => a.act(input),
            CommonAction::Lower(a) => a.act(input),
            CommonAction::Titlecase(a) => a.act(input),
            CommonAction::Normalization(a) => a.act(input),
        }
    }

    open spec fn acts_in_context(&self, input: Seq<char>, context: ScopeContext) -> Option<Seq<char>> {
        match self {
            CommonAction::Replacement(a) => a.acts_in_context(input, context),
            CommonAction::Deletion(a) => a.acts_in_context(input, context),
            CommonAction::Upper(a) => a.acts_in_context(input, context),
            CommonAction::Lower(a) => a.acts_in_context(input, context),
            CommonAction::Titlecase(a) => a.acts_in_context(input, context),
            CommonAction::Normalization(a) => a.acts_in_context(input, context),
        }
    }

    /// As the action it is: a replacement injects the context's capture groups, the
    /// others ignore the context.
    fn act_with_context(&self, input: &str, context: &ScopeContext) -> (r: Result<String, ActionError>)
        ensures
            !(self is Replacement) ==> (r matches Ok(s) && s@ == self.acts(input@)),
    {
        match self {
            CommonAction::Replacement(a) => a.act_with_context(input, context),
            CommonAction::Deletion(a) => a.act_with_context(input, context),
            CommonAction::Upper(a) => a.act_with_context(input, context),
            CommonAction::Lower(a) => a.act_with_context(input, context),
            CommonAction::Titlecase(a) => a.act_with_context(input, context),
            CommonAction::Normalization(a) => a.act_with_context(input, context),
        }
    }
}

/// The actions, in order, that the flags ask for, given the replacement text after
/// unescaping: replacing, deleting (the standalone action), uppercasing, lowercasing,
/// titlecasing, normalizing.
pub open spec fn planned_actions(
    replacement: Option<Seq<char>>,
    composable: ComposableActions,
    standalone: StandaloneAction,
) -> Seq<ActionKind> {
    let replacing = match replacement {
        Some(t) => seq![ActionKind::Replacement(t)],
        None => seq![],
    };
    let deleting = if standalone == StandaloneAction::Delete { seq![ActionKind::Deletion] } else { seq![] };
    let upper = if composable.upper { seq![ActionKind::Upper] } else { seq![] };
    let lower = if composable.lower { seq![ActionKind::Lower] } else { seq![] };
    let titlecase = if composable.titlecase { seq![ActionKind::Titlecase] } else { seq![] };
    let normalize = if composable.normalize { seq![ActionKind::Normalization] } else { seq![] };
    replacing + deleting + upper + lower + titlecase + normalize
}

proof fn lemma_kinds_push(v: Seq<CommonAction>, a: CommonAction)
    ensures
        v.push(a).map_values(|x: CommonAction| x@) == v.map_values(|x: CommonAction| x@).push(a@),
{
    assert(v.push(a).map_values(|x: CommonAction| x@) =~= v.map_values(|x: CommonAction| x@).push(a@));
}

/// The actions that the composable flags and the standalone action ask for, except the
/// German and symbol actions (see [`planned_actions`]). Fails if the replacement text
/// holds an invalid escape sequence.
#[verifier::spinoff_prover]
#[verifier::rlimit(40)]
pub fn assemble_common_actions(
    composable: &ComposableActions,
    standalone: StandaloneAction,
) -> (r: Result<Vec<CommonAction>, ReplacementError>)
    ensures
        match composable.replace {
            Some(s) => match unescaped(s@) {
                Some(t) => r matches Ok(v) && v@.map_values(|a: CommonAction| a@) == planned_actions(
                    Some(t),
                    *composable,
                    standalone,
                ),
                None => r matches Err(ReplacementError::InvalidEscapeSequences(e)) && e@ == s@,
            },
            None => r matches Ok(v) && v@.map_values(|a: CommonAction| a@) == planned_actions(
                None,
                *composable,
                standalone,
            ),
        },
{
    let mut actions: Vec<CommonAction> = Vec::new();
    let ghost mut plan: Seq<ActionKind> = seq![];
    match &composable.replace {
        Some(replacement) => {
            match Replacement::try_from(replacement.clone()) {
                Ok(r) => {
                    proof {
                        lemma_kinds_push(actions@, CommonAction::Replacement(r));
                        plan = seq![ActionKind::Replacement(r.text())];
                    }
                    actions.push(CommonAction::Replacement(r));
                },
                Err(e) => {
                    return Err(e);
                },
            }
        },
        None => {},
    }
    proof {
        assert(actions@.map_values(|a: CommonAction| a@) =~= plan);
    }
    let ghost replacement_kinds = plan;
    if matches!(standalone, StandaloneAction::Delete) {
        proof {
            lemma_kinds_push(actions@, CommonAction::Deletion(Deletion {}));
            plan = plan.push(ActionKind::Deletion);
        }
        actions.push(CommonAction::Deletion(Deletion {}));
    }
    if composable.upper {
        proof {
            lemma_kinds_push(actions@, CommonAction::Upper(Upper {}));
            plan = plan.push(ActionKind::Upper);
        }
        actions.push(CommonAction::Upper(Upper {}));
    }
    if composable.lower {
        proof {
            lemma_kinds_push(actions@, CommonAction::Lower(Lower {}));
            plan = plan.push(ActionKind::Lower);
        }
        actions.push(CommonAction::Lower(Lower {}));
    }
    if composable.titlecase {
        proof {
            lemma_kinds_push(actions@, CommonAction::Titlecase(Titlecase {}));
            plan = plan.push(ActionKind::Titlecase);
        }
        actions.push(CommonAction::Titlecase(Titlecase {}));
    }
    if composable.normalize {
        proof {
            lemma_kinds_push(actions@, CommonAction::Normalization(Normalization {}));
            plan = plan.push(ActionKind::Normalization);
        }
        actions.push(CommonAction::Normalization(Normalization {}));
    }
    proof {
        let t = match &composable.replace {
            Some(s) => unescaped(s@),
            None => None,
        };
        assert(plan =~= planned_actions(t, *composable, standalone));
    }
    Ok(actions)
}

/// The scoper for a scope given as text: a literal string, or a regular expression.
#[derive(Debug)]
pub enum GeneralScoper {
    /// Scopes to the occurrences of a literal string.
    Literal(Literal),
    /// Scopes to the matches of a regular expression.
    Regex(Regex),
}

impl Scoper for GeneralScoper {
    /// As the literal string or regular expression does.
    open spec fn scoped(&self, input: Seq<char>) -> Seq<(Range<usize>, Option<Seq<(GroupKey, Seq<u8>)>>)> {
        match self {
            GeneralScoper::Literal(l) => l.scoped(input),
            GeneralScoper::Regex(re) => re.scoped(input),
        }
    }

    /// As the literal string or regular expression does.
    open spec fn scopes_fully(&self, input: Seq<char>) -> bool {
        match self {
            GeneralScoper::Literal(l) => l.scopes_fully(input),
            GeneralScoper::Regex(re) => re.scopes_fully(input),
        }
    }

    fn can_scope(&self, input: &str) -> (b: bool) {
        match self {
            GeneralScoper::Literal(l) => l.can_scope(input),
            GeneralScoper::Regex(re) => re.can_scope(input),
        }
    }

    /// As the literal string or regular expression does.
    fn scope_raw<'viewee>(&self, input: &'viewee str) -> (r: RangesWithContext<'viewee>)
        ensures
            self matches GeneralScoper::Literal(l) ==> {
                &&& r@.len() == literal_ranges(input@, l.text()).len()
                &&& forall|i: int| 0 <= i < r@.len() ==> #[trigger] r@[i].0.start == literal_ranges(input@, l.text())[i].0
                    && r@[i].0.end == literal_ranges(input@, l.text())[i].1 && r@[i].1 is None
            },
    {
        match self {
            GeneralScoper::Literal(l) => l.scope_raw(input),
            GeneralScoper::Regex(re) => re.scope_raw(input),
        }
    }
}

/// An error in building the scoper.
#[derive(Debug)]
pub enum ScoperBuildError {
    /// The regular expression does not compile.
    RegexError(RegexError),
    /// The literal string holds an invalid escape sequence.
    LiteralError(LiteralError),
}

impl ScoperBuildError {
    /// What the error says: which kind of scope failed, then what that error says.
    pub fn to_string(&self) -> (r: String)
        ensures
            self matches ScoperBuildError::LiteralError(LiteralError::InvalidEscapeSequences(s)) ==> r@
                == "Literal error: "@ + ("Contains invalid escape sequences: '"@ + s@ + "'"@),
            self is RegexError ==> r@.len() >= "Regex error: "@.len() && r@.take("Regex error: "@.len() as int)
                == "Regex error: "@,
    {
        match self {
            ScoperBuildError::RegexError(e) => {
                let text = e.to_string();
                let mut r = String::new();
                crate::strs::push_str(&mut r, "Regex error: ");
                crate::strs::push_str(&mut r, text.as_str());
                proof {
                    assert((Seq::<char>::empty() + "Regex error: "@ + text@).take("Regex error: "@.len() as int) =~= "Regex error: "@);
                }
                r
            },
            ScoperBuildError::LiteralError(e) => {
                let text = e.to_string();
                let mut r = String::new();
                crate::strs::push_str(&mut r, "Literal error: ");
                crate::strs::push_str(&mut r, text.as_str());
                proof {
                    assert(Seq::<char>::empty() + "Literal error: "@ + text@ =~= "Literal error: "@ + text@);
                }
                r
            },
        }
    }
}

/// The scoper for `scope`: a literal string (after unescaping) if `literal_string`,
/// else a regular expression. Fails where the string holds an invalid escape sequence
/// or the expression does not compile.
pub fn get_general_scoper(literal_string: bool, scope: String) -> (r: Result<GeneralScoper, ScoperBuildError>)
    ensures
        literal_string ==> match unescaped(scope@) {
            Some(t) => r matches Ok(GeneralScoper::Literal(l)) && l.text() == t,
            None => r matches Err(ScoperBuildError::LiteralError(_)),
        },
        !literal_string ==> (r matches Ok(GeneralScoper::Regex(_)) <==> regex_compiles(scope@)),
        !literal_string ==> (r matches Ok(GeneralScoper::Regex(re)) ==> re.text() == scope@ && re.groups()
            == groups_of_names(capture_names_of(scope@))),
        !literal_string ==> (r matches Err(ScoperBuildError::RegexError(_)) <==> !regex_compiles(scope@)),
{
    if literal_string {
        match Literal::try_from(scope) {
            Ok(l) => Ok(GeneralScoper::Literal(l)),
            Err(e) => Err(ScoperBuildError::LiteralError(e)),
        }
    } else {
        match Regex::try_from(scope) {
            Ok(re) => Ok(GeneralScoper::Regex(re)),
            Err(e) => Err(ScoperBuildError::RegexError(e)),
        }
    }
}

} // verus!
