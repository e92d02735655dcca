//! A code surgeon: scoping text and acting on what is in scope.
use std::ops::Range;
use vstd::prelude::*;
use vstd::string::StringSliceAdditionalSpecFns;

pub mod actions;
pub mod betterletters;
pub mod common;
pub mod find;
pub mod grep;
pub mod instrament;
pub mod iteration;
pub mod iterext;
pub mod langs;
pub mod literal;
pub mod modules;
pub mod options;
pub mod ranges;
pub mod regex;
pub mod run;
pub mod scope;
pub mod strs;
pub mod view;

use regex::GroupKey;
use scope::{
    expected_scopes, is_stable_sort, joined_bytes, lemma_expected_model, lemma_sort_model, part_view, raw_model, scope_model, scope_view,
    valid_raw_ranges, ROScope, ROScopes, RangesWithContext, ScopeContext,
};

verus! {

/// The pattern of the scope that covers everything.
pub const GLOBAL_SCOPE: &'static str = ".*";

/// Something that divides an input into parts in and out of scope.
pub trait Scoper: Send + Sync {
    /// The byte ranges of the text with characters `input` that are in scope, each with
    /// its context as plain values.
    spec fn scoped(&self, input: Seq<char>) -> Seq<(Range<usize>, Option<Seq<(GroupKey, Seq<u8>)>>)>;

    /// Whether the text with characters `input` can be scoped: a search that ends in an
    /// error cannot.
    spec fn scopes_fully(&self, input: Seq<char>) -> bool;

    /// Whether `input` can be scoped (see [`Scoper::scopes_fully`]).
    fn can_scope(&self, input: &str) -> (b: bool)
        ensures
            b == self.scopes_fully(input@),
    ;

    /// The byte ranges of `input` that are in scope, each with its context (see
    /// [`Scoper::scoped`]).
    fn scope_raw<'viewee>(&self, input: &'viewee str) -> (r: RangesWithContext<'viewee>)
        requires
            self.scopes_fully(input@),
        ensures
            valid_raw_ranges(input.spec_bytes(), r@),
            raw_model(r@) == self.scoped(input@),
    ;

    /// The parts of `input`, in and out of scope (see [`ROScopes::from_raw_ranges`]): the
    /// ranges of [`Scoper::scoped`], ordered by start (equal starts kept in order), are in
    /// scope, the stretches between them out of scope, and empty parts are left out.
    fn scope<'viewee>(&self, input: &'viewee str) -> (r: ROScopes<'viewee>)
        requires
            self.scopes_fully(input@),
        ensures
            joined_bytes(r.0@) == input.spec_bytes(),
            exists|sorted: Seq<(Range<usize>, Option<Seq<(GroupKey, Seq<u8>)>>)>, perm: Seq<int>|
                is_stable_sort(sorted, self.scoped(input@), perm) && r.0@.map_values(|s: ROScope<'viewee>| scope_view(s))
                    == expected_scopes(input.spec_bytes(), sorted, 0),
    {
        let ranges = self.scope_raw(input);
        let ghost raw = ranges@;
        let r = ROScopes::from_raw_ranges(input, ranges);
        proof {
            let (sorted, perm) = choose|sorted: Seq<(Range<usize>, Option<ScopeContext<'viewee>>)>, perm: Seq<int>|
                is_stable_sort(sorted, raw, perm) && r.0@.map_values(|s: ROScope<'viewee>| scope_model(s))
                    == expected_scopes(input.spec_bytes(), sorted, 0);
            lemma_sort_model(sorted, raw, perm);
            lemma_expected_model(input.spec_bytes(), sorted, 0);
            assert(r.0@.map_values(|s: ROScope<'viewee>| scope_view(s)) =~= r.0@.map_values(
                |s: ROScope<'viewee>| scope_model(s),
            ).map_values(|t: (bool, Seq<u8>, Option<ScopeContext<'viewee>>)| part_view(t)));
            assert(is_stable_sort(raw_model(sorted), self.scoped(input@), perm));
        }
        r
    }

    /// The parts of `input`, in and out of scope, as [`Scoper::scope`] gives them, where
    /// `input` can be scoped; `None` where it cannot.
    fn try_scope<'viewee>(&self, input: &'viewee str) -> (r: Option<ROScopes<'viewee>>)
        ensures
            r is Some <==> self.scopes_fully(input@),
            r matches Some(scopes) ==> joined_bytes(scopes.0@) == input.spec_bytes() && exists|
                sorted: Seq<(Range<usize>, Option<Seq<(GroupKey, Seq<u8>)>>)>,
                perm: Seq<int>,
            |
                is_stable_sort(sorted, self.scoped(input@), perm) && scopes.0@.map_values(|s: ROScope<'viewee>| scope_view(s))
                    == expected_scopes(input.spec_bytes(), sorted, 0),
    {
        if self.can_scope(input) {
            Some(self.scope(input))
        } else {
            None
        }
    }
}

} // verus!
