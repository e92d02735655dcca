use std::borrow::Cow;
use std::ops::Range;

use vstd::prelude::*;
use vstd::string::StringSliceAdditionalSpecFns;
use vstd::utf8::*;

use crate::ranges::Ranges;
use crate::regex::{context_view, CaptureGroup, GroupKey};
use crate::strs::substr;

verus! {

broadcast use vstd::string::group_string_axioms, vstd::utf8::encode_utf8_valid_utf8;

/// Indicates whether a given string part is in scope.
#[derive(Debug, Clone, PartialEq, Eq)]
pub enum Scope<'viewee, T> {
    /// The given part is in scope for processing.
    In(T, Option<ScopeContext<'viewee>>),
    /// The given part is out of scope for processing.
    ///
    /// Treated as immutable, view-only.
    Out(&'viewee str),
}

/// A read-only scope.
#[derive(Debug, Clone, PartialEq, Eq)]
pub struct ROScope<'viewee>(pub Scope<'viewee, &'viewee str>);

/// Multiple read-only scopes.
#[derive(Debug, Clone, PartialEq, Eq)]
pub struct ROScopes<'viewee>(pub Vec<ROScope<'viewee>>);

/// A read-write scope.
#[derive(Debug, Clone, PartialEq, Eq)]
pub struct RWScope<'viewee>(pub Scope<'viewee, Cow<'viewee, str>>);

/// Multiple read-write scopes.
#[derive(Debug, Clone, PartialEq, Eq)]
pub struct RWScopes<'viewee>(pub Vec<RWScope<'viewee>>);

/// Context accompanying a scope.
///
/// For example, a scope might have been created by a regular expression, in which case
/// capture groups might have matched.
#[derive(Debug, Clone, PartialEq, Eq)]
pub enum ScopeContext<'viewee> {
    /// Regular expression capture groups, each paired with the content it matched.
    CaptureGroups(Vec<(CaptureGroup, &'viewee str)>),
}

/// Raw ranges, paired with optional context for content at that range.
pub type RangesWithContext<'viewee> = Vec<(Range<usize>, Option<ScopeContext<'viewee>>)>;

/// The text of a read-only scope, as bytes.
pub open spec fn scope_bytes(s: ROScope) -> Seq<u8> {
    match s.0 {
        Scope::In(t, _) => t.spec_bytes(),
        Scope::Out(t) => t.spec_bytes(),
    }
}

/// A read-only scope with in and out of scope swapped: what was in scope is now out of
/// it, what was out of it now in it, without context.
pub open spec fn inverted_scope<'viewee>(s: ROScope<'viewee>) -> ROScope<'viewee> {
    match s.0 {
        Scope::In(t, _) => ROScope(Scope::Out(t)),
        Scope::Out(t) => ROScope(Scope::In(t, None)),
    }
}

/// Whether no scope of `scopes` carries a context.
pub open spec fn context_free(scopes: Seq<ROScope>) -> bool {
    forall|i: int| 0 <= i < scopes.len() ==> !((#[trigger] scopes[i]).0 matches Scope::In(_, Some(_)))
}

/// Inverting scopes twice gives them back, where they carry no context (inverting drops
/// contexts).
pub proof fn lemma_invert_twice<'viewee>(scopes: Seq<ROScope<'viewee>>)
    requires
        context_free(scopes),
    ensures
        scopes.map_values(|s: ROScope<'viewee>| inverted_scope(s)).map_values(|s: ROScope<'viewee>| inverted_scope(s)) == scopes,
{
    let once = scopes.map_values(|s: ROScope<'viewee>| inverted_scope(s));
    let twice = once.map_values(|s: ROScope<'viewee>| inverted_scope(s));
    assert forall|i: int| 0 <= i < scopes.len() implies twice[i] == scopes[i] by {
        assert(!(scopes[i].0 matches Scope::In(_, Some(_))));
    }
    assert(twice =~= scopes);
}

/// The text of a read-only scope.
pub open spec fn scope_text(s: ROScope) -> Seq<char> {
    match s.0 {
        Scope::In(t, _) => t@,
        Scope::Out(t) => t@,
    }
}

/// The texts of the given scopes, put back together.
pub open spec fn joined_bytes(scopes: Seq<ROScope>) -> Seq<u8>
    decreases scopes.len(),
{
    if scopes.len() == 0 {
        Seq::empty()
    } else {
        joined_bytes(scopes.drop_last()) + scope_bytes(scopes.last())
    }
}

/// A scope as plain values: whether it is in scope, its bytes, and its context.
pub open spec fn scope_model<'a>(s: ROScope<'a>) -> (bool, Seq<u8>, Option<ScopeContext<'a>>) {
    match s.0 {
        Scope::In(t, ctx) => (true, t.spec_bytes(), ctx),
        Scope::Out(t) => (false, t.spec_bytes(), None),
    }
}

/// The scopes that `bytes` is split into when the (ordered) ranges `rs` are in scope,
/// starting after position `last_end`: the stretch before each range is out of scope,
/// the range itself in scope, and what follows the last range is out of scope; empty
/// stretches are left out.
pub open spec fn expected_scopes<C>(
    bytes: Seq<u8>,
    rs: Seq<(Range<usize>, Option<C>)>,
    last_end: int,
) -> Seq<(bool, Seq<u8>, Option<C>)>
    decreases rs.len(),
{
    if rs.len() == 0 {
        if last_end < bytes.len() {
            seq![(false, bytes.subrange(last_end, bytes.len() as int), None)]
        } else {
            Seq::empty()
        }
    } else {
        let r = rs[0].0;
        let out = if last_end < r.start {
            seq![(false, bytes.subrange(last_end, r.start as int), None)]
        } else {
            Seq::empty()
        };
        let inn = if r.start < r.end {
            seq![(true, bytes.subrange(r.start as int, r.end as int), rs[0].1)]
        } else {
            Seq::empty()
        };
        out + inn + expected_scopes(bytes, rs.drop_first(), r.end as int)
    }
}

/// A scope's context as plain values: each capture group with the bytes it matched.
pub open spec fn ctx_model(c: Option<ScopeContext>) -> Option<Seq<(GroupKey, Seq<u8>)>> {
    match c {
        Some(c) => Some(context_view(c)),
        None => None,
    }
}

/// Ranges in scope with their contexts as plain values.
pub open spec fn raw_model<'a>(rs: Seq<(Range<usize>, Option<ScopeContext<'a>>)>) -> Seq<
    (Range<usize>, Option<Seq<(GroupKey, Seq<u8>)>>),
> {
    rs.map_values(|e: (Range<usize>, Option<ScopeContext<'a>>)| (e.0, ctx_model(e.1)))
}

/// A scope as plain values: whether it is in scope, its bytes, and its context as plain
/// values.
pub open spec fn scope_view<'a>(s: ROScope<'a>) -> (bool, Seq<u8>, Option<Seq<(GroupKey, Seq<u8>)>>) {
    (scope_model(s).0, scope_model(s).1, ctx_model(scope_model(s).2))
}

/// A part of `expected_scopes` with its context as plain values.
pub open spec fn part_view<'a>(t: (bool, Seq<u8>, Option<ScopeContext<'a>>)) -> (bool, Seq<u8>, Option<Seq<(GroupKey, Seq<u8>)>>) {
    (t.0, t.1, ctx_model(t.2))
}

/// Splitting by ranges and then taking contexts as plain values is splitting by the
/// ranges with their contexts as plain values.
pub(crate) proof fn lemma_expected_model<'a>(bytes: Seq<u8>, rs: Seq<(Range<usize>, Option<ScopeContext<'a>>)>, e: int)
    ensures
        expected_scopes(bytes, raw_model(rs), e) == expected_scopes(bytes, rs, e).map_values(
            |t: (bool, Seq<u8>, Option<ScopeContext<'a>>)| part_view(t),
        ),
    decreases rs.len(),
{
    let f = |t: (bool, Seq<u8>, Option<ScopeContext<'a>>)| part_view(t);
    if rs.len() == 0 {
        assert(raw_model(rs) =~= Seq::<(Range<usize>, Option<Seq<(GroupKey, Seq<u8>)>>)>::empty());
        assert(expected_scopes(bytes, rs, e).map_values(f) =~= expected_scopes(bytes, raw_model(rs), e));
    } else {
        let r = rs[0].0;
        lemma_expected_model(bytes, rs.drop_first(), r.end as int);
        assert(raw_model(rs).drop_first() =~= raw_model(rs.drop_first()));
        assert(raw_model(rs)[0] == (r, ctx_model(rs[0].1)));
        let out = if e < r.start {
            seq![(false, bytes.subrange(e, r.start as int), None::<ScopeContext<'a>>)]
        } else {
            Seq::empty()
        };
        let inn = if r.start < r.end {
            seq![(true, bytes.subrange(r.start as int, r.end as int), rs[0].1)]
        } else {
            Seq::empty()
        };
        let rest = expected_scopes(bytes, rs.drop_first(), r.end as int);
        assert(expected_scopes(bytes, rs, e) == out + inn + rest);
        assert((out + inn + rest).map_values(f) =~= out.map_values(f) + inn.map_values(f) + rest.map_values(f));
        assert(expected_scopes(bytes, raw_model(rs), e) =~= out.map_values(f) + inn.map_values(f) + rest.map_values(f));
    }
}

/// Ordering ranges by start does not look at their contexts.
pub(crate) proof fn lemma_sort_model<'a>(
    sorted: Seq<(Range<usize>, Option<ScopeContext<'a>>)>,
    rs: Seq<(Range<usize>, Option<ScopeContext<'a>>)>,
    perm: Seq<int>,
)
    requires
        is_stable_sort(sorted, rs, perm),
    ensures
        is_stable_sort(raw_model(sorted), raw_model(rs), perm),
{
    let a = raw_model(sorted);
    let b = raw_model(rs);
    assert forall|x: int| 0 <= x < a.len() implies 0 <= #[trigger] perm[x] < b.len() && a[x] == b[perm[x]] by {
        assert(sorted[x] == rs[perm[x]]);
    }
    assert forall|x: int, y: int| #![trigger a[x], a[y]] 0 <= x < y < a.len() implies (a[x].0.start < a[y].0.start || (a[x].0.start
        == a[y].0.start && perm[x] < perm[y])) by {
        assert(a[x].0 == sorted[x].0 && a[y].0 == sorted[y].0);
        assert(perm[x] != perm[y]);
        assert(sorted[x].0.start < sorted[y].0.start || (sorted[x].0.start == sorted[y].0.start && perm[x] < perm[y]));
    }
    assert(a.len() == b.len());
    assert(perm.len() == a.len());
    assert forall|x: int, y: int| 0 <= x < y < a.len() implies perm[x] != perm[y] by {}
}

/// Whether the ranges may be cut out of a string with encoding `bytes`: each lies within
/// it, on character boundaries, and, ordered by start (keeping the given order for equal
/// starts), each ends before the next begins.
pub open spec fn valid_raw_ranges<'a>(bytes: Seq<u8>, rs: Seq<(Range<usize>, Option<ScopeContext<'a>>)>) -> bool {
    &&& forall|i: int| 0 <= i < rs.len() ==> #[trigger] rs[i].0.start <= rs[i].0.end <= bytes.len()
    &&& forall|i: int| 0 <= i < rs.len() ==> is_char_boundary(bytes, #[trigger] rs[i].0.start as int)
    &&& forall|i: int| 0 <= i < rs.len() ==> is_char_boundary(bytes, #[trigger] rs[i].0.end as int)
    &&& forall|i: int, j: int|
        0 <= i < rs.len() && 0 <= j < rs.len() && i != j && (rs[i].0.start < rs[j].0.start || (
        rs[i].0.start == rs[j].0.start && i < j)) ==> rs[i].0.end <= rs[j].0.start
}

/// Whether `sorted` is `rs` ordered by range start, keeping the given order for equal
/// starts, with `perm[a]` the position in `rs` of `sorted[a]`.
pub open spec fn is_stable_sort<'a, T>(sorted: Seq<(Range<usize>, T)>, rs: Seq<(Range<usize>, T)>, perm: Seq<int>) -> bool {
    &&& sorted.len() == rs.len()
    &&& perm.len() == sorted.len()
    &&& forall|a: int| 0 <= a < sorted.len() ==> 0 <= #[trigger] perm[a] < rs.len() && sorted[a] == rs[perm[a]]
    &&& forall|a: int, b: int| 0 <= a < b < sorted.len() ==> perm[a] != perm[b]
    &&& forall|a: int, b: int|
        0 <= a < b < sorted.len() ==> (sorted[a].0.start < sorted[b].0.start || (sorted[a].0.start
            == sorted[b].0.start && perm[a] < perm[b]))
}

/// Orders ranges with payloads by range start, keeping the given order for equal starts.
pub(crate) fn stable_sort_by_start<'a, T>(v: Vec<(Range<usize>, T)>) -> (r: (Vec<(Range<usize>, T)>, Ghost<Seq<int>>))
    ensures
        is_stable_sort(r.0@, v@, r.1@),
{
    let ghost orig = v@;
    let mut out: Vec<(Range<usize>, T)> = Vec::new();
    let ghost mut perm: Seq<int> = Seq::empty();
    let mut i: usize = 0;
    let n = v.len();
    for item in iter: v.into_iter()
        invariant
            n == orig.len(),
            iter.seq() == orig,
            i == iter.index(),
            out@.len() == i,
            perm.len() == i,
            forall|a: int| 0 <= a < out@.len() ==> 0 <= #[trigger] perm[a] < i && out@[a] == orig[perm[a]],
            forall|a: int, b: int| 0 <= a < b < out@.len() ==> perm[a] != perm[b],
            forall|a: int, b: int|
                #![trigger out@[a], out@[b]]
                0 <= a < b < out@.len() ==> (out@[a].0.start < out@[b].0.start || (out@[a].0.start
                    == out@[b].0.start && perm[a] < perm[b])),
    {
        let key = item.0.start;
        let mut j: usize = out.len();
        while j > 0 && out[j - 1].0.start > key
            invariant
                j <= out@.len(),
                forall|k: int| j <= k < out@.len() ==> out@[k].0.start > key,
            decreases j,
        {
            j = j - 1;
        }
        let ghost before = out@;
        let ghost pbefore = perm;
        proof {
            assert(item == orig[i as int]);
        }
        out.insert(j, item);
        proof {
            perm = pbefore.insert(j as int, i as int);
            assert forall|a: int| 0 <= a < out@.len() implies 0 <= #[trigger] perm[a] < i + 1 && out@[a] == orig[perm[a]] by {
                if a < j {
                    assert(out@[a] == before[a]);
                    assert(perm[a] == pbefore[a]);
                } else if a > j {
                    assert(out@[a] == before[a - 1]);
                    assert(perm[a] == pbefore[a - 1]);
                }
            }
            assert forall|a: int, b: int| 0 <= a < b < out@.len() implies perm[a] != perm[b] by {
                if a < j && b > j {
                    assert(pbefore[a] != pbefore[b - 1]);
                } else if a > j {
                    assert(pbefore[a - 1] != pbefore[b - 1]);
                } else if b < j {
                    assert(pbefore[a] != pbefore[b]);
                } else if a == j {
                    assert(pbefore[b - 1] < i);
                } else {
                    assert(pbefore[a] < i);
                }
            }
            assert forall|a: int, b: int| 0 <= a < b < out@.len() implies (out@[a].0.start < out@[b].0.start || (out@[a].0.start
                == out@[b].0.start && perm[a] < perm[b])) by {
                if a < j && b == j {
                    if j > 0 {
                        assert(before[j - 1].0.start <= key);
                        assert(pbefore[a] < i);
                        if a < j - 1 {
                            assert(before[a].0.start < before[j - 1].0.start || (before[a].0.start
                                == before[j - 1].0.start && pbefore[a] < pbefore[j - 1]));
                        }
                    }
                } else if a == j && b > j {
                    assert(before[b - 1].0.start > key);
                } else if a < j && b > j {
                    assert(before[a].0.start < before[b - 1].0.start || (before[a].0.start
                        == before[b - 1].0.start && pbefore[a] < pbefore[b - 1]));
                } else if a > j {
                    assert(before[a - 1].0.start < before[b - 1].0.start || (before[a - 1].0.start
                        == before[b - 1].0.start && pbefore[a - 1] < pbefore[b - 1]));
                }
            }
        }
        i = i + 1;
    }
    (out, Ghost(perm))
}

impl<'viewee> ROScope<'viewee> {
    /// The underlying string slice, whether in scope or not.
    pub fn as_str(&self) -> (s: &'viewee str)
        ensures
            s.spec_bytes() == scope_bytes(*self),
            s@ == scope_text(*self),
    {
        match self.0 {
            Scope::In(s, _) => s,
            Scope::Out(s) => s,
        }
    }

    /// Check whether the scope is empty.
    pub fn is_empty(&self) -> (b: bool)
        ensures
            b == (scope_text(*self).len() == 0),
    {
        self.as_str().is_empty()
    }
}

impl<'viewee> ROScopes<'viewee> {
    /// Construct a new instance from the given raw ranges.
    ///
    /// The passed `input` will be traversed according to `ranges`: all specified
    /// `ranges` are taken as [`Scope::In`] scope, everything not covered by a range is
    /// [`Scope::Out`] of scope. Ranges are taken in order of their start; empty parts
    /// are left out.
    pub fn from_raw_ranges(input: &'viewee str, ranges: RangesWithContext<'viewee>) -> (r: Self)
        requires
            valid_raw_ranges(input.spec_bytes(), ranges@),
        ensures
            exists|sorted: Seq<(Range<usize>, Option<ScopeContext<'viewee>>)>, perm: Seq<int>|
                is_stable_sort(sorted, ranges@, perm) && r.0@.map_values(|s: ROScope<'viewee>| scope_model(s))
                    == expected_scopes(input.spec_bytes(), sorted, 0),
            joined_bytes(r.0@) == input.spec_bytes(),
    {
        let ghost bytes = input.spec_bytes();
        let ghost orig = ranges@;
        let (sorted, Ghost(perm)) = stable_sort_by_start(ranges);
        let ghost srt = sorted@;
        proof {
            lemma_sorted_valid(bytes, orig, srt, perm);
        }
        let mut scopes: Vec<ROScope<'viewee>> = Vec::new();
        let mut last_end: usize = 0;
        let len = input.as_bytes().len();
        let ghost mut idx: int = 0;
        proof {
            is_char_boundary_start_end_of_seq(bytes);
            assert(srt.skip(0) =~= srt);
            assert(scopes@.map_values(|s: ROScope<'viewee>| scope_model(s)) =~= Seq::empty());
            assert(bytes.subrange(0, 0) =~= Seq::<u8>::empty());
        }
        for item in iter: sorted.into_iter()
            invariant
                iter.seq() == srt,
                idx == iter.index(),
                len == bytes.len(),
                bytes == input.spec_bytes(),
                sorted_valid(bytes, srt),
                last_end <= len,
                is_char_boundary(bytes, last_end as int),
                idx > 0 ==> last_end == srt[idx - 1].0.end,
                idx < srt.len() ==> last_end <= srt[idx].0.start,
                scopes@.map_values(|s: ROScope<'viewee>| scope_model(s)) + expected_scopes(bytes, srt.skip(idx), last_end as int)
                    == expected_scopes(bytes, srt, 0),
                joined_bytes(scopes@) == bytes.subrange(0, last_end as int),
        {
            let (range, context) = item;
            let start = range.start;
            let end = range.end;
            let ghost before = scopes@;
            proof {
                assert(srt.skip(idx)[0] == srt[idx]);
                assert(srt.skip(idx).drop_first() == srt.skip(idx + 1));
            }
            if last_end < start {
                let out = substr(input, last_end, start);
                scopes.push(ROScope(Scope::Out(out)));
                proof {
                    lemma_joined_push(before, ROScope(Scope::Out(out)));
                    assert(bytes.subrange(0, last_end as int) + bytes.subrange(last_end as int, start as int) =~= bytes.subrange(0, start as int));
                }
            }
            let ghost mid = scopes@;
            if start < end {
                let inn = substr(input, start, end);
                scopes.push(ROScope(Scope::In(inn, context)));
                proof {
                    lemma_joined_push(mid, ROScope(Scope::In(inn, context)));
                    assert(bytes.subrange(0, start as int) + bytes.subrange(start as int, end as int) =~= bytes.subrange(0, end as int));
                }
            }
            proof {
                assert(bytes.subrange(0, last_end as int) =~= bytes.subrange(0, start as int) || last_end < start);
                if last_end == start {
                    assert(bytes.subrange(0, last_end as int) == bytes.subrange(0, start as int));
                }
                if start == end {
                    assert(bytes.subrange(0, start as int) == bytes.subrange(0, end as int));
                }
                let e = expected_scopes(bytes, srt.skip(idx), last_end as int);
                let m1 = scopes@.map_values(|s: ROScope<'viewee>| scope_model(s));
                let m0 = before.map_values(|s: ROScope<'viewee>| scope_model(s));
                let outp = if last_end < start {
                    seq![(false, bytes.subrange(last_end as int, start as int), None::<ScopeContext<'viewee>>)]
                } else {
                    Seq::empty()
                };
                let innp = if start < end {
                    seq![(true, bytes.subrange(start as int, end as int), context)]
                } else {
                    Seq::empty()
                };
                assert(e == outp + innp + expected_scopes(bytes, srt.skip(idx + 1), end as int));
                assert(m1 =~= m0 + outp + innp);
                assert(m1 + expected_scopes(bytes, srt.skip(idx + 1), end as int) =~= m0 + e);
                idx = idx + 1;
                if idx < srt.len() {
                    assert(srt[idx - 1].0.end <= srt[idx].0.start);
                }
            }
            last_end = end;
        }
        if last_end < len {
            let ghost before = scopes@;
            let tail = substr(input, last_end, len);
            scopes.push(ROScope(Scope::Out(tail)));
            proof {
                lemma_joined_push(before, ROScope(Scope::Out(tail)));
                assert(bytes.subrange(0, last_end as int) + bytes.subrange(last_end as int, len as int) =~= bytes.subrange(0, len as int));
            }
        }
        proof {
            assert(srt.skip(srt.len() as int) =~= Seq::<(Range<usize>, Option<ScopeContext<'viewee>>)>::empty());
            assert(bytes.subrange(0, bytes.len() as int) =~= bytes);
            if last_end >= len {
                assert(last_end == len);
            }
            assert(scopes@.map_values(|s: ROScope<'viewee>| scope_model(s)) =~= expected_scopes(bytes, srt, 0));
        }
        ROScopes(scopes)
    }

    /// Inverts the scopes: what was previously [`Scope::In`] is now [`Scope::Out`], and
    /// vice versa. Contexts are dropped.
    pub fn invert(self) -> (r: Self)
        ensures
            r.0@.len() == self.0@.len(),
            forall|i: int| 0 <= i < r.0@.len() ==> #[trigger] scope_bytes(r.0@[i]) == scope_bytes(self.0@[i]),
            forall|i: int| 0 <= i < r.0@.len() ==> (#[trigger] r.0@[i].0 is In) == (self.0@[i].0 is Out),
            forall|i: int| 0 <= i < r.0@.len() ==> (#[trigger] r.0@[i].0 matches Scope::In(_, ctx) ==> ctx is None),
            joined_bytes(r.0@) == joined_bytes(self.0@),
            r.0@ == self.0@.map_values(|s: ROScope<'viewee>| inverted_scope(s)),
    {
        let ghost orig = self.0@;
        let mut scopes: Vec<ROScope<'viewee>> = Vec::new();
        for s in iter: self.0.into_iter()
            invariant
                iter.seq() == orig,
                scopes@.len() == iter.index(),
                forall|i: int| 0 <= i < scopes@.len() ==> #[trigger] scope_bytes(scopes@[i]) == scope_bytes(orig[i]),
                forall|i: int| 0 <= i < scopes@.len() ==> (#[trigger] scopes@[i].0 is In) == (orig[i].0 is Out),
                forall|i: int| 0 <= i < scopes@.len() ==> (#[trigger] scopes@[i].0 matches Scope::In(_, ctx) ==> ctx is None),
                forall|i: int| 0 <= i < scopes@.len() ==> #[trigger] scopes@[i] == inverted_scope(orig[i]),
        {
            let inverted = match s.0 {
                Scope::In(t, _) => ROScope(Scope::Out(t)),
                Scope::Out(t) => ROScope(Scope::In(t, None)),
            };
            scopes.push(inverted);
        }
        proof {
            lemma_joined_pointwise(scopes@, orig);
            assert(scopes@ =~= orig.map_values(|s: ROScope<'viewee>| inverted_scope(s)));
        }
        ROScopes(scopes)
    }

    /// Checks for equality with a string, regarding only the raw string parts: whether
    /// a part is in or out of scope is disregarded.
    pub fn eq_str(&self, other: &str) -> (b: bool)
        ensures
            b == (joined_bytes(self.0@) == other.spec_bytes()),
    {
        let ob = other.as_bytes();
        let mut pos: usize = 0;
        let n = self.0.len();
        let mut i: usize = 0;
        while i < n
            invariant
                n == self.0@.len(),
                i <= n,
                ob@ == other.spec_bytes(),
                pos == joined_bytes(self.0@.take(i as int)).len(),
                pos <= ob@.len(),
                joined_bytes(self.0@.take(i as int)) == ob@.subrange(0, pos as int),
            decreases n - i,
        {
            let part = self.0[i].as_str().as_bytes();
            let plen = part.len();
            proof {
                assert(self.0@.take(i + 1).drop_last() == self.0@.take(i as int));
                assert(self.0@.take(i + 1).last() == self.0@[i as int]);
            }
            if plen > ob.len() - pos {
                proof {
                    lemma_joined_prefix_len(self.0@, i as int + 1);
                }
                return false;
            }
            let mut k: usize = 0;
            while k < plen
                invariant
                    k <= plen,
                    plen == part@.len(),
                    pos + plen <= ob@.len(),
                    ob@.len() <= usize::MAX,
                    ob@ == other.spec_bytes(),
                    n == self.0@.len(),
                    i < n,
                    part@ == scope_bytes(self.0@[i as int]),
                    pos == joined_bytes(self.0@.take(i as int)).len(),
                    forall|q: int| 0 <= q < k ==> part@[q] == ob@[pos + q],
                decreases plen - k,
            {
                if part[k] != ob[pos + k] {
                    proof {
                        lemma_joined_prefix_mismatch(self.0@, i as int, ob@, pos as int, k as int);
                    }
                    return false;
                }
                k = k + 1;
            }
            proof {
                assert(part@ =~= ob@.subrange(pos as int, pos + plen));
                assert(ob@.subrange(0, pos as int) + ob@.subrange(pos as int, pos + plen) =~= ob@.subrange(0, pos + plen));
            }
            pos = pos + plen;
            i = i + 1;
        }
        proof {
            assert(self.0@.take(n as int) == self.0@);
        }
        if pos == ob.len() {
            proof {
                assert(ob@.subrange(0, pos as int) =~= ob@);
            }
            true
        } else {
            false
        }
    }
}

impl<'viewee> RWScope<'viewee> {
    /// A read-write scope holding what the read-only scope holds.
    pub fn from_ro(s: ROScope<'viewee>) -> (r: Self)
        ensures
            match (s.0, r.0) {
                (Scope::In(a, ca), Scope::In(b, cb)) => b == Cow::<'viewee, str>::Borrowed(a) && ca == cb,
                (Scope::Out(a), Scope::Out(b)) => a == b,
                _ => false,
            },
    {
        match s.0 {
            Scope::In(t, ctx) => RWScope(Scope::In(Cow::Borrowed(t), ctx)),
            Scope::Out(t) => RWScope(Scope::Out(t)),
        }
    }
}

/// Pairs each range with no context.
pub fn ranges_with_context<'viewee>(val: Ranges<usize>) -> (r: RangesWithContext<'viewee>)
    ensures
        r@.len() == val.spec_ranges().len(),
        forall|i: int| 0 <= i < r@.len() ==> #[trigger] r@[i] == (val.spec_ranges()[i], None::<ScopeContext<'viewee>>),
{
    let v = val.into_vec();
    let mut r: RangesWithContext<'viewee> = Vec::new();
    let n = v.len();
    let mut i: usize = 0;
    while i < n
        invariant
            n == v@.len(),
            i <= n,
            r@.len() == i,
            forall|j: int| 0 <= j < i ==> #[trigger] r@[j] == (v@[j], None::<ScopeContext<'viewee>>),
        decreases n - i,
    {
        r.push((Range { start: v[i].start, end: v[i].end }, None));
        i = i + 1;
    }
    r
}

/// Ranges ordered by start that may be cut out of `bytes` one after the other.
pub open spec fn sorted_valid<'a>(bytes: Seq<u8>, rs: Seq<(Range<usize>, Option<ScopeContext<'a>>)>) -> bool {
    &&& forall|i: int| 0 <= i < rs.len() ==> #[trigger] rs[i].0.start <= rs[i].0.end <= bytes.len()
    &&& forall|i: int| 0 <= i < rs.len() ==> is_char_boundary(bytes, #[trigger] rs[i].0.start as int)
    &&& forall|i: int| 0 <= i < rs.len() ==> is_char_boundary(bytes, #[trigger] rs[i].0.end as int)
    &&& forall|i: int, j: int| 0 <= i < j < rs.len() ==> rs[i].0.end <= rs[j].0.start
}

proof fn lemma_sorted_valid<'a>(
    bytes: Seq<u8>,
    orig: Seq<(Range<usize>, Option<ScopeContext<'a>>)>,
    sorted: Seq<(Range<usize>, Option<ScopeContext<'a>>)>,
    perm: Seq<int>,
)
    requires
        valid_raw_ranges(bytes, orig),
        is_stable_sort(sorted, orig, perm),
    ensures
        sorted_valid(bytes, sorted),
{
    assert forall|i: int| 0 <= i < sorted.len() implies #[trigger] sorted[i].0.start <= sorted[i].0.end <= bytes.len() by {
        let p = perm[i];
        assert(sorted[i] == orig[p]);
        assert(orig[p].0.start <= orig[p].0.end <= bytes.len());
    }
    assert forall|i: int| 0 <= i < sorted.len() implies is_char_boundary(bytes, #[trigger] sorted[i].0.start as int) by {
        assert(sorted[i] == orig[perm[i]]);
    }
    assert forall|i: int| 0 <= i < sorted.len() implies is_char_boundary(bytes, #[trigger] sorted[i].0.end as int) by {
        assert(sorted[i] == orig[perm[i]]);
    }
    assert forall|i: int, j: int| 0 <= i < j < sorted.len() implies sorted[i].0.end <= sorted[j].0.start by {
        let p = perm[i];
        let q = perm[j];
        assert(sorted[i] == orig[p]);
        assert(sorted[j] == orig[q]);
        assert(p != q);
    }
}

proof fn lemma_joined_push(scopes: Seq<ROScope>, s: ROScope)
    ensures
        joined_bytes(scopes.push(s)) == joined_bytes(scopes) + scope_bytes(s),
{
    assert(scopes.push(s).drop_last() == scopes);
}

proof fn lemma_joined_pointwise(a: Seq<ROScope>, b: Seq<ROScope>)
    requires
        a.len() == b.len(),
        forall|i: int| 0 <= i < a.len() ==> #[trigger] scope_bytes(a[i]) == scope_bytes(b[i]),
    ensures
        joined_bytes(a) == joined_bytes(b),
    decreases a.len(),
{
    if a.len() > 0 {
        lemma_joined_pointwise(a.drop_last(), b.drop_last());
        assert(scope_bytes(a[a.len() - 1]) == scope_bytes(b[b.len() - 1]));
    }
}

/// The joined text of a prefix of the scopes is a prefix of the joined text of all.
proof fn lemma_joined_prefix(scopes: Seq<ROScope>, i: int)
    requires
        0 <= i <= scopes.len(),
    ensures
        joined_bytes(scopes.take(i)).is_prefix_of(joined_bytes(scopes)),
    decreases scopes.len() - i,
{
    if i < scopes.len() {
        lemma_joined_prefix(scopes, i + 1);
        assert(scopes.take(i + 1).drop_last() == scopes.take(i));
    } else {
        assert(scopes.take(i) == scopes);
    }
}

proof fn lemma_joined_prefix_len(scopes: Seq<ROScope>, i: int)
    requires
        0 <= i <= scopes.len(),
    ensures
        joined_bytes(scopes.take(i)).len() <= joined_bytes(scopes).len(),
{
    lemma_joined_prefix(scopes, i);
}

proof fn lemma_joined_prefix_mismatch(scopes: Seq<ROScope>, i: int, ob: Seq<u8>, pos: int, k: int)
    requires
        0 <= i < scopes.len(),
        pos == joined_bytes(scopes.take(i)).len(),
        0 <= k < scope_bytes(scopes[i]).len(),
        pos + k < ob.len(),
        scope_bytes(scopes[i])[k] != ob[pos + k],
    ensures
        joined_bytes(scopes) != ob,
{
    lemma_joined_prefix(scopes, i + 1);
    assert(scopes.take(i + 1).drop_last() == scopes.take(i));
    assert(scopes.take(i + 1).last() == scopes[i]);
    let j = joined_bytes(scopes.take(i + 1));
    assert(j[pos + k] == scope_bytes(scopes[i])[k]);
    if joined_bytes(scopes) == ob {
        assert(joined_bytes(scopes)[pos + k] == j[pos + k]);
    }
}

} // verus!
