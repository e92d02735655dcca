//! Scoping by regular expression.
use std::ops::Range;
use vstd::prelude::*;
use vstd::string::StringSliceAdditionalSpecFns;
use vstd::utf8::*;

use crate::scope::{raw_model, valid_raw_ranges, RangesWithContext, ScopeContext};
use crate::strs::substr;
use crate::Scoper;
use fancy_regex::Regex as RegexPattern;

verus! {

broadcast use vstd::string::group_string_axioms, vstd::utf8::encode_utf8_valid_utf8;

/// A capture group in a regex, which can be either named (`(?<name>REGEX)`) or numbered
/// (`(REGEX)`).
#[derive(Debug, Clone, PartialEq, Eq, Hash)]
pub enum CaptureGroup {
    /// A named capture group.
    Named(String),
    /// A numbered capture group, where 0 stands for the entire match.
    Numbered(usize),
}

/// A capture group as a plain value. A number is kept as an integer of any size, so
/// that a number written in a variable expression can be compared with group numbers.
pub ghost enum GroupKey {
    /// A named capture group, by its name.
    Named(Seq<char>),
    /// A numbered capture group, by its number.
    Numbered(int),
}

impl View for CaptureGroup {
    type V = GroupKey;

    open spec fn view(&self) -> GroupKey {
        match self {
            CaptureGroup::Named(name) => GroupKey::Named(name@),
            CaptureGroup::Numbered(n) => GroupKey::Numbered(*n as int),
        }
    }
}

impl CaptureGroup {
    /// How the capture group reads: its name or number, then its kind in parentheses.
    pub fn to_string(&self) -> (r: String)
        ensures
            r@ == match self {
                CaptureGroup::Named(name) => name@ + " (named)"@,
                CaptureGroup::Numbered(n) => crate::actions::replace::variables::decimal(*n as nat) + " (numbered)"@,
            },
    {
        match self {
            CaptureGroup::Named(name) => {
                proof {
                    reveal_strlit("");
                }
                crate::strs::framed("", name.as_str(), " (named)")
            },
            CaptureGroup::Numbered(n) => {
                proof {
                    reveal_strlit("");
                }
                let digits = crate::actions::replace::variables::number_text(*n);
                crate::strs::framed("", digits.as_str(), " (numbered)")
            },
        }
    }

    /// A copy of this capture group.
    pub fn copy(&self) -> (r: Self)
        ensures
            r@ == self@,
    {
        match self {
            CaptureGroup::Named(name) => CaptureGroup::Named(name.clone()),
            CaptureGroup::Numbered(n) => CaptureGroup::Numbered(*n),
        }
    }
}

#[verifier::external_type_specification]
#[verifier::external_body]
pub struct ExPattern(RegexPattern);

#[verifier::external_type_specification]
#[verifier::external_body]
pub struct ExPatternError(fancy_regex::Error);

/// Whether `fancy_regex::Regex::new` accepts the pattern with characters `pattern`.
pub uninterp spec fn regex_compiles(pattern: Seq<char>) -> bool;

/// The text that the compiled regular expression `p` was compiled from (what
/// `fancy_regex::Regex::as_str` gives).
pub uninterp spec fn pattern_source(p: RegexPattern) -> Seq<char>;

/// Compiles `pattern` (`fancy_regex::Regex::new`).
///
/// Trusted: whether it succeeds is `regex_compiles(pattern)`, a function of the pattern
/// alone (the crate parses and compiles the pattern's text, nothing else); the compiled
/// value keeps the text it was compiled from, as `fancy_regex::Regex::as_str` documents.
#[verifier::external_body]
fn compile(pattern: &str) -> (r: Result<RegexPattern, fancy_regex::Error>)
    ensures
        r is Ok <==> regex_compiles(pattern@),
        r matches Ok(p) ==> pattern_source(p) == pattern@,
{
    RegexPattern::new(pattern)
}

/// The capture-group names of the pattern with characters `pattern`, by group index:
/// what `fancy_regex::Regex::capture_names` lists for the regex that
/// `fancy_regex::Regex::new` compiles from it (a name, or nothing for an unnamed group),
/// and no names at all where the pattern does not compile.
pub uninterp spec fn capture_names_of(pattern: Seq<char>) -> Seq<Option<Seq<char>>>;

/// Capture-group names as plain values.
pub open spec fn names_view(names: Seq<Option<String>>) -> Seq<Option<Seq<char>>> {
    names.map_values(|n: Option<String>| match n {
        Some(s) => Some(s@),
        None => None,
    })
}

/// The names of the capture groups of `pattern`, by group index
/// (`fancy_regex::Regex::new`, then `fancy_regex::Regex::capture_names`).
///
/// Trusted: the names are `capture_names_of(pattern)`, a function of the pattern's text
/// alone (the crate parses the text and nothing else).
#[verifier::external_body]
fn capture_names(pattern: &str) -> (r: Vec<Option<String>>)
    ensures
        names_view(r@) == capture_names_of(pattern@),
{
    match RegexPattern::new(pattern) {
        Ok(p) => p.capture_names().map(|name| name.map(|n| n.to_owned())).collect(),
        Err(_) => Vec::new(),
    }
}

/// The source text of a compiled regular expression (`fancy_regex::Regex::as_str`).
///
/// Trusted: the text is `pattern_source(pattern)`, the original string the regex was
/// compiled from, as the crate documents.
#[verifier::external_body]
fn source_text(pattern: &RegexPattern) -> (r: String)
    ensures
        r@ == pattern_source(*pattern),
{
    pattern.as_str().to_owned()
}

/// Whether `m` is a range of bytes of `bytes` on character boundaries.
pub open spec fn is_text_range(bytes: Seq<u8>, m: Range<usize>) -> bool {
    &&& m.start <= m.end <= bytes.len()
    &&& is_char_boundary(bytes, m.start as int)
    &&& is_char_boundary(bytes, m.end as int)
}

/// Whether `found` can be the capture groups of successive matches in a text with
/// encoding `bytes`: each match has its whole range as group 0, all groups are ranges
/// of the text, and each match ends before the next begins.
pub open spec fn matches_of_text(bytes: Seq<u8>, found: Seq<Vec<Option<Range<usize>>>>) -> bool {
    &&& forall|k: int| 0 <= k < found.len() ==> (#[trigger] found[k])@.len() >= 1 && found[k]@[0] is Some
    &&& forall|k: int, i: int| 0 <= k < found.len() && 0 <= i < found[k]@.len() && (#[trigger] found[k]@[i]) is Some
        ==> is_text_range(bytes, found[k]@[i]->0)
    &&& forall|k: int| 0 <= k < found.len() - 1 ==> (#[trigger] found[k])@[0]->0.end <= found[k + 1]@[0]->0.start
}

/// The matches of the pattern with characters `pattern` in the text with characters
/// `input`: the regex that `fancy_regex::Regex::new` compiles from the pattern is run by
/// `fancy_regex::Regex::captures_iter`, and each match is listed with the byte ranges of
/// its groups by index (`fancy_regex::Captures::get`), up to the first search error;
/// with whether the search ended without error. A pattern that does not compile has no
/// matches and ends in error.
pub uninterp spec fn regex_captures(pattern: Seq<char>, input: Seq<char>) -> (Seq<Seq<Option<(usize, usize)>>>, bool);

/// The groups of a match as plain values: each group's byte range as start and end.
pub open spec fn groups_view(m: Seq<Option<Range<usize>>>) -> Seq<Option<(usize, usize)>> {
    m.map_values(|g: Option<Range<usize>>| match g {
        Some(r) => Some((r.start, r.end)),
        None => None,
    })
}

/// The groups of a match from plain values.
pub open spec fn groups_ranges(m: Seq<Option<(usize, usize)>>) -> Seq<Option<Range<usize>>> {
    m.map_values(|g: Option<(usize, usize)>| match g {
        Some(p) => Some(Range { start: p.0, end: p.1 }),
        None => None,
    })
}

/// Matches as plain values (see [`groups_view`]).
pub open spec fn found_view(found: Seq<Vec<Option<Range<usize>>>>) -> Seq<Seq<Option<(usize, usize)>>> {
    found.map_values(|m: Vec<Option<Range<usize>>>| groups_view(m@))
}

/// The capture groups of the successive non-overlapping matches of `pattern` in
/// `input` (`fancy_regex::Regex::new`, then `fancy_regex::Regex::captures_iter` and
/// `fancy_regex::Captures::get`), and whether the search ended without error.
///
/// Trusted: the matches are `regex_captures(pattern, input)`, a function of the pattern's
/// and the input's text alone; group 0 of each match is its whole match, all groups are
/// ranges of the input on character boundaries (the crate slices the input with them),
/// and the matches do not overlap, as the crate documents.
#[verifier::external_body]
fn captures_all(pattern: &str, input: &str) -> (r: (Vec<Vec<Option<Range<usize>>>>, bool))
    ensures
        matches_of_text(input.spec_bytes(), r.0@),
        found_view(r.0@) == regex_captures(pattern@, input@).0,
        r.1 == regex_captures(pattern@, input@).1,
{
    let Ok(re) = RegexPattern::new(pattern) else { return (Vec::new(), false) };
    let mut all = Vec::new();
    for cap in re.captures_iter(input) {
        match cap {
            Ok(cap) => all.push((0..cap.len()).map(|i| cap.get(i).map(|m| m.range())).collect()),
            Err(_) => return (all, false),
        }
    }
    (all, true)
}

/// An error in compiling a regular expression.
#[derive(Debug)]
pub struct RegexError(pub fancy_regex::Error);

/// What the crate's error says (its `Display`).
///
/// Trusted: nothing is claimed of the text; it is the crate's to word.
#[verifier::external_body]
fn pattern_error_text(e: &fancy_regex::Error) -> String {
    format!("{e}")
}

impl RegexError {
    /// What the error says: `Invalid regex: `, then what the crate says of it.
    pub fn to_string(&self) -> (r: String)
        ensures
            r@.len() >= "Invalid regex: "@.len(),
            r@.take("Invalid regex: "@.len() as int) == "Invalid regex: "@,
    {
        let inner = pattern_error_text(&self.0);
        let r = crate::strs::framed("Invalid regex: ", inner.as_str(), "");
        proof {
            assert(r@.take("Invalid regex: "@.len() as int) =~= "Invalid regex: "@);
        }
        r
    }
}

/// A regular expression to scope to, with its capture groups.
#[derive(Debug)]
pub struct Regex {
    pattern: String,
    captures: Vec<CaptureGroup>,
}

/// The capture groups named by `names`: a named group by its name, any other by its
/// index.
pub open spec fn groups_of_names(names: Seq<Option<Seq<char>>>) -> Seq<GroupKey> {
    Seq::new(names.len(), |i: int| match names[i] {
        Some(n) => GroupKey::Named(n),
        None => GroupKey::Numbered(i),
    })
}

/// The capture groups named by `names` (see [`groups_of_names`]).
pub fn groups_from_names(names: Vec<Option<String>>) -> (r: Vec<CaptureGroup>)
    ensures
        r@.len() == names@.len(),
        forall|i: int| 0 <= i < r@.len() ==> (#[trigger] r@[i])@ == groups_of_names(names_view(names@))[i],
{
    let n = names.len();
    let mut r: Vec<CaptureGroup> = Vec::new();
    let mut i: usize = 0;
    while i < n
        invariant
            i <= n,
            n == names@.len(),
            r@.len() == i,
            forall|j: int| 0 <= j < i ==> (#[trigger] r@[j])@ == groups_of_names(names_view(names@))[j],
        decreases n - i,
    {
        let g = match &names[i] {
            Some(name) => CaptureGroup::Named(name.clone()),
            None => CaptureGroup::Numbered(i),
        };
        r.push(g);
        i = i + 1;
    }
    r
}

impl Regex {
    /// The capture groups, as plain values.
    pub closed spec fn groups(&self) -> Seq<GroupKey> {
        self.captures@.map_values(|g: CaptureGroup| g@)
    }

    /// The pattern's text.
    pub closed spec fn text(&self) -> Seq<char> {
        self.pattern@
    }

    /// The scoper for the pattern with text `pattern`, knowing its capture groups by
    /// their names, or their indices where unnamed.
    fn of_text(pattern: String) -> (r: Self)
        ensures
            r.text() == pattern@,
            r.groups() == groups_of_names(capture_names_of(pattern@)),
    {
        let names = capture_names(pattern.as_str());
        let ghost nv = names_view(names@);
        let captures = groups_from_names(names);
        let r = Self { pattern, captures };
        proof {
            assert(r.groups() =~= groups_of_names(nv));
        }
        r
    }

    /// A scoper for the compiled `pattern`, by its text, knowing its capture groups by
    /// their names, or their indices where unnamed.
    pub fn new(pattern: RegexPattern) -> (r: Self)
        ensures
            r.text() == pattern_source(pattern),
            r.groups() == groups_of_names(capture_names_of(r.text())),
    {
        Self::of_text(source_text(&pattern))
    }

    /// Compiles `pattern` into a scoper.
    pub fn try_from(pattern: String) -> (r: Result<Self, RegexError>)
        ensures
            r is Ok <==> regex_compiles(pattern@),
            r matches Ok(re) ==> re.text() == pattern@ && re.groups() == groups_of_names(capture_names_of(pattern@)),
    {
        match compile(pattern.as_str()) {
            Ok(_) => Ok(Self::of_text(pattern)),
            Err(e) => Err(RegexError(e)),
        }
    }
}

/// The index of the group that the capture group `key` at position `i` of `groups`
/// refers to: a named group is the last group of that name, a numbered one the group of
/// that number.
pub open spec fn group_index(groups: Seq<GroupKey>, i: int) -> int {
    match groups[i] {
        GroupKey::Named(name) => choose|j: int| 0 <= j < groups.len() && groups[j] == GroupKey::Named(name)
            && forall|l: int| j < l < groups.len() ==> groups[l] != GroupKey::Named(name),
        GroupKey::Numbered(n) => n,
    }
}

/// The context of a match with groups `m` in `input`: for each capture group, in order,
/// the text of the group it refers to, if that group matched.
pub open spec fn context_of(groups: Seq<GroupKey>, m: Seq<Option<Range<usize>>>, input: Seq<u8>) -> Seq<(GroupKey, Seq<u8>)>
    decreases groups.len(),
{
    context_upto(groups, m, input, groups.len() as int)
}

/// The context for the first `k` capture groups (see [`context_of`]).
pub open spec fn context_upto(groups: Seq<GroupKey>, m: Seq<Option<Range<usize>>>, input: Seq<u8>, k: int) -> Seq<(GroupKey, Seq<u8>)>
    decreases k,
{
    if k <= 0 {
        Seq::empty()
    } else {
        let before = context_upto(groups, m, input, k - 1);
        let j = group_index(groups, k - 1);
        if 0 <= j < m.len() && m[j] is Some {
            before.push((groups[k - 1], input.subrange(m[j]->0.start as int, m[j]->0.end as int)))
        } else {
            before
        }
    }
}

/// The context of a scope as plain values.
pub open spec fn context_view(c: ScopeContext) -> Seq<(GroupKey, Seq<u8>)> {
    match c {
        ScopeContext::CaptureGroups(v) => v@.map_values(|e: (CaptureGroup, &str)| (e.0@, e.1.spec_bytes())),
    }
}

/// The index of the group that capture group `i` of `captures` refers to (see
/// [`group_index`]).
fn find_group_index(captures: &Vec<CaptureGroup>, i: usize) -> (j: usize)
    requires
        i < captures@.len(),
    ensures
        j == group_index(captures@.map_values(|g: CaptureGroup| g@), i as int),
{
    let ghost groups = captures@.map_values(|g: CaptureGroup| g@);
    match &captures[i] {
        CaptureGroup::Numbered(n) => *n,
        CaptureGroup::Named(name) => {
            let n = captures.len();
            let mut j: usize = n;
            proof {
                assert(groups[i as int] == GroupKey::Named(name@));
            }
            while j > 0
                invariant
                    j <= n,
                    n == captures@.len(),
                    i < n,
                    groups == captures@.map_values(|g: CaptureGroup| g@),
                    groups[i as int] == GroupKey::Named(name@),
                    forall|l: int| j <= l < n ==> groups[l] != GroupKey::Named(name@),
                    i < j,
                decreases j,
            {
                let same = match &captures[j - 1] {
                    CaptureGroup::Named(other) => string_eq(other, name),
                    CaptureGroup::Numbered(_) => false,
                };
                if same {
                    proof {
                        assert(groups[j - 1] == GroupKey::Named(name@));
                        let k = (j - 1) as int;
                        assert(0 <= k < groups.len() && groups[k] == GroupKey::Named(name@) && forall|l: int|
                            k < l < groups.len() ==> groups[l] != GroupKey::Named(name@));
                        let c = choose|c: int| 0 <= c < groups.len() && groups[c] == GroupKey::Named(name@)
                            && forall|l: int| c < l < groups.len() ==> groups[l] != GroupKey::Named(name@);
                        assert(c == k);
                    }
                    return j - 1;
                }
                proof {
                    assert(groups[j - 1] != GroupKey::Named(name@));
                }
                j = j - 1;
            }
            i
        },
    }
}

/// Whether the strings `a` and `b` have the same characters.
fn string_eq(a: &String, b: &String) -> (r: bool)
    ensures
        r == (a@ == b@),
{
    *a == *b
}

/// Whether every group of the match `m` that matched is a range of `bytes`.
pub open spec fn groups_in_text(bytes: Seq<u8>, m: Seq<Option<Range<usize>>>) -> bool {
    forall|i: int| 0 <= i < m.len() && (#[trigger] m[i]) is Some ==> is_text_range(bytes, m[i]->0)
}

/// The texts of the capture groups `captures` in a match with groups `m` (see
/// [`context_of`]).
fn context_for<'viewee>(input: &'viewee str, captures: &Vec<CaptureGroup>, m: &Vec<Option<Range<usize>>>) -> (ctx: Vec<(CaptureGroup, &'viewee str)>)
    requires
        groups_in_text(input.spec_bytes(), m@),
    ensures
        ctx@.map_values(|e: (CaptureGroup, &str)| (e.0@, e.1.spec_bytes())) == context_of(
            captures@.map_values(|g: CaptureGroup| g@),
            m@,
            input.spec_bytes(),
        ),
{
    let ghost bytes = input.spec_bytes();
    let ghost groups = captures@.map_values(|g: CaptureGroup| g@);
    let mut ctx: Vec<(CaptureGroup, &'viewee str)> = Vec::new();
    let nc = captures.len();
    let mut i: usize = 0;
    proof {
        assert(ctx@.map_values(|e: (CaptureGroup, &str)| (e.0@, e.1.spec_bytes())) =~= Seq::<(GroupKey, Seq<u8>)>::empty());
    }
    while i < nc
        invariant
            i <= nc,
            nc == captures@.len(),
            groups == captures@.map_values(|g: CaptureGroup| g@),
            bytes == input.spec_bytes(),
            groups_in_text(bytes, m@),
            ctx@.map_values(|e: (CaptureGroup, &str)| (e.0@, e.1.spec_bytes())) == context_upto(groups, m@, bytes, i as int),
        decreases nc - i,
    {
        let j = find_group_index(captures, i);
        let ghost before = ctx@;
        if j < m.len() {
            match &m[j] {
                Some(g) => {
                    proof {
                        assert(m@[j as int] is Some);
                        assert(is_text_range(bytes, m@[j as int]->0));
                    }
                    let text = substr(input, g.start, g.end);
                    ctx.push((captures[i].copy(), text));
                    proof {
                        assert(ctx@.map_values(|e: (CaptureGroup, &str)| (e.0@, e.1.spec_bytes())) =~= before.map_values(
                            |e: (CaptureGroup, &str)| (e.0@, e.1.spec_bytes()),
                        ).push((groups[i as int], bytes.subrange(g.start as int, g.end as int))));
                    }
                },
                None => {},
            }
        }
        i = i + 1;
    }
    ctx
}

/// Whether the ranges `r` start the matches `found`, in order, with the texts of the
/// capture groups as context.
pub open spec fn scopes_match<'a>(
    r: Seq<(Range<usize>, Option<ScopeContext<'a>>)>,
    groups: Seq<GroupKey>,
    found: Seq<Vec<Option<Range<usize>>>>,
    bytes: Seq<u8>,
) -> bool {
    forall|q: int| 0 <= q < r.len() ==> (#[trigger] r[q]).0 == found[q]@[0]->0 && r[q].1 is Some
        && context_view(r[q].1->0) == context_of(groups, found[q]@, bytes)
}

/// The ranges in scope for the matches `found` in `input`: each match's whole range,
/// with the texts of the capture groups `captures` as context.
pub fn ranges_from_matches<'viewee>(
    input: &'viewee str,
    captures: &Vec<CaptureGroup>,
    found: Vec<Vec<Option<Range<usize>>>>,
) -> (r: RangesWithContext<'viewee>)
    requires
        matches_of_text(input.spec_bytes(), found@),
    ensures
        valid_raw_ranges(input.spec_bytes(), r@),
        r@.len() == found@.len(),
        scopes_match(r@, captures@.map_values(|g: CaptureGroup| g@), found@, input.spec_bytes()),
{
    let ghost bytes = input.spec_bytes();
    let ghost groups = captures@.map_values(|g: CaptureGroup| g@);
    let nm = found.len();
    let mut r: RangesWithContext<'viewee> = Vec::new();
    let mut k: usize = 0;
    while k < nm
        invariant
            k <= nm,
            nm == found@.len(),
            bytes == input.spec_bytes(),
            groups == captures@.map_values(|g: CaptureGroup| g@),
            matches_of_text(bytes, found@),
            r@.len() == k,
            scopes_match(r@, groups, found@, bytes),
        decreases nm - k,
    {
        let m = &found[k];
        proof {
            assert(found@[k as int]@.len() >= 1 && found@[k as int]@[0] is Some);
            assert forall|i: int| 0 <= i < m@.len() && (#[trigger] m@[i]) is Some implies is_text_range(bytes, m@[i]->0) by {
                assert(found@[k as int]@[i] is Some);
            }
        }
        let whole = match &m[0] {
            Some(w) => Range { start: w.start, end: w.end },
            None => Range { start: 0, end: 0 },
        };
        let ctx = context_for(input, captures, m);
        let ghost before_r = r@;
        r.push((whole, Some(ScopeContext::CaptureGroups(ctx))));
        proof {
            assert forall|q: int| 0 <= q < r@.len() implies (#[trigger] r@[q]).0 == found@[q]@[0]->0 && r@[q].1 is Some
                && context_view(r@[q].1->0) == context_of(groups, found@[q]@, bytes) by {
                if q < k {
                    assert(r@[q] == before_r[q]);
                }
            }
        }
        k = k + 1;
    }
    proof {
        lemma_valid_from_matches(bytes, found@, r@);
    }
    r
}

/// Ranges that start successive matches are valid raw ranges.
proof fn lemma_valid_from_matches<'a>(
    bytes: Seq<u8>,
    found: Seq<Vec<Option<Range<usize>>>>,
    rs: Seq<(Range<usize>, Option<ScopeContext<'a>>)>,
)
    requires
        matches_of_text(bytes, found),
        rs.len() == found.len(),
        forall|q: int| 0 <= q < rs.len() ==> (#[trigger] rs[q]).0 == found[q]@[0]->0,
    ensures
        valid_raw_ranges(bytes, rs),
{
    assert forall|i: int| 0 <= i < rs.len() implies #[trigger] rs[i].0.start <= rs[i].0.end <= bytes.len() by {
        assert(rs[i].0 == found[i]@[0]->0);
        assert(found[i]@.len() >= 1 && found[i]@[0] is Some);
        assert(is_text_range(bytes, found[i]@[0]->0));
    }
    assert forall|i: int| 0 <= i < rs.len() implies is_char_boundary(bytes, #[trigger] rs[i].0.start as int) by {
        assert(rs[i].0 == found[i]@[0]->0);
        assert(found[i]@.len() >= 1 && found[i]@[0] is Some);
        assert(is_text_range(bytes, found[i]@[0]->0));
    }
    assert forall|i: int| 0 <= i < rs.len() implies is_char_boundary(bytes, #[trigger] rs[i].0.end as int) by {
        assert(rs[i].0 == found[i]@[0]->0);
        assert(found[i]@.len() >= 1 && found[i]@[0] is Some);
        assert(is_text_range(bytes, found[i]@[0]->0));
    }
    assert forall|i: int, j: int|
        0 <= i < rs.len() && 0 <= j < rs.len() && i != j && (rs[i].0.start < rs[j].0.start || (rs[i].0.start
            == rs[j].0.start && i < j)) implies rs[i].0.end <= rs[j].0.start by {
        assert(rs[i].0 == found[i]@[0]->0);
        assert(rs[j].0 == found[j]@[0]->0);
        if i < j {
            lemma_matches_ordered(bytes, found, i, j);
        } else {
            lemma_matches_ordered(bytes, found, j, i);
            assert(found[j]@[0] is Some && found[i]@[0] is Some);
            assert(is_text_range(bytes, found[i]@[0]->0));
            assert(is_text_range(bytes, found[j]@[0]->0));
        }
    }
}

/// Of two matches, the earlier ends before the later begins.
proof fn lemma_matches_ordered(bytes: Seq<u8>, found: Seq<Vec<Option<Range<usize>>>>, a: int, b: int)
    requires
        matches_of_text(bytes, found),
        0 <= a < b < found.len(),
    ensures
        found[a]@[0]->0.end <= found[b]@[0]->0.start,
    decreases b - a,
{
    assert(found[a]@.len() >= 1 && found[a]@[0] is Some);
    assert(found[b - 1]@.len() >= 1 && found[b - 1]@[0] is Some);
    if b - a > 1 {
        lemma_matches_ordered(bytes, found, a, b - 1);
        assert(is_text_range(bytes, found[b - 1]@[0]->0));
        assert(found[b - 1]@[0]->0.end <= found[b]@[0]->0.start);
    } else {
        assert(found[a]@[0]->0.end <= found[a + 1]@[0]->0.start);
    }
}

/// The whole byte range of a match as plain values: that of its group 0.
pub open spec fn match_range(m: Seq<Option<(usize, usize)>>) -> Range<usize> {
    match m[0] {
        Some(p) => Range { start: p.0, end: p.1 },
        None => Range { start: 0, end: 0 },
    }
}

/// The ranges in scope for the matches `found` (as plain values) in the text with
/// encoding `bytes`: each match's whole range, with the texts of the capture groups
/// `groups` as context.
pub open spec fn matches_scoped(groups: Seq<GroupKey>, found: Seq<Seq<Option<(usize, usize)>>>, bytes: Seq<u8>) -> Seq<
    (Range<usize>, Option<Seq<(GroupKey, Seq<u8>)>>),
> {
    Seq::new(found.len(), |q: int| (match_range(found[q]), Some(context_of(groups, groups_ranges(found[q]), bytes))))
}

impl Scoper for Regex {
    /// The whole ranges of the matches of the pattern, in order, each with the texts of
    /// the capture groups as context (see [`regex_captures`]).
    open spec fn scoped(&self, input: Seq<char>) -> Seq<(Range<usize>, Option<Seq<(GroupKey, Seq<u8>)>>)> {
        matches_scoped(self.groups(), regex_captures(self.text(), input).0, encode_utf8(input))
    }

    /// A text can be scoped where searching it ends without error (see
    /// [`regex_captures`]).
    open spec fn scopes_fully(&self, input: Seq<char>) -> bool {
        regex_captures(self.text(), input).1
    }

    fn can_scope(&self, input: &str) -> (b: bool) {
        let (_found, complete) = captures_all(self.pattern.as_str(), input);
        complete
    }

    /// The whole ranges of the successive matches, each with the texts of the capture
    /// groups as context (see [`ranges_from_matches`]).
    fn scope_raw<'viewee>(&self, input: &'viewee str) -> (r: RangesWithContext<'viewee>) {
        let (found, _complete) = captures_all(self.pattern.as_str(), input);
        let ghost bytes = input.spec_bytes();
        let ghost groups = self.captures@.map_values(|g: CaptureGroup| g@);
        let r = ranges_from_matches(input, &self.captures, found);
        proof {
            let fv = regex_captures(self.text(), input@).0;
            let want = matches_scoped(self.groups(), fv, bytes);
            assert(fv == found_view(found@));
            assert forall|q: int| 0 <= q < r@.len() implies #[trigger] raw_model(r@)[q] == want[q] by {
                let m = found@[q]@;
                assert(fv[q] == groups_view(m));
                assert(groups_ranges(groups_view(m)) =~= m);
                assert(m.len() >= 1 && m[0] is Some);
                assert(groups_view(m)[0] == Some((m[0]->0.start, m[0]->0.end)));
                assert(r@[q].0 == m[0]->0);
                assert(match_range(fv[q]) == r@[q].0);
            }
            assert(raw_model(r@) =~= want);
        }
        r
    }
}

} // verus!
