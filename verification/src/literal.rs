//! Scoping by a literal string.
use std::ops::Range;
use vstd::prelude::*;
use vstd::string::StringSliceAdditionalSpecFns;
use vstd::utf8::*;

use crate::actions::replace::{unescape_str, unescaped};
use crate::regex::GroupKey;
use crate::scope::{raw_model, valid_raw_ranges, RangesWithContext, ScopeContext};
use crate::strs::to_chars;
use crate::Scoper;

verus! {

broadcast use vstd::string::group_string_axioms, vstd::utf8::encode_utf8_valid_utf8;

/// A literal string to scope to.
#[derive(Debug)]
pub struct Literal(String);

/// An error in creating a literal.
#[derive(Debug)]
pub enum LiteralError {
    /// The literal contains invalid escape sequences.
    InvalidEscapeSequences(String),
}

impl LiteralError {
    /// What the error says.
    pub fn to_string(&self) -> (r: String)
        ensures
            r@ == match self {
                LiteralError::InvalidEscapeSequences(s) => "Contains invalid escape sequences: '"@ + s@ + "'"@,
            },
    {
        match self {
            LiteralError::InvalidEscapeSequences(s) => crate::strs::framed(
                "Contains invalid escape sequences: '",
                s.as_str(),
                "'",
            ),
        }
    }
}

impl Literal {
    /// The literal's text, escape sequences processed.
    pub closed spec fn text(&self) -> Seq<char> {
        self.0@
    }

    /// Creates a new literal from an owned string, processing its escape sequences.
    pub fn try_from(literal: String) -> (r: Result<Self, LiteralError>)
        ensures
            match r {
                Ok(l) => unescaped(literal@) == Some(l.text()),
                Err(LiteralError::InvalidEscapeSequences(s)) => unescaped(literal@) is None && s@ == literal@,
            },
    {
        match unescape_str(literal.as_str()) {
            Some(s) => Ok(Literal(s)),
            None => Err(LiteralError::InvalidEscapeSequences(literal)),
        }
    }
}

/// Whether `p` occurs in `s` at character position `i`.
pub open spec fn occurs_at(s: Seq<char>, p: Seq<char>, i: int) -> bool {
    0 <= i && i + p.len() <= s.len() && s.subrange(i, i + p.len()) == p
}

/// The character positions at which the non-empty `p` occurs in `s`, from position
/// `from` on, left to right and without overlaps.
pub open spec fn occurrences_from(s: Seq<char>, p: Seq<char>, from: int) -> Seq<int>
    decreases s.len() - from,
{
    if p.len() == 0 || from < 0 || from + p.len() > s.len() {
        Seq::empty()
    } else if occurs_at(s, p, from) {
        seq![from] + occurrences_from(s, p, from + p.len())
    } else {
        occurrences_from(s, p, from + 1)
    }
}

/// The character ranges of the matches of `p` in `s`, as `match_indices` finds them: the
/// non-overlapping occurrences from left to right, or, for the empty `p`, an empty match
/// at every position.
pub open spec fn literal_matches(s: Seq<char>, p: Seq<char>) -> Seq<(int, int)> {
    if p.len() == 0 {
        Seq::new((s.len() + 1) as nat, |k: int| (k, k))
    } else {
        occurrences_from(s, p, 0).map_values(|i: int| (i, i + p.len()))
    }
}

/// The byte offset of character position `k` in `s`.
pub open spec fn byte_offset(s: Seq<char>, k: int) -> int {
    encode_utf8(s.take(k)).len() as int
}

/// The encoding of a string is the encoding of a prefix followed by that of the rest.
pub(crate) proof fn lemma_encode_split(s: Seq<char>, k: int)
    requires
        0 <= k <= s.len(),
    ensures
        encode_utf8(s) == encode_utf8(s.take(k)) + encode_utf8(s.skip(k)),
    decreases k,
{
    if k == 0 {
        assert(s.take(0) =~= Seq::<char>::empty());
        assert(s.skip(0) =~= s);
        assert(encode_utf8(s.take(0)) =~= Seq::<u8>::empty());
        assert(Seq::<u8>::empty() + encode_utf8(s) =~= encode_utf8(s));
    } else {
        lemma_encode_split(s.drop_first(), k - 1);
        assert(s.take(k).drop_first() =~= s.drop_first().take(k - 1));
        assert(s.skip(k) =~= s.drop_first().skip(k - 1));
        assert(s.take(k)[0] == s[0]);
        assert(encode_utf8(s.take(k)) == encode_scalar(s[0] as u32) + encode_utf8(s.drop_first().take(k - 1)));
        assert(encode_utf8(s) == encode_scalar(s[0] as u32) + encode_utf8(s.drop_first()));
        assert(encode_utf8(s) =~= encode_utf8(s.take(k)) + encode_utf8(s.skip(k)));
    }
}

/// Byte offsets of character positions are character boundaries.
proof fn lemma_offset_is_boundary(s: Seq<char>, k: int)
    requires
        0 <= k <= s.len(),
    ensures
        is_char_boundary(encode_utf8(s), byte_offset(s, k)),
        byte_offset(s, k) <= encode_utf8(s).len(),
    decreases k,
{
    lemma_encode_split(s, k);
    if k > 0 {
        let bytes = encode_utf8(s);
        encode_utf8_first_scalar(s);
        assert(pop_first_scalar(bytes) =~= encode_utf8(s.drop_first()));
        lemma_offset_is_boundary(s.drop_first(), k - 1);
        assert(s.take(k).drop_first() =~= s.drop_first().take(k - 1));
        assert(s.take(k)[0] == s[0]);
        assert(encode_utf8(s.take(k)) == encode_scalar(s[0] as u32) + encode_utf8(s.drop_first().take(k - 1)));
    }
}

/// Byte offsets grow with character positions.
pub(crate) proof fn lemma_offset_monotone(s: Seq<char>, j: int, k: int)
    requires
        0 <= j <= k <= s.len(),
    ensures
        byte_offset(s, j) <= byte_offset(s, k),
{
    lemma_encode_split(s.take(k), j);
    assert(s.take(k).take(j) =~= s.take(j));
}

/// One more character moves the byte offset by its encoding's length.
pub(crate) proof fn lemma_offset_step(s: Seq<char>, k: int)
    requires
        0 <= k < s.len(),
    ensures
        byte_offset(s, k + 1) == byte_offset(s, k) + encode_scalar(s[k] as u32).len(),
{
    lemma_encode_split(s.take(k + 1), k);
    assert(s.take(k + 1).take(k) =~= s.take(k));
    assert(s.take(k + 1).skip(k) =~= seq![s[k]]);
    assert(encode_utf8(seq![s[k]]) =~= encode_scalar(s[k] as u32) + encode_utf8(seq![s[k]].drop_first()));
    assert(seq![s[k]].drop_first() =~= Seq::<char>::empty());
}

/// A character's encoding takes at least one byte.
pub(crate) proof fn lemma_scalar_len(c: char)
    ensures
        1 <= encode_scalar(c as u32).len() <= 4,
{
    char_is_scalar(c);
    reveal_with_fuel(encode_scalar, 1);
}

/// Byte offsets grow strictly with character positions.
pub(crate) proof fn lemma_offset_strict(s: Seq<char>, j: int, k: int)
    requires
        0 <= j < k <= s.len(),
    ensures
        byte_offset(s, j) < byte_offset(s, k),
{
    lemma_offset_step(s, j);
    lemma_scalar_len(s[j]);
    lemma_offset_monotone(s, j + 1, k);
}

/// The byte offsets of all character positions of `cs`, from 0 to the whole length.
fn byte_offsets(cs: &Vec<char>) -> (offs: Vec<usize>)
    requires
        encode_utf8(cs@).len() <= usize::MAX,
    ensures
        offs@.len() == cs@.len() + 1,
        forall|k: int| 0 <= k <= cs@.len() ==> #[trigger] offs@[k] == byte_offset(cs@, k),
{
    let n = cs.len();
    let mut offs: Vec<usize> = Vec::new();
    let mut pos: usize = 0;
    offs.push(0);
    proof {
        assert(cs@.take(0) =~= Seq::<char>::empty());
    }
    let mut k: usize = 0;
    while k < n
        invariant
            k <= n,
            n == cs@.len(),
            encode_utf8(cs@).len() <= usize::MAX,
            offs@.len() == k + 1,
            pos == byte_offset(cs@, k as int),
            forall|j: int| 0 <= j <= k ==> #[trigger] offs@[j] == byte_offset(cs@, j),
        decreases n - k,
    {
        proof {
            lemma_offset_step(cs@, k as int);
            lemma_offset_monotone(cs@, k + 1, n as int);
            assert(cs@.take(n as int) =~= cs@);
        }
        let c = cs[k];
        let w: usize = if (c as u32) < 0x80 {
            1
        } else if (c as u32) < 0x800 {
            2
        } else if (c as u32) < 0x10000 {
            3
        } else {
            4
        };
        proof {
            char_is_scalar(c);
            assert(encode_scalar(c as u32).len() == w) by {
                reveal_with_fuel(encode_scalar, 1);
            }
        }
        pos = pos + w;
        offs.push(pos);
        k = k + 1;
    }
    offs
}

/// Whether `p` occurs in `s` at character position `i`.
fn occurs_at_exec(s: &Vec<char>, p: &Vec<char>, i: usize) -> (b: bool)
    requires
        i + p@.len() <= s@.len(),
    ensures
        b == occurs_at(s@, p@, i as int),
{
    let n = s.len();
    let m = p.len();
    let mut j: usize = 0;
    while j < m
        invariant
            n == s@.len(),
            j <= m,
            m == p@.len(),
            i + m <= s@.len(),
            forall|q: int| 0 <= q < j ==> s@[i + q] == p@[q],
        decreases m - j,
    {
        if s[i + j] != p[j] {
            proof {
                assert(s@.subrange(i as int, i + m)[j as int] != p@[j as int]);
            }
            return false;
        }
        j = j + 1;
    }
    proof {
        assert(s@.subrange(i as int, i + m) =~= p@);
    }
    true
}

/// The ranges that `scope_raw` gives for `input` and the literal `p`: the byte ranges of
/// the matches (see [`literal_matches`]), without context.
pub open spec fn literal_ranges<'a>(input: Seq<char>, p: Seq<char>) -> Seq<(int, int)> {
    literal_matches(input, p).map_values(|m: (int, int)| (byte_offset(input, m.0), byte_offset(input, m.1)))
}

proof fn lemma_occurrences_bounds(s: Seq<char>, p: Seq<char>, from: int)
    requires
        p.len() > 0,
        from >= 0,
    ensures
        forall|k: int| 0 <= k < occurrences_from(s, p, from).len() ==> from <= #[trigger] occurrences_from(s, p, from)[k]
            && occurrences_from(s, p, from)[k] + p.len() <= s.len()
            && occurs_at(s, p, occurrences_from(s, p, from)[k]),
        forall|k: int, l: int| 0 <= k < l < occurrences_from(s, p, from).len() ==>
            #[trigger] occurrences_from(s, p, from)[k] + p.len() <= #[trigger] occurrences_from(s, p, from)[l],
    decreases s.len() - from,
{
    let all = occurrences_from(s, p, from);
    if from + p.len() > s.len() {
        assert(all.len() == 0);
    } else if occurs_at(s, p, from) {
        lemma_occurrences_bounds(s, p, from + p.len());
        let rest = occurrences_from(s, p, from + p.len());
        assert(all == seq![from] + rest);
        assert forall|k: int| 0 <= k < all.len() implies from <= #[trigger] all[k] && all[k] + p.len() <= s.len()
            && occurs_at(s, p, all[k]) by {
            if k > 0 {
                assert(all[k] == rest[k - 1]);
            }
        }
        assert forall|k: int, l: int| 0 <= k < l < all.len() implies #[trigger] all[k] + p.len() <= #[trigger] all[l] by {
            assert(all[l] == rest[l - 1]);
            if k > 0 {
                assert(all[k] == rest[k - 1]);
            }
        }
    } else {
        lemma_occurrences_bounds(s, p, from + 1);
        let rest = occurrences_from(s, p, from + 1);
        assert(all == rest);
    }
}

/// Whether the ranges `r` are the byte ranges of the occurrences `occ` of a pattern of
/// `m` characters in `s`, without context.
pub open spec fn agree_with<'a>(r: Seq<(Range<usize>, Option<ScopeContext<'a>>)>, s: Seq<char>, occ: Seq<int>, m: int) -> bool {
    forall|q: int| 0 <= q < r.len() ==> #[trigger] r[q].0.start == byte_offset(s, occ[q])
        && r[q].0.end == byte_offset(s, occ[q] + m) && r[q].1 is None
}

proof fn lemma_agree_push<'a>(r: Seq<(Range<usize>, Option<ScopeContext<'a>>)>, s: Seq<char>, occ: Seq<int>, m: int, x: (Range<usize>, Option<ScopeContext<'a>>))
    requires
        agree_with(r, s, occ, m),
        r.len() < occ.len(),
        x.0.start == byte_offset(s, occ[r.len() as int]),
        x.0.end == byte_offset(s, occ[r.len() as int] + m),
        x.1 is None,
    ensures
        agree_with(r.push(x), s, occ, m),
{
    let r2 = r.push(x);
    assert forall|q: int| 0 <= q < r2.len() implies #[trigger] r2[q].0.start == byte_offset(s, occ[q])
        && r2[q].0.end == byte_offset(s, occ[q] + m) && r2[q].1 is None by {
        if q < r.len() {
            assert(r2[q] == r[q]);
        }
    }
}

impl Scoper for Literal {
    /// The byte ranges of the occurrences of the text (see [`literal_ranges`]), without
    /// context.
    open spec fn scoped(&self, input: Seq<char>) -> Seq<(Range<usize>, Option<Seq<(GroupKey, Seq<u8>)>>)> {
        Seq::new(
            literal_ranges(input, self.text()).len(),
            |i: int| (Range { start: literal_ranges(input, self.text())[i].0 as usize, end: literal_ranges(input, self.text())[i].1 as usize }, None),
        )
    }

    /// Every text can be scoped to a literal string.
    open spec fn scopes_fully(&self, input: Seq<char>) -> bool {
        true
    }

    fn can_scope(&self, input: &str) -> (b: bool) {
        true
    }

    fn scope_raw<'viewee>(&self, input: &'viewee str) -> (r: RangesWithContext<'viewee>)
        ensures
            valid_raw_ranges(input.spec_bytes(), r@),
            r@.len() == literal_ranges(input@, self.text()).len(),
            forall|i: int| 0 <= i < r@.len() ==> #[trigger] r@[i].0.start == literal_ranges(input@, self.text())[i].0
                && r@[i].0.end == literal_ranges(input@, self.text())[i].1 && r@[i].1 is None,
    {
        let s = to_chars(input);
        let p = to_chars(self.0.as_str());
        let n = s.len();
        let m = p.len();
        let total = input.as_bytes().len();
        proof {
            assert(encode_utf8(s@).len() == total);
        }
        let offs = byte_offsets(&s);
        let ghost lr = literal_ranges(input@, self.text());
        proof {
            assert(s@ == input@ && p@ == self.text());
        }
        let mut r: RangesWithContext<'viewee> = Vec::new();
        if m == 0 {
            let n1 = offs.len();
            let mut k: usize = 0;
            while k < n1
                invariant
                    n1 == n + 1,
                    k <= n + 1,
                    n == s@.len(),
                    m == 0,
                    p@.len() == 0,
                    offs@.len() == n + 1,
                    forall|j: int| 0 <= j <= n ==> #[trigger] offs@[j] == byte_offset(s@, j),
                    r@.len() == k,
                    forall|i: int| 0 <= i < k ==> #[trigger] r@[i].0.start == byte_offset(s@, i) && r@[i].0.end
                        == byte_offset(s@, i) && r@[i].1 is None,
                decreases n + 1 - k,
            {
                r.push((Range { start: offs[k], end: offs[k] }, None));
                k = k + 1;
            }
            proof {
                assert(lr == literal_ranges(s@, p@));
                assert(literal_matches(s@, p@) == Seq::new((n + 1) as nat, |k: int| (k, k)));
                assert(lr.len() == n + 1);
                assert forall|i: int| 0 <= i < r@.len() implies (#[trigger] r@[i]).0.start == lr[i].0 && r@[i].0.end == lr[i].1 && r@[i].1 is None by {
                    assert(literal_matches(s@, p@)[i] == (i, i));
                    assert(lr[i] == (byte_offset(s@, i), byte_offset(s@, i)));
                    assert(r@[i].0.start == byte_offset(s@, i));
                }
                assert(r@.len() == lr.len());
                assert(lr == literal_ranges(s@, p@));
                lemma_ranges_valid(s@, p@, r@);
                lemma_literal_model(lr, r@);
            }
            return r;
        }
        let ghost occ = occurrences_from(s@, p@, 0);
        let mut i: usize = 0;
        proof {
            lemma_occurrences_bounds(s@, p@, 0);
            assert(occ.skip(0) =~= occ);
        }
        while m <= n && i <= n - m
            invariant
                i <= n + 1,
                m == p@.len(),
                m > 0,
                n == s@.len(),
                offs@.len() == n + 1,
                forall|j: int| 0 <= j <= n ==> #[trigger] offs@[j] == byte_offset(s@, j),
                occ == occurrences_from(s@, p@, 0),
                r@.len() <= occ.len(),
                occurrences_from(s@, p@, i as int) == occ.skip(r@.len() as int),
                agree_with(r@, s@, occ, m as int),
            decreases n + 1 - i,
        {
            let ghost f0 = r@.len() as int;
            if occurs_at_exec(&s, &p, i) {
                proof {
                    assert(occ.skip(f0)[0] == i);
                    assert(occ.skip(f0).drop_first() =~= occ.skip(f0 + 1));
                    assert(occ[f0] == i);
                }
                let x = (Range { start: offs[i], end: offs[i + m] }, None);
                proof {
                    lemma_agree_push(r@, s@, occ, m as int, x);
                }
                r.push(x);
                i = i + m;
            } else {
                i = i + 1;
            }
        }
        proof {
            assert(occurrences_from(s@, p@, i as int) =~= Seq::<int>::empty());
            assert(occ.skip(r@.len() as int).len() == 0);
            assert(r@.len() == occ.len());
            assert(lr.len() == occ.len());
            assert forall|q: int| 0 <= q < r@.len() implies (#[trigger] r@[q]).0.start == lr[q].0 && r@[q].0.end == lr[q].1 && r@[q].1 is None by {
                assert(literal_matches(s@, p@)[q] == (occ[q], occ[q] + m));
                assert(lr[q] == (byte_offset(s@, occ[q]), byte_offset(s@, occ[q] + m)));
                assert(r@[q].0.start == byte_offset(s@, occ[q]));
            }
            lemma_ranges_valid(s@, p@, r@);
            lemma_literal_model(lr, r@);
        }
        r
    }
}

/// Ranges with the byte offsets `lr` and no context are, as plain values, those offsets.
proof fn lemma_literal_model<'a>(lr: Seq<(int, int)>, r: Seq<(Range<usize>, Option<ScopeContext<'a>>)>)
    requires
        r.len() == lr.len(),
        forall|i: int| 0 <= i < r.len() ==> (#[trigger] r[i]).0.start == lr[i].0 && r[i].0.end == lr[i].1 && r[i].1 is None,
    ensures
        raw_model(r) == Seq::new(lr.len(), |i: int| (Range { start: lr[i].0 as usize, end: lr[i].1 as usize }, None::<Seq<(GroupKey, Seq<u8>)>>)),
{
    let want = Seq::new(lr.len(), |i: int| (Range { start: lr[i].0 as usize, end: lr[i].1 as usize }, None::<Seq<(GroupKey, Seq<u8>)>>));
    assert forall|i: int| 0 <= i < r.len() implies raw_model(r)[i] == want[i] by {
        assert(r[i].0.start == lr[i].0 && r[i].0.end == lr[i].1 && r[i].1 is None);
    }
    assert(raw_model(r) =~= want);
}

/// The ranges of the matches lie on character boundaries and each ends before the next
/// begins.
proof fn lemma_ranges_valid<'a>(s: Seq<char>, p: Seq<char>, r: Seq<(Range<usize>, Option<ScopeContext<'a>>)>)
    requires
        r.len() == literal_ranges(s, p).len(),
        forall|i: int| 0 <= i < r.len() ==> #[trigger] r[i].0.start == literal_ranges(s, p)[i].0 && r[i].0.end
            == literal_ranges(s, p)[i].1,
    ensures
        valid_raw_ranges(encode_utf8(s), r),
{
    let lm = literal_matches(s, p);
    assert forall|i: int| 0 <= i < lm.len() implies 0 <= (#[trigger] lm[i]).0 <= lm[i].1 <= s.len() by {
        if p.len() > 0 {
            lemma_occurrences_bounds(s, p, 0);
        }
    }
    assert forall|i: int| 0 <= i < r.len() implies #[trigger] r[i].0.start <= r[i].0.end <= encode_utf8(s).len() by {
        assert(0 <= lm[i].0 <= lm[i].1 <= s.len());
        assert(r[i].0.start == literal_ranges(s, p)[i].0);
        assert(r[i].0.end == literal_ranges(s, p)[i].1);
        lemma_offset_monotone(s, lm[i].0, lm[i].1);
        lemma_offset_is_boundary(s, lm[i].1);
    }
    assert forall|i: int| 0 <= i < r.len() implies is_char_boundary(encode_utf8(s), #[trigger] r[i].0.start as int) by {
        lemma_offset_is_boundary(s, lm[i].0);
    }
    assert forall|i: int| 0 <= i < r.len() implies is_char_boundary(encode_utf8(s), #[trigger] r[i].0.end as int) by {
        assert(0 <= lm[i].0 <= lm[i].1 <= s.len());
        lemma_offset_is_boundary(s, lm[i].1);
        assert(r[i].0.start == literal_ranges(s, p)[i].0);
        assert(r[i].0.end == literal_ranges(s, p)[i].1);
        assert(literal_ranges(s, p)[i].1 == byte_offset(s, lm[i].1));
    }
    assert forall|i: int, j: int|
        0 <= i < r.len() && 0 <= j < r.len() && i != j && (r[i].0.start < r[j].0.start || (r[i].0.start == r[j].0.start
            && i < j)) implies r[i].0.end <= r[j].0.start by {
        if p.len() > 0 {
            lemma_occurrences_bounds(s, p, 0);
            let occ = occurrences_from(s, p, 0);
            if j < i {
                assert(occ[j] + p.len() <= occ[i]);
                lemma_offset_monotone(s, occ[j], occ[i]);
                lemma_offset_monotone(s, occ[j], occ[j] + p.len());
                lemma_offset_monotone(s, occ[j] + p.len(), occ[i]);
                assert(false);
            } else {
                assert(occ[i] + p.len() <= occ[j]);
                lemma_offset_monotone(s, occ[i] + p.len(), occ[j]);
            }
        } else {
            if j < i {
                lemma_offset_monotone(s, j, i);
            } else {
                lemma_offset_monotone(s, i, j);
            }
        }
    }
}

/// No occurrence from `from` on is missed: each lies in one of the occurrences found.
proof fn lemma_occurrences_cover(s: Seq<char>, p: Seq<char>, from: int, k: int)
    requires
        p.len() > 0,
        from >= 0,
        from <= k,
        occurs_at(s, p, k),
    ensures
        exists|q: int| 0 <= q < occurrences_from(s, p, from).len() && #[trigger] occurrences_from(s, p, from)[q] <= k
            < occurrences_from(s, p, from)[q] + p.len(),
    decreases s.len() - from,
{
    let all = occurrences_from(s, p, from);
    if occurs_at(s, p, from) {
        let rest = occurrences_from(s, p, from + p.len());
        assert(all == seq![from] + rest);
        if k < from + p.len() {
            assert(all[0] == from);
        } else {
            lemma_occurrences_cover(s, p, from + p.len(), k);
            let q = choose|q: int| 0 <= q < rest.len() && #[trigger] rest[q] <= k < rest[q] + p.len();
            assert(all[q + 1] == rest[q]);
        }
    } else {
        assert(k != from);
        lemma_occurrences_cover(s, p, from + 1, k);
    }
}

/// Scoping by a non-empty literal finds all its non-overlapping occurrences, left to
/// right: each match is an occurrence, each match ends before the next one starts, and
/// every position at which the literal occurs lies in a match (it starts one, or an
/// earlier match overlaps it), so none after the last match is left out.
pub proof fn lemma_literal_matches_all(s: Seq<char>, p: Seq<char>)
    requires
        p.len() > 0,
    ensures
        forall|q: int| 0 <= q < literal_matches(s, p).len() ==> occurs_at(s, p, (#[trigger] literal_matches(s, p)[q]).0)
            && literal_matches(s, p)[q].1 == literal_matches(s, p)[q].0 + p.len(),
        forall|q: int, r: int| 0 <= q < r < literal_matches(s, p).len() ==> (#[trigger] literal_matches(s, p)[q]).1
            <= (#[trigger] literal_matches(s, p)[r]).0,
        forall|k: int| occurs_at(s, p, k) ==> exists|q: int| 0 <= q < literal_matches(s, p).len()
            && (#[trigger] literal_matches(s, p)[q]).0 <= k < literal_matches(s, p)[q].1,
{
    let occ = occurrences_from(s, p, 0);
    let ms = literal_matches(s, p);
    lemma_occurrences_bounds(s, p, 0);
    assert(ms == occ.map_values(|i: int| (i, i + p.len())));
    assert forall|q: int| 0 <= q < ms.len() implies #[trigger] ms[q] == (occ[q], occ[q] + p.len()) by {}
    assert forall|q: int, r: int| 0 <= q < r < ms.len() implies (#[trigger] ms[q]).1 <= (#[trigger] ms[r]).0 by {
        assert(occ[q] + p.len() <= occ[r]);
    }
    assert forall|k: int| occurs_at(s, p, k) implies exists|q: int| 0 <= q < ms.len() && (#[trigger] ms[q]).0 <= k
        < ms[q].1 by {
        lemma_occurrences_cover(s, p, 0, k);
        let q = choose|q: int| 0 <= q < occ.len() && #[trigger] occ[q] <= k < occ[q] + p.len();
        assert(ms[q] == (occ[q], occ[q] + p.len()));
    }
}

} // verus!
