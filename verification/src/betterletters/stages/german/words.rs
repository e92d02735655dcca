//! Words, the special characters found in them, and word casing.
use vstd::prelude::*;

use crate::betterletters::modules::german::special_characters::{special_char, SpecialCharacter};
use crate::betterletters::stages::nl_free;
use crate::iteration::{combinations, power_set_of, subsets_from};
use crate::literal::{byte_offset, lemma_offset_monotone, lemma_offset_step, lemma_offset_strict};
use crate::strs::{from_chars, is_lowercase, is_uppercase, lowercase_char, push_char, to_chars, uppercase_char};
use vstd::utf8::{char_is_scalar, encode_scalar};

verus! {

/// The casing of a whole word.
#[derive(Debug, Clone, Copy, PartialEq, Eq)]
pub enum WordCasing {
    /// All characters are lowercase.
    AllLowercase,
    /// All characters are uppercase (and there are at least two).
    AllUppercase,
    /// The first character is uppercase, all others lowercase.
    Titlecase,
    /// Anything else.
    Mixed,
}

/// Error conditions when parsing a string into a [`WordCasing`].
#[derive(Debug, Clone, Copy, PartialEq, Eq)]
pub enum WordCasingError {
    /// The string is empty.
    EmptyString,
    /// The string contains characters with undecidable casing: neither lower- nor
    /// uppercase.
    UndecidableCasing,
}

/// The casing of the word `w`.
pub open spec fn casing_of(w: Seq<char>) -> Result<WordCasing, WordCasingError> {
    if w.len() == 0 {
        Err(WordCasingError::EmptyString)
    } else if exists|i: int| 0 <= i < w.len() && !lowercase_char(#[trigger] w[i]) && !uppercase_char(w[i]) {
        Err(WordCasingError::UndecidableCasing)
    } else {
        let has_lower = exists|i: int| 0 <= i < w.len() && #[trigger] lowercase_char(w[i]);
        let has_upper = exists|i: int| 0 <= i < w.len() && !lowercase_char(w[i]) && #[trigger] uppercase_char(w[i]);
        let titlecase = !lowercase_char(w[0]) && forall|i: int| 1 <= i < w.len() ==> #[trigger] lowercase_char(w[i]);
        if titlecase {
            Ok(WordCasing::Titlecase)
        } else if has_lower && !has_upper {
            Ok(WordCasing::AllLowercase)
        } else if !has_lower && has_upper {
            Ok(WordCasing::AllUppercase)
        } else {
            Ok(WordCasing::Mixed)
        }
    }
}

impl WordCasing {
    /// The casing of `value`.
    pub fn try_from(value: &str) -> (r: Result<Self, WordCasingError>)
        ensures
            r == casing_of(value@),
    {
        let cs = to_chars(value);
        let n = cs.len();
        if n == 0 {
            return Err(WordCasingError::EmptyString);
        }
        let mut has_lowercase = false;
        let mut has_uppercase = false;
        let mut is_titlecase = true;
        let mut i: usize = 0;
        while i < n
            invariant
                i <= n,
                n == cs@.len(),
                cs@ == value@,
                forall|j: int| 0 <= j < i ==> lowercase_char(#[trigger] cs@[j]) || uppercase_char(cs@[j]),
                has_lowercase == exists|j: int| 0 <= j < i && #[trigger] lowercase_char(cs@[j]),
                has_uppercase == exists|j: int| 0 <= j < i && !lowercase_char(cs@[j]) && #[trigger] uppercase_char(cs@[j]),
                is_titlecase == (i == 0 || (!lowercase_char(cs@[0]) && forall|j: int| 1 <= j < i ==> #[trigger] lowercase_char(cs@[j]))),
            decreases n - i,
        {
            let c = cs[i];
            if is_lowercase(c) {
                has_lowercase = true;
                if i == 0 {
                    is_titlecase = false;
                }
            } else if is_uppercase(c) {
                has_uppercase = true;
                if i != 0 {
                    is_titlecase = false;
                }
            } else {
                proof {
                    assert(!lowercase_char(value@[i as int]) && !uppercase_char(value@[i as int]));
                }
                return Err(WordCasingError::UndecidableCasing);
            }
            i = i + 1;
        }
        proof {
            assert(!exists|j: int| 0 <= j < value@.len() && !lowercase_char(#[trigger] value@[j]) && !uppercase_char(value@[j]));
        }
        if is_titlecase {
            Ok(WordCasing::Titlecase)
        } else if has_lowercase && !has_uppercase {
            Ok(WordCasing::AllLowercase)
        } else if !has_lowercase && has_uppercase {
            Ok(WordCasing::AllUppercase)
        } else {
            proof {
                if !has_lowercase && !has_uppercase {
                    assert(lowercase_char(cs@[0]) || uppercase_char(cs@[0]));
                }
            }
            Ok(WordCasing::Mixed)
        }
    }
}

/// A place in a word where a special character can stand in for what is written there.
#[derive(Debug, Clone, Copy, PartialEq, Eq)]
pub struct Replacement {
    /// The byte offset where the replaced text starts.
    pub start: usize,
    /// The byte offset just after the replaced text.
    pub end: usize,
    /// What is put there.
    pub content: SpecialCharacter,
}

impl Replacement {
    /// A replacement of the bytes `start..end` by `content`.
    pub fn new(start: usize, end: usize, content: SpecialCharacter) -> (r: Self)
        ensures
            r.start_spec() == start,
            r.end_spec() == end,
            r.content_spec() == content,
    {
        Replacement { start, end, content }
    }

    /// The byte offset where the replaced text starts.
    pub open spec fn start_spec(&self) -> usize {
        self.start
    }

    /// The byte offset just after the replaced text.
    pub open spec fn end_spec(&self) -> usize {
        self.end
    }

    /// What is put there.
    pub open spec fn content_spec(&self) -> SpecialCharacter {
        self.content
    }

    /// The byte offset where the replaced text starts.
    pub fn start(&self) -> (r: usize)
        ensures
            r == self.start_spec(),
    {
        self.start
    }

    /// The byte offset just after the replaced text.
    pub fn end(&self) -> (r: usize)
        ensures
            r == self.end_spec(),
    {
        self.end
    }

    /// What is put there.
    pub fn content(&self) -> (r: SpecialCharacter)
        ensures
            r == self.content_spec(),
    {
        self.content
    }
}

/// A word: its characters and the replacements found in it.
#[derive(Debug)]
pub struct Word {
    content: String,
    replacements: Vec<Replacement>,
}

impl Word {
    /// The characters of the word.
    pub closed spec fn chars(&self) -> Seq<char> {
        self.content@
    }

    /// The replacements found in the word, in the order they were added.
    pub closed spec fn found(&self) -> Seq<Replacement> {
        self.replacements@
    }

    /// An empty word without replacements.
    pub fn new() -> (w: Self)
        ensures
            w.chars() == Seq::<char>::empty(),
            w.found() == Seq::<Replacement>::empty(),
    {
        Word { content: String::new(), replacements: Vec::new() }
    }

    /// Clears the word's contents and replacements.
    pub fn clear(&mut self)
        ensures
            final(self).chars() == Seq::<char>::empty(),
            final(self).found() == Seq::<Replacement>::empty(),
    {
        self.content = String::new();
        self.replacements.clear();
    }

    /// Appends a character.
    pub fn push(&mut self, character: char)
        ensures
            final(self).chars() == old(self).chars().push(character),
            final(self).found() == old(self).found(),
    {
        push_char(&mut self.content, character);
    }

    /// The length of the word in bytes (of its UTF-8 encoding).
    pub fn len(&self) -> (n: usize)
        ensures
            n == vstd::utf8::encode_utf8(self.chars()).len(),
    {
        self.content.as_str().as_bytes().len()
    }

    /// Records that `content` can stand in for the characters `start..end`.
    pub fn add_replacement(&mut self, start: usize, end: usize, content: SpecialCharacter)
        ensures
            final(self).chars() == old(self).chars(),
            final(self).found() == old(self).found().push(Replacement { start, end, content }),
    {
        self.replacements.push(Replacement { start, end, content });
    }

    /// The replacements found, in the order they were added.
    pub fn replacements(&self) -> (r: &Vec<Replacement>)
        ensures
            r@ == self.found(),
    {
        &self.replacements
    }

    /// The characters of the word.
    pub fn content(&self) -> (r: &str)
        ensures
            r@ == self.chars(),
    {
        self.content.as_str()
    }
}

impl Default for Word {
    fn default() -> (w: Self)
        ensures
            w.chars() == Seq::<char>::empty(),
            w.found() == Seq::<Replacement>::empty(),
    {
        Word::new()
    }
}

/// The character position of `w` at byte offset `b` of its encoding, if `b` is the
/// offset of one (character positions run from `0` to the length of `w`).
pub open spec fn char_position(w: Seq<char>, b: int) -> Option<int> {
    if exists|k: int| 0 <= k <= w.len() && byte_offset(w, k) == b {
        Some(choose|k: int| 0 <= k <= w.len() && byte_offset(w, k) == b)
    } else {
        None
    }
}

/// Whether the replacement `r` fits `w`: its byte range starts and ends on character
/// boundaries of `w`'s encoding, in order.
pub open spec fn fits(w: Seq<char>, r: Replacement) -> bool {
    &&& r.start <= r.end
    &&& char_position(w, r.start as int) is Some
    &&& char_position(w, r.end as int) is Some
}

/// `w` with the replacement `r` made: the characters in its byte range give way to its
/// special character, if it fits `w`.
pub open spec fn replaced_once(w: Seq<char>, r: Replacement) -> Seq<char> {
    if fits(w, r) {
        w.take(char_position(w, r.start as int)->0).push(special_char(r.content)) + w.skip(
            char_position(w, r.end as int)->0,
        )
    } else {
        w
    }
}

/// `w` with all replacements `rs` made, the last one first, so that earlier positions
/// stay valid.
pub open spec fn replaced(w: Seq<char>, rs: Seq<Replacement>) -> Seq<char>
    decreases rs.len(),
{
    if rs.len() == 0 {
        w
    } else {
        replaced(replaced_once(w, rs.last()), rs.drop_last())
    }
}

/// Replacements bring no newline into a text and leave something of one that is not
/// empty.
pub proof fn lemma_replaced_lines(w: Seq<char>, rs: Seq<Replacement>)
    ensures
        nl_free(w) ==> nl_free(replaced(w, rs)),
        w.len() > 0 ==> replaced(w, rs).len() > 0,
    decreases rs.len(),
{
    if rs.len() > 0 {
        let r = rs.last();
        let v = replaced_once(w, r);
        if fits(w, r) {
            let p = char_position(w, r.start as int)->0;
            let q = char_position(w, r.end as int)->0;
            let sc = special_char(r.content);
            assert(sc != '\n') by {
                match r.content {
                    SpecialCharacter::Umlaut(u) => {},
                    _ => {},
                }
            }
            assert(v == w.take(p).push(sc) + w.skip(q));
            if nl_free(w) {
                assert forall|i: int| 0 <= i < v.len() implies v[i] != '\n' by {
                    if i < p {
                        assert(v[i] == w[i]);
                    } else if i > p {
                        assert(v[i] == w[q + i - p - 1]);
                    }
                }
            }
            assert(v.len() > 0);
        }
        lemma_replaced_lines(v, rs.drop_last());
    }
}

/// Whether each of the replacements `rs`, made from the last one on, fits the text as it
/// is by then.
pub open spec fn all_fit(w: Seq<char>, rs: Seq<Replacement>) -> bool
    decreases rs.len(),
{
    rs.len() == 0 || (fits(w, rs.last()) && all_fit(replaced_once(w, rs.last()), rs.drop_last()))
}

/// Whether the replacements `rs` each fit `w` and come in order: each ends where or
/// before any later one starts.
pub open spec fn in_order(w: Seq<char>, rs: Seq<Replacement>) -> bool {
    &&& forall|k: int| 0 <= k < rs.len() ==> fits(w, #[trigger] rs[k])
    &&& forall|j: int, k: int| 0 <= j < k < rs.len() ==> (#[trigger] rs[j]).end <= (#[trigger] rs[k]).start
}

/// A byte offset that falls on a character boundary of `w` at or before position `p`
/// still does in `v`, which agrees with `w` up to `p`.
pub(crate) proof fn lemma_position_kept(w: Seq<char>, v: Seq<char>, p: int, b: int)
    requires
        0 <= p <= w.len(),
        p <= v.len(),
        v.take(p) == w.take(p),
        char_position(w, b) is Some,
        b <= byte_offset(w, p),
    ensures
        char_position(v, b) is Some,
{
    let x = choose|k: int| 0 <= k <= w.len() && byte_offset(w, k) == b;
    if x > p {
        lemma_offset_strict(w, p, x);
    }
    assert(v.take(x) =~= v.take(p).take(x));
    assert(w.take(x) =~= w.take(p).take(x));
    assert(byte_offset(v, x) == b);
}

/// Replacements that fit a text still fit it with a character appended.
pub(crate) proof fn lemma_in_order_push(w: Seq<char>, rs: Seq<Replacement>, c: char)
    requires
        in_order(w, rs),
    ensures
        in_order(w.push(c), rs),
{
    let v = w.push(c);
    assert(v.take(w.len() as int) =~= w.take(w.len() as int));
    assert(w.take(w.len() as int) =~= w);
    assert forall|k: int| 0 <= k < rs.len() implies fits(v, #[trigger] rs[k]) by {
        let r = rs[k];
        let e = choose|x: int| 0 <= x <= w.len() && byte_offset(w, x) == r.end as int;
        lemma_offset_monotone(w, e, w.len() as int);
        let s = choose|x: int| 0 <= x <= w.len() && byte_offset(w, x) == r.start as int;
        lemma_offset_monotone(w, s, w.len() as int);
        lemma_position_kept(w, v, w.len() as int, r.start as int);
        lemma_position_kept(w, v, w.len() as int, r.end as int);
    }
}

/// Replacements in order can be made from the last one on, each fitting the text as it
/// is by then.
pub proof fn lemma_in_order_all_fit(w: Seq<char>, rs: Seq<Replacement>)
    requires
        in_order(w, rs),
    ensures
        all_fit(w, rs),
    decreases rs.len(),
{
    if rs.len() > 0 {
        let last = rs.last();
        let rest = rs.drop_last();
        assert(fits(w, rs[rs.len() - 1]));
        let p = char_position(w, last.start as int)->0;
        let q = char_position(w, last.end as int)->0;
        let v = replaced_once(w, last);
        assert(0 <= p <= w.len() && byte_offset(w, p) == last.start);
        assert(0 <= q <= w.len() && byte_offset(w, q) == last.end);
        if q < p {
            lemma_offset_strict(w, q, p);
        }
        assert(v.take(p) =~= w.take(p));
        assert forall|k: int| 0 <= k < rest.len() implies fits(v, #[trigger] rest[k]) by {
            let r = rs[k];
            assert(rest[k] == r);
            assert(fits(w, rs[k]));
            assert(r.end <= last.start) by {
                assert(rs[k].end <= rs[rs.len() - 1].start);
            }
            lemma_position_kept(w, v, p, r.start as int);
            lemma_position_kept(w, v, p, r.end as int);
        }
        assert forall|j: int, k: int| 0 <= j < k < rest.len() implies (#[trigger] rest[j]).end <= (#[trigger] rest[k]).start by {
            assert(rs[j].end <= rs[k].start);
        }
        lemma_in_order_all_fit(v, rest);
    }
}

/// Every item of every combination of `s` is an item of `s`, at a position that leaves
/// the combination's order intact: each combination of replacements in order is in
/// order too.
proof fn lemma_combinations_in_order(w: Seq<char>, s: Seq<Replacement>, k: nat)
    requires
        in_order(w, s),
    ensures
        forall|i: int| 0 <= i < combinations(s, k).len() ==> in_order(w, #[trigger] combinations(s, k)[i]),
        forall|i: int, j: int| 0 <= i < combinations(s, k).len() && 0 <= j < combinations(s, k)[i].len()
            ==> s.contains(#[trigger] combinations(s, k)[i][j]),
    decreases s.len(),
{
    if k == 0 {
        assert(combinations(s, k) == seq![Seq::<Replacement>::empty()]);
    } else if s.len() > 0 {
        let t = s.drop_first();
        assert(in_order(w, t)) by {
            assert forall|j: int, m: int| 0 <= j < m < t.len() implies (#[trigger] t[j]).end <= (#[trigger] t[m]).start by {
                assert(s[j + 1].end <= s[m + 1].start);
            }
            assert forall|m: int| 0 <= m < t.len() implies fits(w, #[trigger] t[m]) by {
                assert(fits(w, s[m + 1]));
            }
        }
        lemma_combinations_in_order(w, t, (k - 1) as nat);
        lemma_combinations_in_order(w, t, k);
        let a = combinations(t, (k - 1) as nat);
        let f = |c: Seq<Replacement>| seq![s[0]] + c;
        let b = combinations(t, k);
        assert(combinations(s, k) == a.map_values(f) + b);
        assert forall|i: int| 0 <= i < combinations(s, k).len() implies in_order(w, #[trigger] combinations(s, k)[i])
            && (forall|j: int| 0 <= j < combinations(s, k)[i].len() ==> s.contains(#[trigger] combinations(s, k)[i][j])) by {
            if i < a.len() {
                let c = a[i];
                let d = seq![s[0]] + c;
                assert(combinations(s, k)[i] == d);
                assert(in_order(w, c));
                assert forall|j: int| 0 <= j < d.len() implies s.contains(#[trigger] d[j]) by {
                    if j == 0 {
                        assert(s[0] == d[j]);
                    } else {
                        assert(d[j] == c[j - 1]);
                        assert(t.contains(c[j - 1]));
                        let m = choose|m: int| 0 <= m < t.len() && t[m] == c[j - 1];
                        assert(s[m + 1] == d[j]);
                    }
                }
                assert forall|m: int| 0 <= m < d.len() implies fits(w, #[trigger] d[m]) by {
                    if m == 0 {
                        assert(fits(w, s[0]));
                    } else {
                        assert(d[m] == c[m - 1]);
                    }
                }
                assert forall|j: int, m: int| 0 <= j < m < d.len() implies (#[trigger] d[j]).end <= (#[trigger] d[m]).start by {
                    if j == 0 {
                        assert(d[m] == c[m - 1]);
                        assert(t.contains(c[m - 1]));
                        let x = choose|x: int| 0 <= x < t.len() && t[x] == c[m - 1];
                        assert(s[0].end <= s[x + 1].start);
                    } else {
                        assert(d[j] == c[j - 1] && d[m] == c[m - 1]);
                    }
                }
            } else {
                let c = b[i - a.len()];
                assert(combinations(s, k)[i] == c);
                assert(in_order(w, c));
                assert forall|j: int| 0 <= j < c.len() implies s.contains(#[trigger] c[j]) by {
                    assert(t.contains(c[j]));
                    let m = choose|m: int| 0 <= m < t.len() && t[m] == c[j];
                    assert(s[m + 1] == c[j]);
                }
            }
        }
    }
}

/// Each member of the power set of replacements in order is in order.
proof fn lemma_subsets_in_order(w: Seq<char>, s: Seq<Replacement>, k: nat)
    requires
        in_order(w, s),
    ensures
        forall|i: int| 0 <= i < subsets_from(s, k).len() ==> in_order(w, #[trigger] subsets_from(s, k)[i]),
    decreases s.len() + 1 - k,
{
    if k <= s.len() {
        lemma_combinations_in_order(w, s, k);
        lemma_subsets_in_order(w, s, k + 1);
        let a = combinations(s, k);
        let b = subsets_from(s, k + 1);
        assert(subsets_from(s, k) == a + b);
        assert forall|i: int| 0 <= i < subsets_from(s, k).len() implies in_order(w, #[trigger] subsets_from(s, k)[i]) by {
            if i < a.len() {
                assert(subsets_from(s, k)[i] == a[i]);
            } else {
                assert(subsets_from(s, k)[i] == b[i - a.len()]);
            }
        }
    }
}

/// Every member of the power set of replacements in order can be made in full.
pub proof fn lemma_power_set_fits(w: Seq<char>, s: Seq<Replacement>, include_empty_set: bool)
    requires
        in_order(w, s),
    ensures
        forall|i: int| 0 <= i < power_set_of(s, include_empty_set).len()
            ==> all_fit(w, #[trigger] power_set_of(s, include_empty_set)[i]),
{
    lemma_subsets_in_order(w, s, if include_empty_set { 0 } else { 1 });
    assert forall|i: int| 0 <= i < power_set_of(s, include_empty_set).len()
        implies all_fit(w, #[trigger] power_set_of(s, include_empty_set)[i]) by {
        lemma_in_order_all_fit(w, power_set_of(s, include_empty_set)[i]);
    }
}

/// A byte offset falls on at most one character position.
proof fn lemma_char_position(w: Seq<char>, k: int)
    requires
        0 <= k <= w.len(),
    ensures
        char_position(w, byte_offset(w, k)) == Some(k),
{
    let b = byte_offset(w, k);
    let c = choose|c: int| 0 <= c <= w.len() && byte_offset(w, c) == b;
    if c < k {
        lemma_offset_strict(w, c, k);
    } else if k < c {
        lemma_offset_strict(w, k, c);
    }
}

/// The character position of `cs` at byte offset `b`, if any (see [`char_position`]).
fn position_of_byte(cs: &Vec<char>, b: usize) -> (r: Option<usize>)
    ensures
        match r {
            Some(k) => char_position(cs@, b as int) == Some(k as int),
            None => char_position(cs@, b as int) is None,
        },
{
    let n = cs.len();
    let mut k: usize = 0;
    let mut pos: usize = 0;
    proof {
        assert(cs@.take(0) =~= Seq::<char>::empty());
    }
    while k < n
        invariant
            k <= n,
            n == cs@.len(),
            pos == byte_offset(cs@, k as int),
            pos <= b,
            forall|j: int| 0 <= j < k ==> byte_offset(cs@, j) < b,
        decreases n - k,
    {
        if pos == b {
            proof {
                lemma_char_position(cs@, k as int);
            }
            return Some(k);
        }
        let c = cs[k];
        let w: usize = if (c as u32) < 0x80 {
            1
        } else if (c as u32) < 0x800 {
            2
        } else if (c as u32) < 0x10000 {
            3
        } else {
            4
        };
        proof {
            lemma_offset_step(cs@, k as int);
            char_is_scalar(c);
            assert(encode_scalar(c as u32).len() == w) by {
                reveal_with_fuel(encode_scalar, 1);
            }
        }
        if b - pos < w {
            proof {
                assert forall|j: int| 0 <= j <= n implies byte_offset(cs@, j) != b by {
                    if j > k {
                        lemma_offset_monotone(cs@, k + 1, j);
                    }
                }
            }
            return None;
        }
        pos = pos + w;
        k = k + 1;
    }
    if pos == b {
        proof {
            lemma_char_position(cs@, n as int);
        }
        return Some(n);
    }
    None
}

/// The characters `w` from position `from` to `to`, appended to `out`.
fn push_range(out: &mut Vec<char>, w: &Vec<char>, from: usize, to: usize)
    requires
        from <= to <= w@.len(),
    ensures
        final(out)@ == old(out)@ + w@.subrange(from as int, to as int),
{
    let mut i: usize = from;
    let ghost start = out@;
    while i < to
        invariant
            from <= i <= to <= w@.len(),
            out@ == start + w@.subrange(from as int, i as int),
        decreases to - i,
    {
        out.push(w[i]);
        proof {
            assert(w@.subrange(from as int, i as int).push(w@[i as int]) =~= w@.subrange(from as int, i + 1));
        }
        i = i + 1;
    }
}

/// Makes the replacement `r` in `w`, if it fits `w`.
fn apply_replacement_chars(w: &Vec<char>, r: &Replacement) -> (out: Vec<char>)
    ensures
        out@ == replaced_once(w@, *r),
{
    let n = w.len();
    let mut out: Vec<char> = Vec::new();
    let start = position_of_byte(w, r.start);
    let end = position_of_byte(w, r.end);
    match (start, end) {
        (Some(i), Some(j)) => {
            if r.start <= r.end {
                proof {
                    if j < i {
                        lemma_offset_strict(w@, j as int, i as int);
                    }
                }
                push_range(&mut out, w, 0, i);
                out.push(r.content.to_char());
                push_range(&mut out, w, j, n);
                proof {
                    assert(Seq::<char>::empty() + w@.subrange(0, i as int) =~= w@.take(i as int));
                    assert(w@.subrange(j as int, n as int) =~= w@.skip(j as int));
                }
                return out;
            }
        },
        _ => {},
    }
    push_range(&mut out, w, 0, n);
    proof {
        assert(Seq::<char>::empty() + w@.subrange(0, n as int) =~= w@);
    }
    out
}

/// Makes the replacement `replacement` in `s`: the characters in its byte range give
/// way to its special character. The range must start and end on character boundaries,
/// in order.
pub fn apply_replacement(s: &mut String, replacement: &Replacement)
    requires
        fits(old(s)@, *replacement),
    ensures
        final(s)@ == replaced_once(old(s)@, *replacement),
{
    let cs = to_chars(s.as_str());
    let out = apply_replacement_chars(&cs, replacement);
    *s = from_chars(out.as_slice());
}

/// Makes all `replacements` in `s`, starting from the last, so that earlier positions
/// are not moved by later replacements.
pub fn apply_replacements(s: &mut String, replacements: Vec<Replacement>)
    requires
        all_fit(old(s)@, replacements@),
    ensures
        final(s)@ == replaced(old(s)@, replacements@),
{
    let mut cs = to_chars(s.as_str());
    let n = replacements.len();
    let mut k: usize = n;
    proof {
        assert(replacements@.take(n as int) =~= replacements@);
    }
    while k > 0
        invariant
            k <= n,
            n == replacements@.len(),
            replaced(cs@, replacements@.take(k as int)) == replaced(old(s)@, replacements@),
        decreases k,
    {
        let r = replacements[k - 1];
        proof {
            assert(replacements@.take(k as int).drop_last() =~= replacements@.take(k - 1));
            assert(replacements@.take(k as int).last() == r);
        }
        cs = apply_replacement_chars(&cs, &r);
        k = k - 1;
    }
    proof {
        assert(replacements@.take(0) =~= Seq::<Replacement>::empty());
    }
    *s = from_chars(cs.as_slice());
}

} // verus!
