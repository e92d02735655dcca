//! Helpers on strings: building them char by char and cutting them at byte offsets.
use vstd::prelude::*;
use vstd::string::StringExecFns;
use vstd::string::StringSliceAdditionalSpecFns;
use vstd::utf8::*;

verus! {

broadcast use vstd::string::group_string_axioms, vstd::utf8::encode_utf8_valid_utf8;

/// A boundary of a string's encoding stays a boundary in the part after an earlier
/// boundary.
pub proof fn lemma_boundary_in_rest(bytes: Seq<u8>, start: int, end: int)
    requires
        valid_utf8(bytes),
        0 <= start <= end <= bytes.len(),
        is_char_boundary(bytes, start),
        is_char_boundary(bytes, end),
    ensures
        valid_utf8(bytes.subrange(start, bytes.len() as int)),
        is_char_boundary(bytes.subrange(start, bytes.len() as int), end - start),
{
    let rest = bytes.subrange(start, bytes.len() as int);
    valid_utf8_split(bytes, start);
    if end == bytes.len() {
        is_char_boundary_start_end_of_seq(rest);
    } else if end == start {
        is_char_boundary_start_end_of_seq(rest);
    } else {
        is_char_boundary_iff_not_is_continuation_byte(bytes, end);
        is_char_boundary_iff_not_is_continuation_byte(rest, end - start);
        assert(rest[end - start] == bytes[end]);
    }
}

/// The part of `s` between the byte offsets `start` and `end`.
pub fn substr<'a>(s: &'a str, start: usize, end: usize) -> (r: &'a str)
    requires
        start <= end <= s.spec_bytes().len(),
        is_char_boundary(s.spec_bytes(), start as int),
        is_char_boundary(s.spec_bytes(), end as int),
    ensures
        r.spec_bytes() == s.spec_bytes().subrange(start as int, end as int),
{
    proof {
        lemma_boundary_in_rest(s.spec_bytes(), start as int, end as int);
    }
    let (_, rest) = s.split_at(start);
    let (mid, _) = rest.split_at(end - start);
    proof {
        assert(mid.spec_bytes() =~= s.spec_bytes().subrange(start as int, end as int));
    }
    mid
}

/// Whether the character `c`, beyond ASCII, has the Unicode `Alphabetic` property.
pub uninterp spec fn alphabetic_beyond_ascii(c: char) -> bool;

/// Whether `c` has the Unicode `Alphabetic` property (`char::is_alphabetic`): among
/// ASCII characters exactly the letters have it.
pub open spec fn alphabetic(c: char) -> bool {
    if (c as u32) < 0x80 {
        ('a' <= c && c <= 'z') || ('A' <= c && c <= 'Z')
    } else {
        alphabetic_beyond_ascii(c)
    }
}

/// Whether `c` has the Unicode `Lowercase` property (`char::is_lowercase`).
pub uninterp spec fn lowercase_char(c: char) -> bool;

/// Whether `c` has the Unicode `Uppercase` property (`char::is_uppercase`).
pub uninterp spec fn uppercase_char(c: char) -> bool;

/// The lowercase mapping of the string `s` (`str::to_lowercase`).
pub uninterp spec fn lowercased(s: Seq<char>) -> Seq<char>;

/// What `unicode_titlecase::StrTitleCase::to_titlecase_lower_rest` gives for `s`.
pub uninterp spec fn titlecase_lower_rest(s: Seq<char>) -> Seq<char>;

/// Titlecases the first character of `s` and lowercases the rest
/// (`unicode_titlecase::StrTitleCase::to_titlecase_lower_rest`).
///
/// Trusted: the result is `titlecase_lower_rest(s)`; the empty string gives the empty
/// string, as the crate's source shows (it maps the characters one by one).
#[verifier::external_body]
pub(crate) fn to_titlecase_lower_rest(s: &str) -> (r: String)
    ensures
        r@ == titlecase_lower_rest(s@),
        s@.len() == 0 ==> r@.len() == 0,
{
    unicode_titlecase::StrTitleCase::to_titlecase_lower_rest(s)
}

/// `char::is_alphabetic`. Trusted: the result is `alphabetic(c)`: whether `c` has the
/// Unicode `Alphabetic` property, which the documentation names and which, among ASCII
/// characters, the letters `a` to `z` and `A` to `Z` have and no other; beyond ASCII the
/// answer is `alphabetic_beyond_ascii(c)`.
#[verifier::external_body]
pub(crate) fn is_alphabetic(c: char) -> (b: bool)
    ensures
        b == alphabetic(c),
        (c as u32) >= 0x80 ==> b == alphabetic_beyond_ascii(c),
{
    c.is_alphabetic()
}

/// `char::is_lowercase`. Trusted: the result is `lowercase_char(c)`.
#[verifier::external_body]
pub(crate) fn is_lowercase(c: char) -> (b: bool)
    ensures
        b == lowercase_char(c),
{
    c.is_lowercase()
}

/// `char::is_uppercase`. Trusted: the result is `uppercase_char(c)`.
#[verifier::external_body]
pub(crate) fn is_uppercase(c: char) -> (b: bool)
    ensures
        b == uppercase_char(c),
{
    c.is_uppercase()
}

/// `str::to_lowercase`. Trusted: the result is `lowercased(s)`.
#[verifier::external_body]
pub(crate) fn to_lowercase(s: &str) -> (r: String)
    ensures
        r@ == lowercased(s@),
{
    s.to_lowercase()
}

/// The uppercase mapping of the string `s` (`str::to_uppercase`).
pub uninterp spec fn uppercased(s: Seq<char>) -> Seq<char>;

/// `str::to_uppercase`. Trusted: the result is `uppercased(s)`.
#[verifier::external_body]
pub(crate) fn to_uppercase(s: &str) -> (r: String)
    ensures
        r@ == uppercased(s@),
{
    s.to_uppercase()
}

/// The text `middle` between `prefix` and `suffix`.
pub fn framed(prefix: &str, middle: &str, suffix: &str) -> (r: String)
    ensures
        r@ == prefix@ + middle@ + suffix@,
{
    let mut r = String::new();
    push_str(&mut r, prefix);
    push_str(&mut r, middle);
    push_str(&mut r, suffix);
    proof {
        assert(Seq::<char>::empty() + prefix@ + middle@ + suffix@ =~= prefix@ + middle@ + suffix@);
    }
    r
}

/// Appends a character (`String::push`).
#[verifier::external_body]
pub fn push_char(s: &mut String, c: char)
    ensures
        final(s)@ == old(s)@.push(c),
{
    s.push(c);
}

/// Appends a string slice.
pub fn push_str(s: &mut String, t: &str)
    ensures
        final(s)@ == old(s)@ + t@,
{
    s.append(t);
}

/// The characters of `s`, in order.
pub fn to_chars(s: &str) -> (v: Vec<char>)
    ensures
        v@ == s@,
{
    let mut v: Vec<char> = Vec::new();
    for c in it: s.chars()
        invariant
            it.seq() == s@,
            v@ == it.seq().take(it.index() as int),
    {
        v.push(c);
    }
    proof {
        assert(s@.take(s@.len() as int) =~= s@);
    }
    v
}

/// The string made of the characters `cs`, in order.
pub fn from_chars(cs: &[char]) -> (s: String)
    ensures
        s@ == cs@,
{
    let mut s = String::new();
    let n = cs.len();
    let mut i: usize = 0;
    while i < n
        invariant
            n == cs@.len(),
            i <= n,
            s@ == cs@.take(i as int),
        decreases n - i,
    {
        push_char(&mut s, cs[i]);
        proof {
            assert(cs@.take(i as int).push(cs@[i as int]) =~= cs@.take(i + 1));
        }
        i = i + 1;
    }
    proof {
        assert(cs@.take(n as int) =~= cs@);
    }
    s
}

/// Appends the characters `cs`, in order.
pub fn push_chars(s: &mut String, cs: &[char])
    ensures
        final(s)@ == old(s)@ + cs@,
{
    let n = cs.len();
    let mut i: usize = 0;
    while i < n
        invariant
            n == cs@.len(),
            i <= n,
            s@ == old(s)@ + cs@.take(i as int),
        decreases n - i,
    {
        push_char(s, cs[i]);
        proof {
            assert(old(s)@ + cs@.take(i as int).push(cs@[i as int]) =~= old(s)@ + cs@.take(i + 1));
        }
        i = i + 1;
    }
    proof {
        assert(cs@.take(n as int) =~= cs@);
    }
}

} // verus!
