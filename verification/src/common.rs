//! Shared string helpers: titlecasing and recognizing compound words.
use vstd::prelude::*;

use crate::strs::{from_chars, push_chars, to_chars};

pub mod itertools;
pub mod strings;

verus! {

/// What `char::to_uppercase` yields for `c`.
pub uninterp spec fn char_uppercase(c: char) -> Seq<char>;

/// What `char::to_lowercase` yields for `c`.
pub uninterp spec fn char_lowercase(c: char) -> Seq<char>;

/// The uppercase mapping of `c` (`char::to_uppercase`), as characters.
///
/// Trusted: the result is `char_uppercase(c)`; the mapping has at least one character, as
/// the documentation states.
#[verifier::external_body]
fn uppercase_of(c: char) -> (r: Vec<char>)
    ensures
        r@ == char_uppercase(c),
        r@.len() >= 1,
{
    c.to_uppercase().collect()
}

/// The lowercase mapping of `c` (`char::to_lowercase`), as characters.
///
/// Trusted: the result is `char_lowercase(c)`; the mapping has at least one character, as
/// the documentation states.
#[verifier::external_body]
fn lowercase_of(c: char) -> (r: Vec<char>)
    ensures
        r@ == char_lowercase(c),
        r@.len() >= 1,
{
    c.to_lowercase().collect()
}

/// The uppercase mapping of `c`, as characters.
pub(crate) fn titlecase_char_upper(c: char) -> (r: Vec<char>)
    ensures
        r@ == char_uppercase(c),
{
    uppercase_of(c)
}

/// The lowercase mapping of `c`, as characters.
pub(crate) fn titlecase_char_lower(c: char) -> (r: Vec<char>)
    ensures
        r@ == char_lowercase(c),
{
    lowercase_of(c)
}

/// The lowercase mappings of the characters of `s`, one after the other.
pub open spec fn lowercased_chars(s: Seq<char>) -> Seq<char>
    decreases s.len(),
{
    if s.len() == 0 {
        Seq::empty()
    } else {
        lowercased_chars(s.drop_last()) + char_lowercase(s.last())
    }
}

/// `s` with its first character uppercased and all others lowercased, each character by
/// its own mapping.
pub open spec fn titlecased(s: Seq<char>) -> Seq<char> {
    if s.len() == 0 {
        Seq::empty()
    } else {
        char_uppercase(s[0]) + lowercased_chars(s.drop_first())
    }
}

/// Uppercases the first character of `word` and lowercases all others.
pub fn titlecase(word: &str) -> (r: String)
    ensures
        r@ == titlecased(word@),
{
    let cs = to_chars(word);
    let mut result = String::new();
    let n = cs.len();
    if n == 0 {
        return result;
    }
    let upper = uppercase_of(cs[0]);
    push_chars(&mut result, upper.as_slice());
    let ghost rest = cs@.drop_first();
    let mut i: usize = 1;
    proof {
        assert(rest.take(0) =~= Seq::<char>::empty());
        assert(result@ =~= char_uppercase(cs@[0]) + lowercased_chars(rest.take(0)));
    }
    while i < n
        invariant
            1 <= i <= n,
            n == cs@.len(),
            rest == cs@.drop_first(),
            result@ == char_uppercase(cs@[0]) + lowercased_chars(rest.take(i - 1)),
        decreases n - i,
    {
        let lower = lowercase_of(cs[i]);
        push_chars(&mut result, lower.as_slice());
        proof {
            assert(rest.take(i as int).drop_last() =~= rest.take(i - 1));
            assert(rest.take(i as int).last() == cs@[i as int]);
            assert(result@ =~= char_uppercase(cs@[0]) + lowercased_chars(rest.take(i as int)));
        }
        i = i + 1;
    }
    proof {
        assert(rest.take(n - 1) =~= rest);
    }
    result
}

/// Whether the predicate `f` can be called on every string and answers the same for
/// strings with the same characters.
pub open spec fn decides<F: Fn(&str) -> bool>(f: &F) -> bool {
    &&& forall|s: &str| #[trigger] f.requires((s,))
    &&& forall|s: &str, t: &str| #[trigger] f.ensures((s,), true) && #[trigger] f.ensures((t,), false) ==> s@ != t@
}

/// Whether the predicate `f` holds for the string with characters `w`.
pub open spec fn accepts<F: Fn(&str) -> bool>(f: &F, w: Seq<char>) -> bool {
    exists|s: &str| s@ == w && #[trigger] f.ensures((s,), true)
}

/// What a call of a deciding predicate answered is whether it accepts the characters.
pub proof fn lemma_call_answer<F: Fn(&str) -> bool>(f: &F, s: &str, b: bool)
    requires
        decides(f),
        f.ensures((s,), b),
    ensures
        b == accepts(f, s@),
{
    if b {
        assert(s@ == s@ && f.ensures((s,), true));
    } else {
        if accepts(f, s@) {
            let t = choose|t: &str| t@ == s@ && #[trigger] f.ensures((t,), true);
            assert(f.ensures((t,), true) && f.ensures((s,), false));
        }
    }
}

/// Calls the predicate `f` on `s`.
pub fn ask<F: Fn(&str) -> bool>(f: &F, s: &str) -> (b: bool)
    requires
        decides(f),
    ensures
        b == accepts(f, s@),
{
    let b = f(s);
    proof {
        lemma_call_answer(f, s, b);
    }
    b
}

/// The longest prefix of `w` of at most `k` characters (but at least one) that `f`
/// accepts, by its length, or 0 if there is none.
pub open spec fn longest_accepted_prefix<F: Fn(&str) -> bool>(f: &F, w: Seq<char>, k: int) -> int
    decreases k,
{
    if k < 1 {
        0
    } else if accepts(f, w.take(k)) {
        k
    } else {
        longest_accepted_prefix(f, w, k - 1)
    }
}

/// How many suffixes deep splitting a compound word `w` looks at most: three for each
/// character and three more. Each step strips a prefix of at least one character; a
/// titlecased suffix can be longer than the suffix (`ß` becomes `Ss`), which this
/// leaves room for, but the casing maps are outside functions and nothing here shows
/// that any bound suffices.
pub open spec fn split_depth(w: Seq<char>) -> nat {
    if 3 * w.len() + 3 <= usize::MAX {
        (3 * w.len() + 3) as nat
    } else {
        usize::MAX as nat
    }
}

/// How many suffixes deep splitting `word` looks at most (see [`split_depth`]).
pub fn split_depth_of(word: &str) -> (d: usize)
    ensures
        d == split_depth(word@),
{
    let n = to_chars(word).len();
    if n <= (usize::MAX - 3) / 3 {
        3 * n + 3
    } else {
        usize::MAX
    }
}

/// Whether `w` is a compound word under the predicate `f`, looking at most `depth` more
/// suffixes deep: after the longest accepted proper prefix, the rest (titlecased or as
/// it is) is accepted, or is itself a compound word.
pub open spec fn compound_within<F: Fn(&str) -> bool>(f: &F, w: Seq<char>, depth: nat) -> bool
    decreases depth,
{
    let i = longest_accepted_prefix(f, w, w.len() - 1);
    if i == 0 {
        false
    } else {
        let suffix = w.skip(i);
        let t = titlecased(suffix);
        accepts(f, t) || accepts(f, suffix) || (depth > 0 && (compound_within(f, t, (depth - 1) as nat)
            || compound_within(f, suffix, (depth - 1) as nat)))
    }
}

proof fn lemma_longest_prefix_bounds<F: Fn(&str) -> bool>(f: &F, w: Seq<char>, k: int)
    ensures
        0 <= longest_accepted_prefix(f, w, k),
        k >= 0 ==> longest_accepted_prefix(f, w, k) <= k,
    decreases k,
{
    if k >= 1 {
        lemma_longest_prefix_bounds(f, w, k - 1);
    }
}

/// The longest accepted proper prefix of `cs`, by its length, or 0.
pub(crate) fn longest_prefix_len<F: Fn(&str) -> bool>(f: &F, cs: &Vec<char>) -> (i: usize)
    requires
        decides(f),
    ensures
        i == longest_accepted_prefix(f, cs@, cs@.len() - 1),
        i < cs@.len() || i == 0,
{
    let n = cs.len();
    let mut best: usize = 0;
    let mut prefix = String::new();
    if n == 0 {
        return 0;
    }
    let mut k: usize = 1;
    proof {
        assert(longest_accepted_prefix(f, cs@, 0) == 0);
    }
    while k < n
        invariant
            1 <= k <= n,
            n == cs@.len(),
            decides(f),
            prefix@ == cs@.take(k - 1),
            best == longest_accepted_prefix(f, cs@, k - 1),
            best < k,
        decreases n - k,
    {
        crate::strs::push_char(&mut prefix, cs[k - 1]);
        proof {
            assert(cs@.take(k - 1).push(cs@[k - 1]) =~= cs@.take(k as int));
        }
        if ask(f, prefix.as_str()) {
            best = k;
        }
        k = k + 1;
    }
    best
}

fn compound_within_exec<F: Fn(&str) -> bool>(word: &str, f: &F, depth: usize) -> (r: bool)
    requires
        decides(f),
    ensures
        r == compound_within(f, word@, depth as nat),
    decreases depth,
{
    let cs = to_chars(word);
    let i = longest_prefix_len(f, &cs);
    if i == 0 {
        return false;
    }
    let suffix = from_chars(vstd::slice::slice_subrange(cs.as_slice(), i, cs.len()));
    proof {
        lemma_longest_prefix_bounds(f, word@, word@.len() - 1);
        assert(suffix@ =~= word@.skip(i as int));
    }
    let t = titlecase(suffix.as_str());
    if ask(f, t.as_str()) || ask(f, suffix.as_str()) {
        return true;
    }
    if depth == 0 {
        return false;
    }
    compound_within_exec(t.as_str(), f, depth - 1) || compound_within_exec(suffix.as_str(), f, depth - 1)
}

/// Checks whether `word` is a compound word: its longest proper prefix accepted by
/// `predicate` is followed by a suffix that is accepted, titlecased or as it is, or
/// that is itself a compound word.
///
/// The descent into suffixes goes at most [`split_depth`] levels deep.
pub fn is_compound_word<F: Fn(&str) -> bool>(word: &str, predicate: &F) -> (r: bool)
    requires
        decides(predicate),
    ensures
        r == compound_within(predicate, word@, split_depth(word@)),
{
    let n = split_depth_of(word);
    compound_within_exec(word, predicate, n)
}

} // verus!
