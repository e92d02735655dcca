//! The German action: umlauts and eszett.
use vstd::prelude::*;
use vstd::string::StringSliceAdditionalSpecFns;

use crate::actions::{Action, ActionError};
use crate::scope::ScopeContext;
use crate::betterletters::modules::german::machine::{drive, driven, free_of_spellings, lemma_driven_untouched};
use crate::betterletters::stages::german::driver::VALID_GERMAN_WORDS;
use crate::betterletters::stages::german::words::{all_fit, apply_replacements, in_order, lemma_power_set_fits, casing_of, replaced, Replacement, WordCasing};
use crate::betterletters::stages::first_line_len;
use crate::betterletters::util::iteration::lex_lt;
use vstd::utf8::encode_utf8;
use crate::iteration::{copied, power_set, power_set_of};
use crate::strs::{is_uppercase, lowercased, push_str, titlecase_lower_rest, to_chars, to_lowercase, to_titlecase_lower_rest, uppercase_char};

verus! {

/// A line of text that ended in a newline, as `str::lines` gives it: without the
/// newline, and without one carriage return before it.
pub open spec fn line_without_ending(seg: Seq<char>) -> Seq<char> {
    let body = seg.drop_last();
    if body.len() > 0 && body.last() == '\r' {
        body.drop_last()
    } else {
        body
    }
}

/// The lines of `s`, as `str::lines` gives them: `s` split after each newline, each line
/// without its newline and one carriage return before it; a last line without a newline
/// is kept as it is, and there is none after a final newline.
pub open spec fn text_lines(s: Seq<char>) -> Seq<Seq<char>>
    decreases s.len(),
{
    if s.len() == 0 {
        seq![]
    } else {
        let n = first_line_len(s);
        if 0 < n <= s.len() && s[n - 1] == '\n' {
            seq![line_without_ending(s.take(n))] + text_lines(s.skip(n))
        } else {
            seq![s]
        }
    }
}

/// Whether no line of `ls` comes before the one preceding it in byte order.
pub open spec fn lines_in_order(ls: Seq<Seq<char>>) -> bool {
    forall|i: int| 0 <= i < ls.len() - 1 ==> !lex_lt(encode_utf8(#[trigger] ls[i + 1]), encode_utf8(ls[i]))
}

/// Whether `w` is one of the lines of the word list with characters `words`, the lines
/// being in byte order.
pub open spec fn listed_in(words: Seq<char>, w: Seq<char>) -> bool {
    lines_in_order(text_lines(words)) && text_lines(words).contains(w)
}

/// Looks `word` up in the finite-state set built from the lines of `words`
/// (`str::lines`, then `fst::Set::from_iter` and `fst::Set::contains`).
///
/// Trusted: building the set succeeds exactly when no line comes before the one
/// preceding it in byte order (the builder refuses a key smaller than the last one and
/// passes over a repeated one), and the set then holds exactly the lines; a set that
/// cannot be built finds nothing.
#[verifier::external_body]
fn fst_contains(words: &str, word: &str) -> (r: bool)
    ensures
        r == listed_in(words@, word@),
{
    match fst::Set::from_iter(words.lines()) {
        Ok(set) => set.contains(word),
        Err(_) => false,
    }
}

/// Whether the word with characters `w` splits into valid words of the word list
/// (what `decompound::decompound` with the word list and the option to try titlecased
/// suffixes answers, `Ok` being a split).
pub uninterp spec fn decompounds(w: Seq<char>) -> bool;

/// Tries to split `word` into valid words of the word list (`decompound::decompound`,
/// trying titlecased suffixes too).
///
/// Trusted: the result is `decompounds(word)`, whether a split was found.
#[verifier::external_body]
fn decompound_ok(word: &str) -> (r: bool)
    ensures
        r == decompounds(word@),
{
    decompound::decompound(word, &|w: &str| contained_in_global_word_list(w), decompound::DecompositionOptions::TRY_TITLECASE_SUFFIX).is_ok()
}

/// Looks `word` up in the word list.
pub fn contained_in_global_word_list(word: &str) -> (r: bool)
    ensures
        r == listed_in(VALID_GERMAN_WORDS@, word@),
{
    fst_contains(VALID_GERMAN_WORDS, word)
}

/// How many times at most the casing of a candidate is changed while checking it (it
/// does not bound splitting compound words). The casing maps are outside functions, so
/// nothing here shows that a chain of casing changes ends; a word whose casing maps
/// behave as documented takes at most three (uppercase, titlecase, lowercase), and this
/// leaves room beyond that.
pub const CASING_DEPTH: usize = 8;

/// Whether `w` is a valid word, changing its casing at most `depth` more times:
/// lowercase words must be listed or split into listed words; uppercase words are
/// titlecased first; mixed-case words are titlecased if they start uppercase and
/// lowercased otherwise; titlecase words are listed, valid lowercased, or split into
/// listed words. Words with characters of no casing are invalid.
pub open spec fn valid_word(w: Seq<char>, depth: nat) -> bool
    decreases depth,
{
    match casing_of(w) {
        Ok(WordCasing::AllLowercase) => listed_in(VALID_GERMAN_WORDS@, w) || decompounds(w),
        Ok(WordCasing::AllUppercase) => depth > 0 && valid_word(titlecase_lower_rest(w), (depth - 1) as nat),
        Ok(WordCasing::Mixed) => depth > 0 && if uppercase_char(w[0]) {
            valid_word(titlecase_lower_rest(w), (depth - 1) as nat)
        } else {
            valid_word(lowercased(w), (depth - 1) as nat)
        },
        Ok(WordCasing::Titlecase) => listed_in(VALID_GERMAN_WORDS@, w) || (depth > 0 && valid_word(lowercased(w), (depth - 1) as nat))
            || decompounds(w),
        Err(_) => false,
    }
}

fn is_valid_within(word: &str, depth: usize) -> (r: bool)
    ensures
        r == valid_word(word@, depth as nat),
    decreases depth,
{
    match WordCasing::try_from(word) {
        Ok(WordCasing::AllLowercase) => contained_in_global_word_list(word) || decompound_ok(word),
        Ok(WordCasing::AllUppercase) => {
            if depth == 0 {
                return false;
            }
            let tc = to_titlecase_lower_rest(word);
            is_valid_within(tc.as_str(), depth - 1)
        },
        Ok(WordCasing::Mixed) => {
            if depth == 0 {
                return false;
            }
            let cs = to_chars(word);
            if is_uppercase(cs[0]) {
                let tc = to_titlecase_lower_rest(word);
                is_valid_within(tc.as_str(), depth - 1)
            } else {
                let lc = to_lowercase(word);
                is_valid_within(lc.as_str(), depth - 1)
            }
        },
        Ok(WordCasing::Titlecase) => {
            if contained_in_global_word_list(word) {
                return true;
            }
            if depth > 0 {
                let lc = to_lowercase(word);
                if is_valid_within(lc.as_str(), depth - 1) {
                    return true;
                }
            }
            decompound_ok(word)
        },
        Err(_) => false,
    }
}

/// Checks whether `word` is a valid German word (see [`valid_word`]).
pub fn is_valid(word: &str) -> (r: bool)
    ensures
        r == valid_word(word@, CASING_DEPTH as nat),
{
    is_valid_within(word, CASING_DEPTH)
}

/// The candidate sets of replacements, in order: the whole power set, or, when naive,
/// only its first (empty) and last (complete) set.
pub open spec fn candidate_sets(reps: Seq<Replacement>, naive: bool) -> Seq<Seq<Replacement>> {
    if naive {
        if reps.len() == 0 {
            seq![Seq::empty()]
        } else {
            seq![Seq::empty(), reps]
        }
    } else {
        power_set_of(reps, true)
    }
}

/// The first of the candidate replacement sets `combos` that, made in `w`, gives a
/// valid word (or any word, when naive), as that word.
pub open spec fn first_valid(w: Seq<char>, combos: Seq<Seq<Replacement>>, naive: bool) -> Option<Seq<char>>
    decreases combos.len(),
{
    if combos.len() == 0 {
        None
    } else {
        let candidate = replaced(w, combos[0]);
        if naive || valid_word(candidate, CASING_DEPTH as nat) {
            Some(candidate)
        } else {
            first_valid(w, combos.drop_first(), naive)
        }
    }
}

/// The valid replacement for word `w` with possible replacements `reps`: the first
/// candidate set (see [`candidate_sets`]) that gives a valid word, the empty set left
/// out unless the original is preferred. Words with as many possible replacements as a
/// `usize` has bits are left alone.
pub open spec fn action_replacement(w: Seq<char>, reps: Seq<Replacement>, prefer_original: bool, naive: bool) -> Option<
    Seq<char>,
> {
    if reps.len() >= usize::BITS {
        None
    } else {
        first_valid(w, candidate_sets(reps, naive).skip(if prefer_original { 0 } else { 1 }), naive)
    }
}

/// The candidate sets of replacements (see [`candidate_sets`]).
fn candidates(replacements: &[Replacement], naive: bool) -> (r: Vec<Vec<Replacement>>)
    requires
        replacements@.len() < usize::BITS,
    ensures
        r@.len() == candidate_sets(replacements@, naive).len(),
        forall|i: int| 0 <= i < r@.len() ==> #[trigger] r@[i]@ == candidate_sets(replacements@, naive)[i],
{
    if naive {
        let mut r: Vec<Vec<Replacement>> = Vec::new();
        r.push(Vec::new());
        if replacements.len() > 0 {
            r.push(copied(replacements));
        }
        proof {
            assert(r@[0]@ =~= Seq::<Replacement>::empty());
        }
        r
    } else {
        power_set(copied(replacements), true)
    }
}

/// Finds the valid replacement for `word` (see [`action_replacement`]).
pub fn find_valid_replacement(word: &str, replacements: &[Replacement], prefer_original: bool, naive: bool) -> (r: Option<String>)
    requires
        in_order(word@, replacements@),
    ensures
        match r {
            Some(s) => action_replacement(word@, replacements@, prefer_original, naive) == Some(s@),
            None => action_replacement(word@, replacements@, prefer_original, naive) is None,
        },
{
    let n = replacements.len();
    if n >= usize::BITS as usize {
        return None;
    }
    let combos = candidates(replacements, naive);
    let ghost all = candidate_sets(replacements@, naive);
    let m = combos.len();
    let n_skip: usize = if prefer_original { 0 } else { 1 };
    if n_skip > m {
        proof {
            assert(all.skip(n_skip as int).len() == 0) by {
                assert(false) by {
                    if !naive {
                        assert(all == crate::iteration::subsets_from(replacements@, 0));
                        assert(crate::iteration::combinations(replacements@, 0).len() == 1);
                    }
                }
            }
        }
        return None;
    }
    let mut k: usize = n_skip;
    proof {
        if naive {
            crate::betterletters::stages::german::words::lemma_in_order_all_fit(word@, replacements@);
            assert(all_fit(word@, Seq::<Replacement>::empty()));
        } else {
            lemma_power_set_fits(word@, replacements@, true);
        }
    }
    while k < m
        invariant
            n_skip <= k <= m,
            m == combos@.len(),
            m == all.len(),
            all == candidate_sets(replacements@, naive),
            forall|i: int| 0 <= i < combos@.len() ==> #[trigger] combos@[i]@ == all[i],
            forall|i: int| 0 <= i < all.len() ==> all_fit(word@, #[trigger] all[i]),
            n < usize::BITS,
            n_skip == (if prefer_original { 0usize } else { 1usize }),
            first_valid(word@, all.skip(k as int), naive) == action_replacement(word@, replacements@, prefer_original, naive),
        decreases m - k,
    {
        let mut candidate = String::new();
        push_str(&mut candidate, word);
        let combo = copied(combos[k].as_slice());
        proof {
            assert(candidate@ =~= word@);
            assert(all.skip(k as int)[0] == all[k as int]);
            assert(all.skip(k as int).drop_first() =~= all.skip(k + 1));
        }
        apply_replacements(&mut candidate, combo);
        if naive || is_valid(candidate.as_str()) {
            return Some(candidate);
        }
        k = k + 1;
    }
    proof {
        assert(all.skip(m as int) =~= Seq::<Seq<Replacement>>::empty());
        assert(first_valid(word@, all.skip(m as int), naive) is None);
    }
    None
}

/// What a word becomes: its valid replacement, or the word itself.
pub open spec fn act_pick(w: Seq<char>, reps: Seq<Replacement>, prefer_original: bool, naive: bool) -> Seq<char> {
    match action_replacement(w, reps, prefer_original, naive) {
        Some(x) => x,
        None => w,
    }
}

/// German language action, responsible for umlauts and eszett: replaces `ue`, `oe`,
/// `ae` with `ü`, `ö`, `ä` and `ss` with `ß` (any casing), where the word list confirms
/// that the result is a valid word.
///
/// Preferring the original keeps a word that is valid as written; naive mode makes all
/// replacements in a word without checking the word list.
#[derive(Debug, Clone, Copy)]
pub struct German {
    prefer_original: bool,
    naive: bool,
}

impl German {
    /// Whether a word that is valid as written is kept.
    pub closed spec fn prefers_original(&self) -> bool {
        self.prefer_original
    }

    /// Whether all replacements are made without checking the word list.
    pub closed spec fn is_naive(&self) -> bool {
        self.naive
    }

    /// Creates a new German action with the given settings.
    pub fn new(prefer_original: bool, naive: bool) -> (g: Self)
        ensures
            g.prefers_original() == prefer_original,
            g.is_naive() == naive,
    {
        Self { prefer_original, naive }
    }

    /// Keeps words that are valid as written.
    pub fn prefer_original(&mut self) -> (r: &mut Self)
        ensures
            r.prefers_original(),
            r.is_naive() == old(self).is_naive(),
            *final(self) == *final(r),
    {
        self.prefer_original = true;
        self
    }

    /// Replaces words even if they are valid as written.
    pub fn prefer_replacement(&mut self) -> (r: &mut Self)
        ensures
            !r.prefers_original(),
            r.is_naive() == old(self).is_naive(),
            *final(self) == *final(r),
    {
        self.prefer_original = false;
        self
    }

    /// Makes all replacements without checking the word list.
    pub fn naive(&mut self) -> (r: &mut Self)
        ensures
            r.is_naive(),
            r.prefers_original() == old(self).prefers_original(),
            *final(self) == *final(r),
    {
        self.naive = true;
        self
    }

    /// Checks replacements against the word list.
    pub fn sophisticated(&mut self) -> (r: &mut Self)
        ensures
            !r.is_naive(),
            r.prefers_original() == old(self).prefers_original(),
            *final(self) == *final(r),
    {
        self.naive = false;
        self
    }
}

impl Default for German {
    fn default() -> (g: Self)
        ensures
            !g.prefers_original(),
            !g.is_naive(),
    {
        Self::new(false, false)
    }
}

/// A word without possible replacements is kept as it is.
proof fn lemma_act_pick_plain(w: Seq<char>, prefer_original: bool, naive: bool)
    ensures
        act_pick(w, Seq::<Replacement>::empty(), prefer_original, naive) == w,
{
    assert(power_set_of(Seq::<Replacement>::empty(), true) =~= seq![Seq::<Replacement>::empty()]) by {
        crate::iteration::lemma_power_set_empty_first(Seq::<Replacement>::empty());
        assert(crate::iteration::subsets_from(Seq::<Replacement>::empty(), 1) =~= Seq::<Seq<Replacement>>::empty());
    }
    let sets = candidate_sets(Seq::<Replacement>::empty(), naive);
    assert(sets =~= seq![Seq::<Replacement>::empty()]);
    assert(replaced(w, Seq::<Replacement>::empty()) == w);
    let empty = Seq::<Seq<Replacement>>::empty();
    assert(first_valid(w, empty, naive) is None);
    if !prefer_original {
        assert(sets.skip(1) =~= empty);
        assert(action_replacement(w, Seq::<Replacement>::empty(), prefer_original, naive) is None);
    } else {
        assert(sets.skip(0) =~= sets);
        assert(sets.drop_first() =~= empty);
        assert(action_replacement(w, Seq::<Replacement>::empty(), prefer_original, naive) == first_valid(w, sets, naive));
    }
}

/// The action, however configured, leaves text in which no two neighbouring characters
/// spell a special character (`ae`, `oe`, `ue`, `ss`, in any casing) unchanged.
pub proof fn lemma_german_untouched(g: German, input: Seq<char>)
    requires
        free_of_spellings(input),
    ensures
        g.acts(input) == input,
{
    let pick = |w: Seq<char>, reps: Seq<Replacement>| act_pick(w, reps, g.prefers_original(), g.is_naive());
    assert forall|w: Seq<char>| #[trigger] pick(w, Seq::<Replacement>::empty()) == w by {
        lemma_act_pick_plain(w, g.prefers_original(), g.is_naive());
    }
    lemma_driven_untouched(pick, true, input);
}

impl Action for German {
    open spec fn acts(&self, input: Seq<char>) -> Seq<char> {
        driven(
            |w: Seq<char>, reps: Seq<Replacement>| act_pick(w, reps, self.prefers_original(), self.is_naive()),
            true,
            input,
        )
    }

    fn act(&self, input: &str) -> (r: String) {
        let prefer_original = self.prefer_original;
        let naive = self.naive;
        let pick = |w: &str, reps: &Vec<Replacement>| -> (s: String)
            requires
                in_order(w@, reps@),
            ensures
                s@ == act_pick(w@, reps@, prefer_original, naive),
            {
                match find_valid_replacement(w, reps.as_slice(), prefer_original, naive) {
                    Some(s) => s,
                    None => {
                        let mut s = String::new();
                        push_str(&mut s, w);
                        s
                    },
                }
            };
        drive(input, true, &pick, Ghost(|w: Seq<char>, reps: Seq<Replacement>| act_pick(w, reps, prefer_original, naive)))
    }

    open spec fn acts_in_context(&self, input: Seq<char>, context: ScopeContext) -> Option<Seq<char>> {
        Some(self.acts(input))
    }

    /// Context is not needed: acts as [`Action::act`] does.
    fn act_with_context(&self, input: &str, context: &ScopeContext) -> (r: Result<String, ActionError>)
        ensures
            r matches Ok(s) && s@ == self.acts(input@),
    {
        Ok(self.act(input))
    }
}

/// Naive mode forces every replacement the machine found: without preferring the
/// original, a word becomes the word with all of its replacements made; preferring the
/// original, it stays as it is.
pub proof fn lemma_naive_makes_all(w: Seq<char>, reps: Seq<Replacement>)
    requires
        reps.len() < usize::BITS,
    ensures
        act_pick(w, reps, false, true) == replaced(w, reps),
        act_pick(w, reps, true, true) == w,
{
    let all = candidate_sets(reps, true);
    assert(replaced(w, Seq::<Replacement>::empty()) == w);
    if reps.len() > 0 {
        assert(all.skip(1) =~= seq![reps]);
        assert(seq![reps].drop_first() =~= Seq::<Seq<Replacement>>::empty());
    } else {
        assert(all.skip(1) =~= Seq::<Seq<Replacement>>::empty());
    }
    assert(all.skip(0) =~= all);
}

/// Preferring the original keeps a word that is valid as written, naive or not.
pub proof fn lemma_prefer_original_keeps_valid(w: Seq<char>, reps: Seq<Replacement>, naive: bool)
    requires
        reps.len() < usize::BITS,
        valid_word(w, CASING_DEPTH as nat),
    ensures
        act_pick(w, reps, true, naive) == w,
{
    let all = candidate_sets(reps, naive);
    crate::iteration::lemma_power_set_empty_first(reps);
    assert(all[0] == Seq::<Replacement>::empty());
    assert(all.skip(0) =~= all);
    assert(replaced(w, Seq::<Replacement>::empty()) == w);
}

} // verus!
