//! Processing German text in place, checked against a sorted list of words.
use vstd::prelude::*;
use vstd::string::StringSliceAdditionalSpecFns;

use crate::betterletters::modules::german::machine::{drive, driven, free_of_spellings, lemma_driven_untouched};
use crate::betterletters::stages::german::words::{all_fit, apply_replacements, in_order, lemma_power_set_fits, replaced, Replacement};
use crate::betterletters::util::iteration::lex_lt;
use crate::common::{char_lowercase, char_uppercase};
use crate::iteration::{copied, power_set, power_set_of};
use crate::modules::{ProcessResult, TextProcessor};
use crate::strs::{is_uppercase, push_chars, push_str, to_chars, uppercase_char};

verus! {

/// The German words that are known to be valid, in strictly increasing byte order.
pub const VALID_GERMAN_WORDS: [&'static str; 70] = ["Abenteuer", "Aerodynamik", "Apfel", "Auge", "Bad", "Bestandteil", "Busse", "Buße", "Bäder", "Dominoeffekt", "Dübel", "Eis", "Gott", "Gruß", "Haus", "Israel", "Kindergarten", "Koeffizient", "Käfer", "Kübel", "Masse", "Mauer", "Maß", "Maße", "Messgerät", "Poet", "Satz", "Schufaeintrag", "Steuerung", "Süßwasser", "Tag", "Traum", "Träumer", "Wasser", "ab", "aber", "bitte", "danke", "dröge", "es", "füllen", "grün", "grüß", "gut", "ich", "ist", "kongruent", "mag", "nicht", "schließen", "schwimm", "schöner", "sind", "süß", "süßes", "toll", "viel", "vielleicht", "von", "warum", "was", "wer", "wichtig", "wichtiger", "wir", "Äpfel", "Ärger", "Öl", "Überflieger", "übel"];

/// How many steps, beyond two for each character of a candidate, checking it may take
/// at most (see [`listing_depth`]).
pub const CASING_DEPTH: usize = 8;

/// How many steps checking `w` may take at most: each step lowercases the first
/// character or splits off a listed prefix, which takes at least one character, so two
/// for each character suffice where the casing maps keep a first character's length;
/// [`CASING_DEPTH`] more leave room for those that do not.
pub open spec fn listing_depth(w: Seq<char>) -> nat {
    if 2 * w.len() + CASING_DEPTH <= usize::MAX {
        (2 * w.len() + CASING_DEPTH) as nat
    } else {
        usize::MAX as nat
    }
}

/// The words `v` as character sequences.
pub open spec fn word_texts(v: Seq<&str>) -> Seq<Seq<char>> {
    v.map_values(|s: &str| s@)
}

/// Whether the words `v` are in strictly increasing byte order.
pub open spec fn strictly_sorted(v: Seq<&str>) -> bool {
    forall|i: int, j: int| 0 <= i < j < v.len() ==> lex_lt(v[i].spec_bytes(), v[j].spec_bytes())
}

/// What `[&str]::binary_search` reports, as found or not, for the word `w` in `words`.
pub uninterp spec fn search_found(words: Seq<Seq<char>>, w: Seq<char>) -> bool;

/// Searches the sorted `words` for `word` (`[&str]::binary_search`, found or not).
///
/// Trusted: the result is `search_found(words, word)`; for words in strictly increasing
/// order, the word is found if and only if it is one of them, as the documentation
/// states (strings are ordered by their bytes). What is found in a list out of order
/// is left unsaid.
#[verifier::external_body]
fn search_words(words: &[&str], word: &str) -> (r: bool)
    ensures
        r == search_found(word_texts(words@), word@),
        strictly_sorted(words@) ==> (r == word_texts(words@).contains(word@)),
{
    words.binary_search(&word).is_ok()
}

/// `w` with its first character lowercased.
pub open spec fn lowercase_first(w: Seq<char>) -> Seq<char> {
    char_lowercase(w[0]) + w.drop_first()
}

/// `w` with its first character uppercased.
pub open spec fn uppercase_first(w: Seq<char>) -> Seq<char> {
    char_uppercase(w[0]) + w.drop_first()
}

/// The length of the shortest prefix of `w` of at least `k` characters, but fewer than
/// all, that is among `words`, or 0 if there is none.
pub open spec fn shortest_listed_prefix(words: Seq<Seq<char>>, w: Seq<char>, k: int) -> int
    decreases w.len() - k,
{
    if k < 1 || k >= w.len() {
        0
    } else if search_found(words, w.take(k)) {
        k
    } else {
        shortest_listed_prefix(words, w, k + 1)
    }
}

/// Whether the non-empty `w` is a valid word by the list `words`, changing its first
/// letter's casing at most `depth` more times: it is valid with its first letter
/// lowercased (if that is uppercase), or it is listed, or after its shortest listed
/// proper prefix, the rest with its first letter uppercased is valid.
pub open spec fn listed_word(words: Seq<Seq<char>>, w: Seq<char>, depth: nat) -> bool
    decreases depth,
{
    if w.len() == 0 {
        false
    } else if uppercase_char(w[0]) && depth > 0 && listed_word(words, lowercase_first(w), (depth - 1) as nat) {
        true
    } else if search_found(words, w) {
        true
    } else {
        let k = shortest_listed_prefix(words, w, 1);
        k > 0 && depth > 0 && listed_word(words, uppercase_first(w.skip(k)), (depth - 1) as nat)
    }
}

/// The uppercase mapping of `c`, as characters.
fn upper_chars(c: char) -> (r: Vec<char>)
    ensures
        r@ == char_uppercase(c),
{
    let s = crate::common::titlecase_char_upper(c);
    s
}

/// The lowercase mapping of `c`, as characters.
fn lower_chars(c: char) -> (r: Vec<char>)
    ensures
        r@ == char_lowercase(c),
{
    crate::common::titlecase_char_lower(c)
}

/// The first character of a non-empty `word`.
pub fn first_char(word: &str) -> (c: char)
    requires
        word@.len() > 0,
    ensures
        c == word@[0],
{
    let cs = to_chars(word);
    cs[0]
}

/// `word` with its first character lowercased.
pub fn lowercase_first_char(word: &str) -> (r: String)
    requires
        word@.len() > 0,
    ensures
        r@ == lowercase_first(word@),
{
    let cs = to_chars(word);
    let mut r = String::new();
    push_chars(&mut r, lower_chars(cs[0]).as_slice());
    push_chars(&mut r, vstd::slice::slice_subrange(cs.as_slice(), 1, cs.len()));
    proof {
        assert(cs@.subrange(1, cs@.len() as int) =~= word@.drop_first());
        assert(r@ =~= lowercase_first(word@));
    }
    r
}

/// `word` with its first character uppercased.
pub fn uppercase_first_char(word: &str) -> (r: String)
    requires
        word@.len() > 0,
    ensures
        r@ == uppercase_first(word@),
{
    let cs = to_chars(word);
    let mut r = String::new();
    push_chars(&mut r, upper_chars(cs[0]).as_slice());
    push_chars(&mut r, vstd::slice::slice_subrange(cs.as_slice(), 1, cs.len()));
    proof {
        assert(cs@.subrange(1, cs@.len() as int) =~= word@.drop_first());
        assert(r@ =~= uppercase_first(word@));
    }
    r
}

fn is_valid_within(word: &str, valid_words: &[&str], depth: usize) -> (r: bool)
    ensures
        r == listed_word(word_texts(valid_words@), word@, depth as nat),
    decreases depth,
{
    let ghost ws = word_texts(valid_words@);
    let cs = to_chars(word);
    let n = cs.len();
    if n == 0 {
        return false;
    }
    if is_uppercase(cs[0]) && depth > 0 {
        let lower = lowercase_first_char(word);
        if is_valid_within(lower.as_str(), valid_words, depth - 1) {
            return true;
        }
    }
    if search_words(valid_words, word) {
        return true;
    }
    let mut prefix = String::new();
    let mut k: usize = 1;
    while k < n
        invariant
            1 <= k <= n,
            n == cs@.len(),
            cs@ == word@,
            ws == word_texts(valid_words@),
            prefix@ == cs@.take(k - 1),
            shortest_listed_prefix(ws, word@, 1) == shortest_listed_prefix(ws, word@, k as int),
            word@.len() > 0,
            !(uppercase_char(word@[0]) && depth > 0 && listed_word(ws, lowercase_first(word@), (depth - 1) as nat)),
            !search_found(ws, word@),
        decreases n - k,
    {
        crate::strs::push_char(&mut prefix, cs[k - 1]);
        proof {
            assert(cs@.take(k - 1).push(cs@[k - 1]) =~= cs@.take(k as int));
        }
        if search_words(valid_words, prefix.as_str()) {
            if depth == 0 {
                return false;
            }
            let suffix = crate::strs::from_chars(vstd::slice::slice_subrange(cs.as_slice(), k, n));
            proof {
                assert(suffix@ =~= word@.skip(k as int));
            }
            let upper = uppercase_first_char(suffix.as_str());
            return is_valid_within(upper.as_str(), valid_words, depth - 1);
        }
        k = k + 1;
    }
    false
}

/// Checks whether `word` is a valid word by the list `valid_words` (see
/// [`listed_word`]).
pub fn is_valid(word: &str, valid_words: &[&str]) -> (r: bool)
    ensures
        r == listed_word(word_texts(valid_words@), word@, listing_depth(word@)),
{
    let n = to_chars(word).len();
    let depth = if n <= (usize::MAX - CASING_DEPTH) / 2 {
        2 * n + CASING_DEPTH
    } else {
        usize::MAX
    };
    is_valid_within(word, valid_words, depth)
}

/// The first of the candidate replacement sets `combos` that, made in `w`, gives a word
/// valid by `words`, as that word.
pub open spec fn first_listed(w: Seq<char>, combos: Seq<Seq<Replacement>>, words: Seq<Seq<char>>) -> Option<Seq<char>>
    decreases combos.len(),
{
    if combos.len() == 0 {
        None
    } else {
        let candidate = replaced(w, combos[0]);
        if listed_word(words, candidate, listing_depth(candidate)) {
            Some(candidate)
        } else {
            first_listed(w, combos.drop_first(), words)
        }
    }
}

/// The valid replacement for word `w` with possible replacements `reps`, by the list
/// `words`: the first non-empty set of replacements, by the power set's order, that
/// gives a valid word. Words with as many possible replacements as a `usize` has bits
/// are left alone.
pub open spec fn listed_replacement(w: Seq<char>, reps: Seq<Replacement>, words: Seq<Seq<char>>) -> Option<Seq<char>> {
    if reps.len() >= usize::BITS {
        None
    } else {
        first_listed(w, power_set_of(reps, false), words)
    }
}

/// Finds the valid replacement for `word` (see [`listed_replacement`]).
pub fn find_valid_replacement(word: &str, replacements: &[Replacement], valid_words: &[&str]) -> (r: Option<String>)
    requires
        in_order(word@, replacements@),
    ensures
        match r {
            Some(s) => listed_replacement(word@, replacements@, word_texts(valid_words@)) == Some(s@),
            None => listed_replacement(word@, replacements@, word_texts(valid_words@)) is None,
        },
{
    let ghost ws = word_texts(valid_words@);
    let n = replacements.len();
    if n >= usize::BITS as usize {
        return None;
    }
    let combos = power_set(copied(replacements), false);
    let ghost all = power_set_of(replacements@, false);
    let m = combos.len();
    let mut k: usize = 0;
    proof {
        assert(all.skip(0) =~= all);
        lemma_power_set_fits(word@, replacements@, false);
    }
    while k < m
        invariant
            k <= m,
            m == combos@.len(),
            m == all.len(),
            all == power_set_of(replacements@, false),
            ws == word_texts(valid_words@),
            forall|i: int| 0 <= i < combos@.len() ==> #[trigger] combos@[i]@ == all[i],
            forall|i: int| 0 <= i < all.len() ==> all_fit(word@, #[trigger] all[i]),
            n < usize::BITS,
            first_listed(word@, all.skip(k as int), ws) == listed_replacement(word@, replacements@, ws),
        decreases m - k,
    {
        let mut candidate = String::new();
        push_str(&mut candidate, word);
        let combo = copied(combos[k].as_slice());
        proof {
            assert(candidate@ =~= word@);
            assert(all.skip(k as int)[0] == all[k as int]);
            assert(all.skip(k as int).drop_first() =~= all.skip(k + 1));
        }
        apply_replacements(&mut candidate, combo);
        if is_valid(candidate.as_str(), valid_words) {
            return Some(candidate);
        }
        k = k + 1;
    }
    proof {
        assert(all.skip(m as int) =~= Seq::<Seq<Replacement>>::empty());
        assert(first_listed(word@, all.skip(m as int), ws) is None);
    }
    None
}

/// What a word becomes: its valid replacement by the global word list, or the word
/// itself.
pub open spec fn listed_pick(w: Seq<char>, reps: Seq<Replacement>) -> Seq<char> {
    match listed_replacement(w, reps, word_texts(VALID_GERMAN_WORDS@)) {
        Some(x) => x,
        None => w,
    }
}

/// A word without possible replacements is kept as it is.
proof fn lemma_listed_pick_plain(w: Seq<char>)
    ensures
        listed_pick(w, Seq::<Replacement>::empty()) == w,
{
    assert(power_set_of(Seq::<Replacement>::empty(), false) =~= Seq::<Seq<Replacement>>::empty());
}

/// The processor leaves text in which no two neighbouring characters spell a special
/// character (`ae`, `oe`, `ue`, `ss`, in any casing) unchanged.
pub proof fn lemma_processor_untouched(input: Seq<char>)
    requires
        free_of_spellings(input),
    ensures
        German.processed(input) == Some(input),
{
    let pick = |w: Seq<char>, reps: Seq<Replacement>| listed_pick(w, reps);
    assert forall|w: Seq<char>| #[trigger] pick(w, Seq::<Replacement>::empty()) == w by {
        lemma_listed_pick_plain(w);
    }
    lemma_driven_untouched(pick, false, input);
}

/// German: replaces `ue`, `oe`, `ae` with `ü`, `ö`, `ä` and `ss` with `ß` (any casing),
/// where the word list confirms that the result is a valid word.
#[derive(Debug, Clone, Copy)]
pub struct German;

impl TextProcessor for German {
    open spec fn processed(&self, input: Seq<char>) -> Option<Seq<char>> {
        Some(driven(|w: Seq<char>, reps: Seq<Replacement>| listed_pick(w, reps), false, input))
    }

    fn process(&self, input: &mut String) -> (r: ProcessResult)
        ensures
            r is Ok,
            final(input)@ == driven(|w: Seq<char>, reps: Seq<Replacement>| listed_pick(w, reps), false, old(input)@),
    {
        let pick = |w: &str, reps: &Vec<Replacement>| -> (s: String)
            requires
                in_order(w@, reps@),
            ensures
                s@ == listed_pick(w@, reps@),
            {
                let words = VALID_GERMAN_WORDS;
                match find_valid_replacement(w, reps.as_slice(), &words) {
                    Some(s) => s,
                    None => {
                        let mut s = String::new();
                        push_str(&mut s, w);
                        s
                    },
                }
            };
        let output = drive(input.as_str(), false, &pick, Ghost(|w: Seq<char>, reps: Seq<Replacement>| listed_pick(w, reps)));
        *input = output;
        Ok(())
    }
}

} // verus!
