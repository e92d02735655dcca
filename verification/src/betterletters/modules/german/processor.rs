//! Processing German text in place.
use vstd::prelude::*;

use super::machine::{drive, driven, free_of_spellings, lemma_driven_untouched};
use crate::betterletters::stages::german::words::{all_fit, apply_replacements, in_order, lemma_power_set_fits, casing_of, replaced, Replacement, WordCasing};
use crate::common::{accepts, ask, decides, longest_accepted_prefix, split_depth, split_depth_of, titlecase, titlecased};
use crate::iteration::{copied, power_set, power_set_of};
use crate::modules::{ProcessResult, TextProcessor};
use crate::strs::{from_chars, lowercased, push_str, to_chars, to_lowercase};

pub use crate::betterletters::stages::german::driver::{contained_in_global_word_list, listed, VALID_GERMAN_WORDS};

verus! {

/// How many times at most the casing of a candidate is changed while checking it (it
/// does not bound splitting compound words). The casing maps are outside functions, so
/// nothing here shows that a chain of casing changes ends; a word whose casing maps
/// behave as documented takes at most three (uppercase, titlecase, lowercase), and this
/// leaves room beyond that.
pub const CASING_DEPTH: usize = 8;

/// Whether `w` is a compound word under predicate `f`, looking at most `depth` more
/// suffixes deep: it is accepted itself, or after its longest accepted proper prefix,
/// the rest, titlecased or as it is, is such a compound word.
pub open spec fn compound_word<F: Fn(&str) -> bool>(f: &F, w: Seq<char>, depth: nat) -> bool
    decreases depth,
{
    if accepts(f, w) {
        true
    } else {
        let i = longest_accepted_prefix(f, w, w.len() - 1);
        if i == 0 || depth == 0 {
            false
        } else {
            let suffix = w.skip(i);
            compound_word(f, titlecased(suffix), (depth - 1) as nat) || compound_word(f, suffix, (depth - 1) as nat)
        }
    }
}

fn compound_word_within<F: Fn(&str) -> bool>(word: &str, predicate: &F, depth: usize) -> (r: bool)
    requires
        decides(predicate),
    ensures
        r == compound_word(predicate, word@, depth as nat),
    decreases depth,
{
    if ask(predicate, word) {
        return true;
    }
    let cs = to_chars(word);
    let i = crate::common::longest_prefix_len(predicate, &cs);
    if i == 0 || depth == 0 {
        return false;
    }
    let suffix = from_chars(vstd::slice::slice_subrange(cs.as_slice(), i, cs.len()));
    proof {
        assert(suffix@ =~= word@.skip(i as int));
    }
    let t = titlecase(suffix.as_str());
    compound_word_within(t.as_str(), predicate, depth - 1) || compound_word_within(suffix.as_str(), predicate, depth - 1)
}

/// Checks whether `word` is a compound word under `predicate` (see [`compound_word`]),
/// descending at most [`split_depth`] suffixes deep.
pub fn is_valid_compound_word<F: Fn(&str) -> bool>(word: &str, predicate: &F) -> (r: bool)
    requires
        decides(predicate),
    ensures
        r == compound_word(predicate, word@, split_depth(word@)),
{
    let n = split_depth_of(word);
    compound_word_within(word, predicate, n)
}

/// Whether `w` is a valid word under predicate `f`, changing its casing at most `depth`
/// more times: lowercase words must be accepted as they are; uppercase and mixed-case
/// words are titlecased first; titlecase words are accepted as they are, lowercased, or
/// as compound words. Words with characters of no casing are invalid.
pub open spec fn valid_word<F: Fn(&str) -> bool>(f: &F, w: Seq<char>, depth: nat) -> bool
    decreases depth,
{
    match casing_of(w) {
        Ok(WordCasing::AllLowercase) => accepts(f, w),
        Ok(WordCasing::AllUppercase) | Ok(WordCasing::Mixed) => depth > 0 && valid_word(f, titlecased(w), (depth - 1) as nat),
        Ok(WordCasing::Titlecase) => accepts(f, w) || (depth > 0 && valid_word(f, lowercased(w), (depth - 1) as nat))
            || compound_word(f, w, split_depth(w)),
        Err(_) => false,
    }
}

fn is_valid_within<F: Fn(&str) -> bool>(word: &str, predicate: &F, depth: usize) -> (r: bool)
    requires
        decides(predicate),
    ensures
        r == valid_word(predicate, word@, depth as nat),
    decreases depth,
{
    match WordCasing::try_from(word) {
        Ok(WordCasing::AllLowercase) => ask(predicate, word),
        Ok(WordCasing::AllUppercase) | Ok(WordCasing::Mixed) => {
            if depth == 0 {
                return false;
            }
            let tc = titlecase(word);
            is_valid_within(tc.as_str(), predicate, depth - 1)
        },
        Ok(WordCasing::Titlecase) => {
            if ask(predicate, word) {
                return true;
            }
            if depth > 0 {
                let lc = to_lowercase(word);
                if is_valid_within(lc.as_str(), predicate, depth - 1) {
                    return true;
                }
            }
            is_valid_compound_word(word, predicate)
        },
        Err(_) => false,
    }
}

/// Checks whether `word` is a valid German word under `predicate` (see
/// [`valid_word`]).
pub fn is_valid<F: Fn(&str) -> bool>(word: &str, predicate: &F) -> (r: bool)
    requires
        decides(predicate),
    ensures
        r == valid_word(predicate, word@, CASING_DEPTH as nat),
{
    is_valid_within(word, predicate, CASING_DEPTH)
}

/// The first of the candidate replacement sets `combos` that, made in `w`, gives a valid
/// word, as that word.
pub open spec fn first_valid(w: Seq<char>, combos: Seq<Seq<Replacement>>) -> Option<Seq<char>>
    decreases combos.len(),
{
    if combos.len() == 0 {
        None
    } else {
        let candidate = replaced(w, combos[0]);
        if valid_word(&contained_in_global_word_list, candidate, CASING_DEPTH as nat) {
            Some(candidate)
        } else {
            first_valid(w, combos.drop_first())
        }
    }
}

/// The valid replacement for word `w` with possible replacements `reps`: the first
/// non-empty set of replacements, by the power set's order, that gives a valid word.
/// Words with as many possible replacements as a `usize` has bits are left alone.
pub open spec fn word_replacement(w: Seq<char>, reps: Seq<Replacement>) -> Option<Seq<char>> {
    if reps.len() >= usize::BITS {
        None
    } else {
        first_valid(w, power_set_of(reps, false))
    }
}

/// Finds the valid replacement for `word` (see [`word_replacement`]).
pub fn find_valid_replacement(word: &str, replacements: &[Replacement]) -> (r: Option<String>)
    requires
        in_order(word@, replacements@),
    ensures
        match r {
            Some(s) => word_replacement(word@, replacements@) == Some(s@),
            None => word_replacement(word@, replacements@) is None,
        },
{
    let n = replacements.len();
    if n >= usize::BITS as usize {
        return None;
    }
    let combos = power_set(copied(replacements), false);
    let ghost all = power_set_of(replacements@, false);
    let m = combos.len();
    let mut k: usize = 0;
    proof {
        assert(all.skip(0) =~= all);
        lemma_power_set_fits(word@, replacements@, false);
    }
    while k < m
        invariant
            k <= m,
            m == combos@.len(),
            m == all.len(),
            all == power_set_of(replacements@, false),
            forall|i: int| 0 <= i < combos@.len() ==> #[trigger] combos@[i]@ == all[i],
            forall|i: int| 0 <= i < all.len() ==> all_fit(word@, #[trigger] all[i]),
            n < usize::BITS,
            first_valid(word@, all.skip(k as int)) == word_replacement(word@, replacements@),
        decreases m - k,
    {
        let mut candidate = String::new();
        push_str(&mut candidate, word);
        let combo = copied(combos[k].as_slice());
        proof {
            assert(candidate@ =~= word@);
            assert(all.skip(k as int)[0] == all[k as int]);
            assert(all.skip(k as int).drop_first() =~= all.skip(k + 1));
        }
        apply_replacements(&mut candidate, combo);
        if is_valid(candidate.as_str(), &contained_in_global_word_list) {
            return Some(candidate);
        }
        k = k + 1;
    }
    proof {
        assert(all.skip(m as int) =~= Seq::<Seq<Replacement>>::empty());
        assert(first_valid(word@, all.skip(m as int)) is None);
    }
    None
}

/// What a word becomes: its valid replacement, or the word itself.
pub open spec fn process_pick(w: Seq<char>, reps: Seq<Replacement>) -> Seq<char> {
    match word_replacement(w, reps) {
        Some(x) => x,
        None => w,
    }
}

/// A word without possible replacements is kept as it is.
proof fn lemma_process_pick_plain(w: Seq<char>)
    ensures
        process_pick(w, Seq::<Replacement>::empty()) == w,
{
    assert(power_set_of(Seq::<Replacement>::empty(), false) =~= Seq::<Seq<Replacement>>::empty());
}

/// The processor leaves text in which no two neighbouring characters spell a special
/// character (`ae`, `oe`, `ue`, `ss`, in any casing) unchanged.
pub proof fn lemma_processor_untouched(input: Seq<char>)
    requires
        free_of_spellings(input),
    ensures
        German.processed(input) == Some(input),
{
    let pick = |w: Seq<char>, reps: Seq<Replacement>| process_pick(w, reps);
    assert forall|w: Seq<char>| #[trigger] pick(w, Seq::<Replacement>::empty()) == w by {
        lemma_process_pick_plain(w);
    }
    lemma_driven_untouched(pick, false, input);
}

/// German: replaces `ue`, `oe`, `ae` with `ü`, `ö`, `ä` and `ss` with `ß` (any casing),
/// where the word list confirms that the result is a valid word.
#[derive(Debug, Clone, Copy)]
pub struct German;

impl TextProcessor for German {
    open spec fn processed(&self, input: Seq<char>) -> Option<Seq<char>> {
        Some(driven(|w: Seq<char>, reps: Seq<Replacement>| process_pick(w, reps), false, input))
    }

    fn process(&self, input: &mut String) -> (r: ProcessResult)
        ensures
            r is Ok,
            final(input)@ == driven(|w: Seq<char>, reps: Seq<Replacement>| process_pick(w, reps), false, old(input)@),
    {
        let pick = |w: &str, reps: &Vec<Replacement>| -> (s: String)
            requires
                in_order(w@, reps@),
            ensures
                s@ == process_pick(w@, reps@),
            {
                match find_valid_replacement(w, reps.as_slice()) {
                    Some(s) => s,
                    None => {
                        let mut s = String::new();
                        push_str(&mut s, w);
                        s
                    },
                }
            };
        let output = drive(input.as_str(), false, &pick, Ghost(|w: Seq<char>, reps: Seq<Replacement>| process_pick(w, reps)));
        *input = output;
        Ok(())
    }
}

} // verus!
