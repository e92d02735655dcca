//! Substituting German umlauts and eszett in whole texts.
use vstd::prelude::*;
use vstd::string::StringSliceAdditionalSpecFns;

use super::words::{all_fit, apply_replacements, in_order, lemma_power_set_fits, lemma_replaced_lines, casing_of, replaced, Replacement, WordCasing};
use crate::betterletters::modules::german::machine::{drive, driven, free_of_spellings, lemma_driven_keeps_lines, lemma_driven_untouched};
use crate::betterletters::stages::{ends_line, is_line, nl_free, Stage, StageResult};
use crate::betterletters::util::iteration::{binary_search_uneven, search_outcome};
use crate::common::{accepts, ask, compound_within, decides, is_compound_word, split_depth};
use crate::iteration::{copied, power_set, power_set_of};
use crate::strs::{is_uppercase, lowercased, titlecase_lower_rest, to_chars, to_lowercase, to_titlecase_lower_rest, uppercase_char};

verus! {

/// The German words that are known to be valid, one per line, in strictly increasing
/// byte order.
pub const VALID_GERMAN_WORDS: &'static str = "Abenteuer\nAerodynamik\nApfel\nAuge\nBad\nBestandteil\nBusse\nBuße\nBäder\nDominoeffekt\nDübel\nEis\nGott\nGruß\nHaus\nIsrael\nKindergarten\nKoeffizient\nKäfer\nKübel\nMasse\nMauer\nMaß\nMaße\nMessgerät\nPoet\nSatz\nSchufaeintrag\nSteuerung\nSüßwasser\nTag\nTraum\nTräumer\nWasser\nab\naber\nbitte\ndanke\ndröge\nes\nfüllen\ngrün\ngrüß\ngut\nich\nist\nkongruent\nmag\nnicht\nschließen\nschwimm\nschöner\nsind\nsüß\nsüßes\ntoll\nviel\nvielleicht\nvon\nwarum\nwas\nwer\nwichtig\nwichtiger\nwir\nÄpfel\nÄrger\nÖl\nÜberflieger\nübel";

/// How many times at most the casing of a candidate is changed while checking it (it
/// does not bound splitting compound words). The casing maps are outside functions, so
/// nothing here shows that a chain of casing changes ends; a word whose casing maps
/// behave as documented takes at most three (uppercase, titlecase, lowercase), and this
/// leaves room beyond that.
pub const CASING_DEPTH: usize = 8;

/// Whether the word with characters `w` is found in the word list by bisection.
pub open spec fn listed(w: Seq<char>) -> bool {
    search_outcome(vstd::utf8::encode_utf8(w), VALID_GERMAN_WORDS.spec_bytes(), '\n')
}

/// Looks `word` up in the global word list.
pub fn contained_in_global_word_list(word: &str) -> (r: bool)
    ensures
        r == listed(word@),
{
    binary_search_uneven(word, VALID_GERMAN_WORDS, '\n')
}

/// Whether `w` is a valid word under predicate `f`, changing its casing at most `depth`
/// more times: lowercase words must be accepted as they are; uppercase words are
/// titlecased first; mixed-case words are titlecased if they start uppercase and
/// lowercased otherwise; titlecase words are accepted as they are, lowercased, or as
/// compound words. Words with characters of no casing are invalid.
pub open spec fn valid_word<F: Fn(&str) -> bool>(f: &F, w: Seq<char>, depth: nat) -> bool
    decreases depth,
{
    match casing_of(w) {
        Ok(WordCasing::AllLowercase) => accepts(f, w),
        Ok(WordCasing::AllUppercase) => depth > 0 && valid_word(f, titlecase_lower_rest(w), (depth - 1) as nat),
        Ok(WordCasing::Mixed) => depth > 0 && if uppercase_char(w[0]) {
            valid_word(f, titlecase_lower_rest(w), (depth - 1) as nat)
        } else {
            valid_word(f, lowercased(w), (depth - 1) as nat)
        },
        Ok(WordCasing::Titlecase) => accepts(f, w) || (depth > 0 && valid_word(f, lowercased(w), (depth - 1) as nat))
            || compound_within(f, w, split_depth(w)),
        Err(_) => false,
    }
}

fn is_valid_within<F: Fn(&str) -> bool>(word: &str, predicate: &F, depth: usize) -> (r: bool)
    requires
        decides(predicate),
    ensures
        r == valid_word(predicate, word@, depth as nat),
    decreases depth,
{
    match WordCasing::try_from(word) {
        Ok(WordCasing::AllLowercase) => ask(predicate, word),
        Ok(WordCasing::AllUppercase) => {
            if depth == 0 {
                return false;
            }
            let tc = to_titlecase_lower_rest(word);
            is_valid_within(tc.as_str(), predicate, depth - 1)
        },
        Ok(WordCasing::Mixed) => {
            if depth == 0 {
                return false;
            }
            let cs = to_chars(word);
            if is_uppercase(cs[0]) {
                let tc = to_titlecase_lower_rest(word);
                is_valid_within(tc.as_str(), predicate, depth - 1)
            } else {
                let lc = to_lowercase(word);
                is_valid_within(lc.as_str(), predicate, depth - 1)
            }
        },
        Ok(WordCasing::Titlecase) => {
            if ask(predicate, word) {
                return true;
            }
            if depth > 0 {
                let lc = to_lowercase(word);
                if is_valid_within(lc.as_str(), predicate, depth - 1) {
                    return true;
                }
            }
            is_compound_word(word, predicate)
        },
        Err(_) => false,
    }
}

/// Checks whether `word` is a valid German word under `predicate` (see
/// [`valid_word`]).
pub fn is_valid<F: Fn(&str) -> bool>(word: &str, predicate: &F) -> (r: bool)
    requires
        decides(predicate),
    ensures
        r == valid_word(predicate, word@, CASING_DEPTH as nat),
{
    is_valid_within(word, predicate, CASING_DEPTH)
}

/// The first of the candidate replacement sets `combos` that, made in `w`, gives a valid
/// word, as that word.
pub open spec fn first_valid(w: Seq<char>, combos: Seq<Seq<Replacement>>) -> Option<Seq<char>>
    decreases combos.len(),
{
    if combos.len() == 0 {
        None
    } else {
        let candidate = replaced(w, combos[0]);
        if valid_word(&contained_in_global_word_list, candidate, CASING_DEPTH as nat) {
            Some(candidate)
        } else {
            first_valid(w, combos.drop_first())
        }
    }
}

/// The valid replacement for word `w` with possible replacements `reps`: the first set
/// of replacements, by the power set's order and leaving out the empty set, that gives
/// a valid word. Words with as many possible replacements as a `usize` has bits are left
/// alone.
pub open spec fn stage_replacement(w: Seq<char>, reps: Seq<Replacement>) -> Option<Seq<char>> {
    if reps.len() >= usize::BITS {
        None
    } else {
        first_valid(w, power_set_of(reps, true).drop_first())
    }
}

/// Finds the valid replacement for `word` (see [`stage_replacement`]).
pub fn find_valid_replacement(word: &str, replacements: &[Replacement]) -> (r: Option<String>)
    requires
        in_order(word@, replacements@),
    ensures
        match r {
            Some(s) => stage_replacement(word@, replacements@) == Some(s@),
            None => stage_replacement(word@, replacements@) is None,
        },
{
    let n = replacements.len();
    if n >= usize::BITS as usize {
        return None;
    }
    let reps = copied(replacements);
    let combos = power_set(reps, true);
    let ghost all = power_set_of(replacements@, true);
    let m = combos.len();
    let mut k: usize = 1;
    proof {
        assert(all.len() >= 1) by {
            assert(all == crate::iteration::subsets_from(replacements@, 0));
            assert(crate::iteration::combinations(replacements@, 0).len() == 1);
        }
        assert(all.skip(1) =~= all.drop_first());
        lemma_power_set_fits(word@, replacements@, true);
    }
    while k < m
        invariant
            1 <= k <= m,
            m == combos@.len(),
            m == all.len(),
            all == power_set_of(replacements@, true),
            forall|i: int| 0 <= i < combos@.len() ==> #[trigger] combos@[i]@ == all[i],
            forall|i: int| 0 <= i < all.len() ==> all_fit(word@, #[trigger] all[i]),
            n < usize::BITS,
            first_valid(word@, all.skip(k as int)) == stage_replacement(word@, replacements@),
        decreases m - k,
    {
        let mut candidate = String::new();
        crate::strs::push_str(&mut candidate, word);
        let combo = copied(combos[k].as_slice());
        proof {
            assert(candidate@ =~= word@);
            assert(combo@ == all[k as int]);
            assert(all.skip(k as int)[0] == all[k as int]);
            assert(all.skip(k as int).drop_first() =~= all.skip(k + 1));
        }
        apply_replacements(&mut candidate, combo);
        if is_valid(candidate.as_str(), &contained_in_global_word_list) {
            return Some(candidate);
        }
        k = k + 1;
    }
    proof {
        assert(all.skip(m as int) =~= Seq::<Seq<Replacement>>::empty());
        assert(first_valid(word@, all.skip(m as int)) is None);
        assert(stage_replacement(word@, replacements@) is None);
    }
    None
}

/// What a word becomes in the German stage: its valid replacement, or the word itself.
pub open spec fn stage_pick(w: Seq<char>, reps: Seq<Replacement>) -> Seq<char> {
    match stage_replacement(w, reps) {
        Some(x) => x,
        None => w,
    }
}

/// A word without possible replacements is kept as it is.
proof fn lemma_stage_pick_plain(w: Seq<char>)
    ensures
        stage_pick(w, Seq::<Replacement>::empty()) == w,
{
    assert(power_set_of(Seq::<Replacement>::empty(), true) =~= seq![Seq::<Replacement>::empty()]) by {
        crate::iteration::lemma_power_set_empty_first(Seq::<Replacement>::empty());
        assert(crate::iteration::subsets_from(Seq::<Replacement>::empty(), 1) =~= Seq::<Seq<Replacement>>::empty());
    }
    assert(power_set_of(Seq::<Replacement>::empty(), true).drop_first() =~= Seq::<Seq<Replacement>>::empty());
}

/// The stage leaves text in which no two neighbouring characters spell a special
/// character (`ae`, `oe`, `ue`, `ss`, in any casing) unchanged.
pub proof fn lemma_stage_untouched(input: Seq<char>)
    requires
        free_of_spellings(input),
    ensures
        GermanStage.substitution(input) == Some(input),
{
    let pick = |w: Seq<char>, reps: Seq<Replacement>| stage_pick(w, reps);
    assert forall|w: Seq<char>| #[trigger] pick(w, Seq::<Replacement>::empty()) == w by {
        lemma_stage_pick_plain(w);
    }
    lemma_driven_untouched(pick, true, input);
}

/// A valid replacement brings no newline into a word and leaves something of it.
proof fn lemma_first_valid_lines(w: Seq<char>, combos: Seq<Seq<Replacement>>)
    ensures
        first_valid(w, combos) matches Some(x) ==> (nl_free(w) ==> nl_free(x)) && (w.len() > 0 ==> x.len() > 0),
    decreases combos.len(),
{
    if combos.len() > 0 {
        lemma_replaced_lines(w, combos[0]);
        lemma_first_valid_lines(w, combos.drop_first());
    }
}

/// The stage turns a line into a line, ending in a newline exactly when it did, as
/// piping text through it line by line needs (see [`lemma_piping`]).
pub proof fn lemma_stage_keeps_lines(x: Seq<char>)
    requires
        is_line(x),
    ensures
        is_line(GermanStage.substitution(x)->0),
        ends_line(GermanStage.substitution(x)->0) == ends_line(x),
{
    let pick = |w: Seq<char>, reps: Seq<Replacement>| stage_pick(w, reps);
    assert forall|w: Seq<char>, reps: Seq<Replacement>| nl_free(w) implies nl_free(#[trigger] pick(w, reps)) && (w.len() > 0
        ==> pick(w, reps).len() > 0) by {
        lemma_first_valid_lines(w, power_set_of(reps, true).drop_first());
    }
    lemma_driven_keeps_lines(pick, true, x);
}

/// German language stage, responsible for umlauts and eszett: replaces `ue`, `oe`, `ae`
/// with `ü`, `ö`, `ä` and `ss` with `ß` (any casing), where the word list confirms that
/// the result is a valid word.
#[derive(Debug, Clone, Copy)]
pub struct GermanStage;

impl Stage for GermanStage {
    open spec fn substitution(&self, input: Seq<char>) -> Option<Seq<char>> {
        Some(driven(|w: Seq<char>, reps: Seq<Replacement>| stage_pick(w, reps), true, input))
    }

    fn substitute(&self, input: &str) -> (r: StageResult) {
        let pick = |w: &str, reps: &Vec<Replacement>| -> (s: String)
            requires
                in_order(w@, reps@),
            ensures
                s@ == stage_pick(w@, reps@),
            {
                match find_valid_replacement(w, reps.as_slice()) {
                    Some(s) => s,
                    None => {
                        let mut s = String::new();
                        crate::strs::push_str(&mut s, w);
                        s
                    },
                }
            };
        Ok(drive(input, true, &pick, Ghost(|w: Seq<char>, reps: Seq<Replacement>| stage_pick(w, reps))))
    }
}

} // verus!
