//! Decomposing compound words.
use vstd::prelude::*;

use super::{accepts, ask, decides, longest_accepted_prefix, longest_prefix_len};
use crate::common::{split_depth, split_depth_of};
use crate::strs::{from_chars, titlecase_lower_rest, to_chars, to_titlecase_lower_rest};

verus! {

/// The characters of each string of `v`.
pub open spec fn texts(v: Seq<String>) -> Seq<Seq<char>> {
    v.map_values(|s: String| s@)
}

/// The suffixes to try after a prefix: the suffix as it is, then titlecased (lower
/// rest), the latter left out where it is the same.
pub open spec fn suffix_candidates(suffix: Seq<char>) -> Seq<Seq<char>> {
    let t = titlecase_lower_rest(suffix);
    if t == suffix {
        seq![suffix]
    } else {
        seq![suffix, t]
    }
}

/// Decomposing `w` under the predicate `f`, descending at most `depth` more suffixes:
/// whether it succeeds, and the constituents that it records on the way. The longest
/// accepted proper prefix is recorded first; then each suffix candidate is tried in
/// turn (see [`candidates_tried`]).
pub open spec fn decomposition<F: Fn(&str) -> bool>(f: &F, w: Seq<char>, depth: nat) -> (bool, Seq<Seq<char>>)
    decreases depth, 1nat, 0nat,
{
    let i = longest_accepted_prefix(f, w, w.len() - 1);
    if i <= 0 {
        (false, seq![])
    } else {
        candidates_tried(f, suffix_candidates(w.skip(i)), depth, seq![w.take(i)])
    }
}

/// Trying the suffix candidates `cands` in order, with `recorded` the constituents
/// recorded so far: a candidate that `f` accepts is recorded and ends the search with
/// success; otherwise, depth permitting, it is decomposed itself, and whatever that
/// records stays recorded, whether it succeeds or not.
pub open spec fn candidates_tried<F: Fn(&str) -> bool>(
    f: &F,
    cands: Seq<Seq<char>>,
    depth: nat,
    recorded: Seq<Seq<char>>,
) -> (bool, Seq<Seq<char>>)
    decreases depth, 0nat, cands.len(),
{
    if cands.len() == 0 {
        (false, recorded)
    } else if accepts(f, cands[0]) {
        (true, recorded.push(cands[0]))
    } else if depth == 0 {
        candidates_tried(f, cands.drop_first(), depth, recorded)
    } else {
        let inner = decomposition(f, cands[0], (depth - 1) as nat);
        if inner.0 {
            (true, recorded + inner.1)
        } else {
            candidates_tried(f, cands.drop_first(), depth, recorded + inner.1)
        }
    }
}

proof fn lemma_texts_push(v: Seq<String>, s: String)
    ensures
        texts(v.push(s)) == texts(v).push(s@),
{
    assert(texts(v.push(s)) =~= texts(v).push(s@));
}

/// Decomposes `word`, appending what it records to `constituents`.
fn decompose_within<F: Fn(&str) -> bool>(
    word: &str,
    f: &F,
    depth: usize,
    constituents: &mut Vec<String>,
) -> (r: bool)
    requires
        decides(f),
    ensures
        r == decomposition(f, word@, depth as nat).0,
        texts(final(constituents)@) == texts(old(constituents)@) + decomposition(f, word@, depth as nat).1,
    decreases depth,
{
    let ghost start = texts(constituents@);
    let cs = to_chars(word);
    let i = longest_prefix_len(f, &cs);
    if i == 0 {
        proof {
            assert(texts(constituents@) =~= start + Seq::<Seq<char>>::empty());
        }
        return false;
    }
    proof {
        super::lemma_longest_prefix_bounds(f, word@, word@.len() - 1);
    }
    let prefix = from_chars(vstd::slice::slice_subrange(cs.as_slice(), 0, i));
    let suffix = from_chars(vstd::slice::slice_subrange(cs.as_slice(), i, cs.len()));
    proof {
        assert(prefix@ =~= word@.take(i as int));
        assert(suffix@ =~= word@.skip(i as int));
        lemma_texts_push(constituents@, prefix);
    }
    constituents.push(prefix);
    let titled = to_titlecase_lower_rest(suffix.as_str());
    let mut cands: Vec<String> = Vec::new();
    let same = titled == suffix;
    cands.push(suffix);
    if !same {
        cands.push(titled);
    }
    let ghost all = texts(cands@);
    proof {
        assert(all =~= suffix_candidates(word@.skip(i as int)));
        assert(all.skip(0) =~= all);
        assert(texts(constituents@) =~= start + seq![word@.take(i as int)]);
    }
    let ghost goal = candidates_tried(f, all, depth as nat, seq![word@.take(i as int)]);
    assert(goal == decomposition(f, word@, depth as nat));
    let n = cands.len();
    let mut k: usize = 0;
    let ghost mut recorded: Seq<Seq<char>> = seq![word@.take(i as int)];
    while k < n
        invariant
            decides(f),
            n == cands@.len(),
            all == texts(cands@),
            k <= n,
            texts(constituents@) == start + recorded,
            candidates_tried(f, all.skip(k as int), depth as nat, recorded) == goal,
            goal == decomposition(f, word@, depth as nat),
            start == texts(old(constituents)@),
        decreases n - k,
    {
        let c = &cands[k];
        proof {
            assert(all.skip(k as int)[0] == c@);
            assert(all.skip(k as int).drop_first() =~= all.skip(k + 1));
        }
        if ask(f, c.as_str()) {
            let pushed = c.clone();
            proof {
                lemma_texts_push(constituents@, pushed);
                assert(texts(constituents@.push(pushed)) =~= start + recorded.push(c@));
            }
            constituents.push(pushed);
            return true;
        }
        if depth > 0 {
            let found = decompose_within(c.as_str(), f, depth - 1, constituents);
            proof {
                assert(texts(constituents@) =~= start + (recorded + decomposition(f, c@, (depth - 1) as nat).1));
                recorded = recorded + decomposition(f, c@, (depth - 1) as nat).1;
            }
            if found {
                return true;
            }
        }
        k = k + 1;
    }
    proof {
        assert(all.skip(n as int) =~= Seq::<Seq<char>>::empty());
    }
    false
}

/// Decomposes `word` into the words it is compounded of, if it is a compound word under
/// `is_valid_single_word`: its longest accepted proper prefix comes first, then the
/// suffix (as it is, or titlecased with the rest lowercased) if it is accepted, or else
/// its own decomposition. `None` where `word` is no compound word.
///
/// The descent into suffixes goes at most [`split_depth`] levels deep.
///
/// A prefix found on a way that then fails (the suffix as it is not decomposing, so that
/// its titlecased form is tried next) stays in the result, before the constituents of
/// the way that succeeds.
pub fn decompose_compound_word<F: Fn(&str) -> bool>(word: &str, is_valid_single_word: &F) -> (r: Option<Vec<String>>)
    requires
        decides(is_valid_single_word),
    ensures
        match r {
            Some(v) => decomposition(is_valid_single_word, word@, split_depth(word@)) == (true, texts(v@)),
            None => !decomposition(is_valid_single_word, word@, split_depth(word@)).0,
        },
{
    let n = split_depth_of(word);
    let mut constituents: Vec<String> = Vec::new();
    proof {
        assert(texts(constituents@) =~= Seq::<Seq<char>>::empty());
    }
    if decompose_within(word, is_valid_single_word, n, &mut constituents) {
        proof {
            assert(texts(constituents@) =~= decomposition(is_valid_single_word, word@, split_depth(word@)).1);
        }
        Some(constituents)
    } else {
        None
    }
}

} // verus!
