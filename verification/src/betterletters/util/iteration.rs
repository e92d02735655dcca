//! Searching sorted word lists and forming combinations.
use vstd::prelude::*;
use vstd::string::StringSliceAdditionalSpecFns;
use vstd::utf8::valid_utf8;

use crate::iteration::{lists_power_set, power_set};

verus! {

broadcast use vstd::string::group_string_axioms;

/// The power set of `collection`, the empty set included (see [`power_set`]).
pub fn _power_set<T: Copy>(collection: Vec<T>) -> (r: Vec<Vec<T>>)
    requires
        collection@.len() < usize::BITS,
    ensures
        lists_power_set(r@, collection@, true),
{
    power_set_impl(collection, true)
}

/// The power set of `collection` without the empty set (see [`power_set`]).
pub fn power_set_without_empty<T: Copy>(collection: Vec<T>) -> (r: Vec<Vec<T>>)
    requires
        collection@.len() < usize::BITS,
    ensures
        lists_power_set(r@, collection@, false),
{
    power_set_impl(collection, false)
}

fn power_set_impl<T: Copy>(collection: Vec<T>, include_empty_set: bool) -> (r: Vec<Vec<T>>)
    requires
        collection@.len() < usize::BITS,
    ensures
        lists_power_set(r@, collection@, include_empty_set),
{
    power_set(collection, include_empty_set)
}

/// Whether the byte at position `i` of `h` is the separator `sep`, comparing the byte,
/// read as a character, with `sep`.
pub open spec fn is_sep(h: Seq<u8>, i: int, sep: char) -> bool {
    (h[i] as u32) == (sep as u32)
}

/// Whether `a..b` is a word of `h`: a maximal stretch without separators.
pub open spec fn is_word_span(h: Seq<u8>, sep: char, a: int, b: int) -> bool {
    &&& 0 <= a <= b <= h.len()
    &&& a == 0 || is_sep(h, a - 1, sep)
    &&& b == h.len() || is_sep(h, b, sep)
    &&& forall|i: int| a <= i < b ==> !is_sep(h, i, sep)
}

/// Whether `x` comes strictly before `y` in lexicographic byte order.
pub open spec fn lex_lt(x: Seq<u8>, y: Seq<u8>) -> bool
    decreases x.len(),
{
    if x.len() == 0 {
        y.len() > 0
    } else if y.len() == 0 {
        false
    } else if x[0] != y[0] {
        x[0] < y[0]
    } else {
        lex_lt(x.drop_first(), y.drop_first())
    }
}

/// Whether `w` is one of the words of `h`.
pub open spec fn contains_word(h: Seq<u8>, sep: char, w: Seq<u8>) -> bool {
    exists|a: int, b: int| #[trigger] is_word_span(h, sep, a, b) && h.subrange(a, b) == w
}

/// Whether the words of `h` are in strictly increasing lexicographic byte order.
pub open spec fn words_sorted(h: Seq<u8>, sep: char) -> bool {
    forall|a1: int, b1: int, a2: int, b2: int|
        #[trigger] is_word_span(h, sep, a1, b1) && #[trigger] is_word_span(h, sep, a2, b2) && b1 < a2
            ==> lex_lt(h.subrange(a1, b1), h.subrange(a2, b2))
}

/// The start of the word around position `mid`: just after the last separator before
/// `mid`, or 0.
pub open spec fn word_start(h: Seq<u8>, sep: char, mid: int) -> int
    decreases mid,
{
    if mid <= 0 {
        0
    } else if is_sep(h, mid - 1, sep) {
        mid
    } else {
        word_start(h, sep, mid - 1)
    }
}

/// The end of the word around position `mid`: the first separator at or after `mid`, or
/// the length of `h`.
pub open spec fn word_end(h: Seq<u8>, sep: char, mid: int) -> int
    decreases h.len() - mid,
{
    if mid >= h.len() {
        h.len() as int
    } else if is_sep(h, mid, sep) {
        mid
    } else {
        word_end(h, sep, mid + 1)
    }
}

/// The outcome of bisecting the byte positions `low..high` of `h` for the word `w`.
pub open spec fn bisect(w: Seq<u8>, h: Seq<u8>, sep: char, low: int, high: int) -> bool
    decreases high + 1 - low,
{
    if 0 <= low < high {
        let mid = low + (high - low) / 2;
        let found = h.subrange(word_start(h, sep, mid), word_end(h, sep, mid));
        if found == w {
            true
        } else if lex_lt(w, found) {
            bisect(w, h, sep, low, if mid > 0 { mid - 1 } else { 0 })
        } else {
            bisect(w, h, sep, mid + 1, high)
        }
    } else {
        false
    }
}

/// The outcome of searching the words of `h` for `w` by bisection: the empty word is
/// found, nothing is found in an empty haystack or one shorter than `w`, and otherwise
/// the whole haystack is bisected.
pub open spec fn search_outcome(w: Seq<u8>, h: Seq<u8>, sep: char) -> bool {
    if w.len() == 0 {
        true
    } else if h.len() == 0 || w.len() > h.len() {
        false
    } else {
        bisect(w, h, sep, 0, h.len() as int)
    }
}

/// Whether each word that bisecting the byte positions `low..high` of `h` for `w` looks
/// at is valid UTF-8 (see [`bisect`]).
pub open spec fn bisect_reads_text(w: Seq<u8>, h: Seq<u8>, sep: char, low: int, high: int) -> bool
    decreases high + 1 - low,
{
    if 0 <= low < high {
        let mid = low + (high - low) / 2;
        let found = h.subrange(word_start(h, sep, mid), word_end(h, sep, mid));
        &&& valid_utf8(found)
        &&& found == w || if lex_lt(w, found) {
            bisect_reads_text(w, h, sep, low, if mid > 0 { mid - 1 } else { 0 })
        } else {
            bisect_reads_text(w, h, sep, mid + 1, high)
        }
    } else {
        true
    }
}

/// Whether each word that searching the words of `h` for `w` looks at is valid UTF-8
/// (see [`search_outcome`]).
pub open spec fn search_reads_text(w: Seq<u8>, h: Seq<u8>, sep: char) -> bool {
    w.len() == 0 || h.len() == 0 || w.len() > h.len() || bisect_reads_text(w, h, sep, 0, h.len() as int)
}

proof fn lemma_word_start(h: Seq<u8>, sep: char, start: int, mid: int)
    requires
        0 <= start <= mid <= h.len(),
        start == 0 || is_sep(h, start - 1, sep),
        forall|i: int| start <= i < mid ==> !is_sep(h, i, sep),
    ensures
        word_start(h, sep, mid) == start,
    decreases mid,
{
    if mid > start {
        lemma_word_start(h, sep, start, mid - 1);
    }
}

proof fn lemma_word_end(h: Seq<u8>, sep: char, mid: int, end: int)
    requires
        0 <= mid <= end <= h.len(),
        end == h.len() || is_sep(h, end, sep),
        forall|i: int| mid <= i < end ==> !is_sep(h, i, sep),
    ensures
        word_end(h, sep, mid) == end,
    decreases h.len() - mid,
{
    if mid < end {
        lemma_word_end(h, sep, mid + 1, end);
    }
}

/// Two words of `h` are the same stretch, or one ends before the other begins.
proof fn lemma_word_spans_disjoint(h: Seq<u8>, sep: char, a1: int, b1: int, a2: int, b2: int)
    requires
        is_word_span(h, sep, a1, b1),
        is_word_span(h, sep, a2, b2),
    ensures
        (a1 == a2 && b1 == b2) || b1 < a2 || b2 < a1,
{
    if a1 < a2 {
        assert(is_sep(h, a2 - 1, sep));
        if b1 >= a2 {
            assert(!is_sep(h, a2 - 1, sep));
        }
    } else if a2 < a1 {
        assert(is_sep(h, a1 - 1, sep));
        if b2 >= a1 {
            assert(!is_sep(h, a1 - 1, sep));
        }
    } else {
        if b1 < b2 {
            assert(is_sep(h, b1, sep));
            assert(!is_sep(h, b1, sep));
        } else if b2 < b1 {
            assert(is_sep(h, b2, sep));
            assert(!is_sep(h, b2, sep));
        }
    }
}

/// Lexicographic order is a strict order: no two sequences are each before the other.
proof fn lemma_lex_asymmetric(x: Seq<u8>, y: Seq<u8>)
    ensures
        !(lex_lt(x, y) && lex_lt(y, x)),
        !lex_lt(x, x),
    decreases x.len(),
{
    if x.len() > 0 && y.len() > 0 && x[0] == y[0] {
        lemma_lex_asymmetric(x.drop_first(), y.drop_first());
    }
    if x.len() > 0 {
        lemma_lex_asymmetric(x.drop_first(), x.drop_first());
    }
}

/// Compares `x` and `y` in lexicographic byte order: `-1` if `x` comes first, `0` if
/// they are equal, `1` if `y` comes first.
fn compare_bytes(x: &[u8], y: &[u8]) -> (r: i8)
    ensures
        r == -1 <==> lex_lt(x@, y@),
        r == 0 <==> x@ == y@,
        r == 1 <==> lex_lt(y@, x@),
        r == -1 || r == 0 || r == 1,
{
    let n = x.len();
    let m = y.len();
    let mut i: usize = 0;
    while i < n && i < m && x[i] == y[i]
        invariant
            i <= n,
            i <= m,
            n == x@.len(),
            m == y@.len(),
            forall|k: int| 0 <= k < i ==> x@[k] == y@[k],
        decreases n - i,
    {
        i = i + 1;
    }
    proof {
        lemma_lex_common_prefix(x@, y@, i as int);
        lemma_lex_asymmetric(x@, y@);
        if i == n && i == m {
            assert(x@ =~= y@);
        }
    }
    if i < n && i < m {
        if x[i] < y[i] {
            -1
        } else {
            1
        }
    } else if i < n {
        1
    } else if i < m {
        -1
    } else {
        0
    }
}

/// After a common prefix of length `i`, the order is decided by what follows it.
proof fn lemma_lex_common_prefix(x: Seq<u8>, y: Seq<u8>, i: int)
    requires
        0 <= i <= x.len(),
        i <= y.len(),
        forall|k: int| 0 <= k < i ==> x[k] == y[k],
    ensures
        lex_lt(x, y) == lex_lt(x.skip(i), y.skip(i)),
        lex_lt(y, x) == lex_lt(y.skip(i), x.skip(i)),
    decreases i,
{
    if i > 0 {
        assert forall|k: int| 0 <= k < i - 1 implies x.drop_first()[k] == y.drop_first()[k] by {
            assert(x[k + 1] == y[k + 1]);
        }
        lemma_lex_common_prefix(x.drop_first(), y.drop_first(), i - 1);
        assert(x.drop_first().skip(i - 1) =~= x.skip(i));
        assert(y.drop_first().skip(i - 1) =~= y.skip(i));
    } else {
        assert(x.skip(0) =~= x);
        assert(y.skip(0) =~= y);
    }
}

/// Whether byte `b`, read as a character, is `sep`.
fn byte_is_sep(b: u8, sep: char) -> (r: bool)
    ensures
        r == ((b as u32) == (sep as u32)),
{
    (b as u32) == (sep as u32)
}

/// Searches the words of `haystack`, separated by `sep`, for `needle` by bisection over
/// byte positions: the word around the middle position is compared with `needle`, and
/// the search goes on in the half that must hold it.
///
/// The empty needle is always found. A word is only ever reported found if it is one of
/// the haystack's words, and if the haystack's words are sorted in strictly increasing
/// byte order, each of them is found. Each word looked at must be text (valid UTF-8),
/// as it is whenever `sep` is ASCII or beyond U+00FF, whose byte value cannot split a
/// character.
pub fn binary_search_uneven(needle: &str, haystack: &str, sep: char) -> (r: bool)
    requires
        !(0x80 <= (sep as u32) <= 0xff) || search_reads_text(needle.spec_bytes(), haystack.spec_bytes(), sep),
    ensures
        r == search_outcome(needle.spec_bytes(), haystack.spec_bytes(), sep),
        needle@.len() == 0 ==> r,
        r ==> needle@.len() == 0 || contains_word(haystack.spec_bytes(), sep, needle.spec_bytes()),
        words_sorted(haystack.spec_bytes(), sep) && contains_word(haystack.spec_bytes(), sep, needle.spec_bytes()) ==> r,
{
    let nb = needle.as_bytes();
    let hb = haystack.as_bytes();
    let ghost h = hb@;
    let ghost w = nb@;
    if needle.is_empty() {
        return true;
    }
    proof {
        if w.len() == 0 {
            vstd::utf8::encode_utf8_decode_utf8(needle@);
        }
    }
    if haystack.is_empty() || nb.len() > hb.len() {
        proof {
            if contains_word(h, sep, w) {
                let (a, b) = choose|a: int, b: int| is_word_span(h, sep, a, b) && h.subrange(a, b) == w;
                assert(h.subrange(a, b).len() == w.len());
                if haystack@.len() == 0 {
                    assert(h.len() == 0);
                }
            }
        }
        return false;
    }
    let len = hb.len();
    let mut low: usize = 0;
    let mut high: usize = len;
    while low < high
        invariant
            hb@ == h,
            nb@ == w,
            h == haystack.spec_bytes(),
            w == needle.spec_bytes(),
            w.len() > 0,
            len == h.len(),
            low <= len,
            high <= len,
            bisect(w, h, sep, low as int, high as int) == search_outcome(w, h, sep),
            words_sorted(h, sep) && contains_word(h, sep, w) ==> exists|a: int, b: int|
                #[trigger] is_word_span(h, sep, a, b) && h.subrange(a, b) == w && low <= a && b <= high,
        decreases high + 1 - low,
    {
        let mid = low + (high - low) / 2;
        let mut start = mid;
        while start > 0 && !byte_is_sep(hb[start - 1], sep)
            invariant
                start <= mid < len,
                len == h.len(),
                hb@ == h,
                forall|i: int| start <= i < mid ==> !is_sep(h, i, sep),
            decreases start,
        {
            start = start - 1;
        }
        let mut end = mid;
        while end < len && !byte_is_sep(hb[end], sep)
            invariant
                mid <= end <= len,
                len == h.len(),
                hb@ == h,
                forall|i: int| mid <= i < end ==> !is_sep(h, i, sep),
            decreases len - end,
        {
            end = end + 1;
        }
        let ghost ws = h.subrange(start as int, end as int);
        assert(is_word_span(h, sep, start as int, end as int));
        proof {
            lemma_word_start(h, sep, start as int, mid as int);
            lemma_word_end(h, sep, mid as int, end as int);
        }
        let word = vstd::slice::slice_subrange(hb, start, end);
        assert(word@ == ws);
        let c = compare_bytes(nb, word);
        if c == 0 {
            proof {
                assert(is_word_span(h, sep, start as int, end as int) && h.subrange(start as int, end as int) == w);
                assert(contains_word(h, sep, w));
            }
            return true;
        } else if c < 0 {
            proof {
                if words_sorted(h, sep) && contains_word(h, sep, w) {
                    let (a, b) = choose|a: int, b: int|
                        #[trigger] is_word_span(h, sep, a, b) && h.subrange(a, b) == w && low <= a && b <= high;
                    lemma_word_spans_disjoint(h, sep, a, b, start as int, end as int);
                    lemma_lex_asymmetric(w, ws);
                    assert(b < start);
                }
            }
            high = if mid > 0 { mid - 1 } else { 0 };
        } else {
            proof {
                if words_sorted(h, sep) && contains_word(h, sep, w) {
                    let (a, b) = choose|a: int, b: int|
                        #[trigger] is_word_span(h, sep, a, b) && h.subrange(a, b) == w && low <= a && b <= high;
                    lemma_word_spans_disjoint(h, sep, a, b, start as int, end as int);
                    lemma_lex_asymmetric(w, ws);
                    assert(end < a);
                }
            }
            low = mid + 1;
        }
    }
    proof {
        if words_sorted(h, sep) && contains_word(h, sep, w) {
            let (a, b) = choose|a: int, b: int|
                #[trigger] is_word_span(h, sep, a, b) && h.subrange(a, b) == w && low <= a && b <= high;
            assert(h.subrange(a, b).len() == w.len());
        }
    }
    false
}

} // verus!
