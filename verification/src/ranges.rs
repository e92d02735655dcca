use std::ops::Range;
use vstd::prelude::*;

use crate::scope::{is_stable_sort, stable_sort_by_start};

verus! {

/// Whether position `k` lies in some (half-open) range of `s`.
pub open spec fn covers(s: Seq<Range<usize>>, k: int) -> bool {
    exists|i: int| 0 <= i < s.len() && #[trigger] s[i].start <= k < s[i].end
}

/// Whether the ranges of `s` are ordered by their start.
pub open spec fn sorted_by_start(s: Seq<Range<usize>>) -> bool {
    forall|i: int, j: int| 0 <= i < j < s.len() ==> s[i].start <= s[j].start
}

/// Whether the ranges of `s` are ordered and separated by gaps: no two of them touch.
pub open spec fn strictly_separated(s: Seq<Range<usize>>) -> bool {
    forall|i: int, j: int| 0 <= i < j < s.len() ==> s[i].end < s[j].start
}

/// Whether range `r` lies within range `outer`, both read as closed intervals.
pub open spec fn within(r: Range<usize>, outer: Range<usize>) -> bool {
    outer.start <= r.start && r.end <= outer.end
}

/// Whether range `r` lies within some range of `s`, read as closed intervals.
pub open spec fn within_some(r: Range<usize>, s: Seq<Range<usize>>) -> bool {
    exists|j: int| 0 <= j < s.len() && within(r, #[trigger] s[j])
}

/// Whether `x` is the start of some range of `s`.
pub open spec fn is_some_start(s: Seq<Range<usize>>, x: usize) -> bool {
    exists|i: int| 0 <= i < s.len() && #[trigger] s[i].start == x
}

/// Whether `x` is the end of some range of `s`.
pub open spec fn is_some_end(s: Seq<Range<usize>>, x: usize) -> bool {
    exists|i: int| 0 <= i < s.len() && #[trigger] s[i].end == x
}

/// The ranges `merged` are the merge of the ranges `s`: overlapping or bordering
/// ranges are joined, every range of `s` lies within one of `merged`, each bound of
/// `merged` is a bound of `s`, the covered positions are the same, and no two ranges of
/// `merged` touch.
pub open spec fn is_merge_of(merged: Seq<Range<usize>>, s: Seq<Range<usize>>) -> bool {
    &&& merged.len() <= s.len()
    &&& strictly_separated(merged)
    &&& forall|t: int| 0 <= t < s.len() ==> within_some(#[trigger] s[t], merged)
    &&& forall|j: int| 0 <= j < merged.len() ==> is_some_start(s, #[trigger] merged[j].start)
    &&& forall|j: int| 0 <= j < merged.len() ==> is_some_end(s, #[trigger] merged[j].end)
    &&& forall|k: int| covers(merged, k) == covers(s, k)
}

/// The ranges `s`, each paired with nothing.
pub open spec fn tagged_ranges(s: Seq<Range<usize>>) -> Seq<(Range<usize>, ())> {
    s.map_values(|r: Range<usize>| (r, ()))
}

/// Whether `sorted` is `s` ordered by start, ranges with equal starts kept in their
/// given order.
pub open spec fn stably_sorted(sorted: Seq<Range<usize>>, s: Seq<Range<usize>>) -> bool {
    exists|perm: Seq<int>| is_stable_sort(tagged_ranges(sorted), tagged_ranges(s), perm)
}

/// Covering a position after pushing a range.
pub proof fn lemma_covers_push(s: Seq<Range<usize>>, x: Range<usize>, k: int)
    ensures
        covers(s.push(x), k) == (covers(s, k) || (x.start <= k < x.end)),
{
    if covers(s, k) {
        let i = choose|i: int| 0 <= i < s.len() && #[trigger] s[i].start <= k < s[i].end;
        assert(s.push(x)[i] == s[i]);
    }
    if x.start <= k < x.end {
        assert(s.push(x)[s.len() as int] == x);
    }
    if covers(s.push(x), k) {
        let i = choose|i: int| 0 <= i < s.push(x).len() && #[trigger] s.push(x)[i].start <= k < s.push(x)[i].end;
        if i < s.len() {
            assert(s[i] == s.push(x)[i]);
        }
    }
}

/// A collection of [`Range`]s.
///
/// The ranges are kept as given; constructors from raw ranges order them by their
/// start.
#[derive(Debug, Clone, PartialEq, Eq)]
pub struct Ranges<Idx> {
    inner: Vec<Range<Idx>>,
}

impl Default for Ranges<usize> {
    /// An empty collection.
    fn default() -> (r: Self)
        ensures
            r.spec_ranges() == Seq::<Range<usize>>::empty(),
    {
        Ranges { inner: Vec::new() }
    }
}

impl Ranges<usize> {
    /// The ranges, in order.
    pub closed spec fn spec_ranges(&self) -> Seq<Range<usize>> {
        self.inner@
    }

    /// An empty collection.
    pub fn new() -> (r: Self)
        ensures
            r.spec_ranges() == Seq::<Range<usize>>::empty(),
    {
        Ranges { inner: Vec::new() }
    }

    /// Builds a collection from the given ranges, ordered by start (stably).
    pub fn from_ranges(ranges: Vec<Range<usize>>) -> (r: Self)
        ensures
            sorted_by_start(r.spec_ranges()),
            stably_sorted(r.spec_ranges(), ranges@),
    {
        let n = ranges.len();
        let mut tagged: Vec<(Range<usize>, ())> = Vec::new();
        let mut i: usize = 0;
        while i < n
            invariant
                i <= n,
                n == ranges@.len(),
                tagged@ == tagged_ranges(ranges@.take(i as int)),
            decreases n - i,
        {
            tagged.push((Range { start: ranges[i].start, end: ranges[i].end }, ()));
            proof {
                assert(tagged_ranges(ranges@.take(i + 1)) =~= tagged_ranges(ranges@.take(i as int)).push((ranges@[i as int], ())));
            }
            i = i + 1;
        }
        proof {
            assert(ranges@.take(n as int) =~= ranges@);
        }
        let (sorted, Ghost(perm)) = stable_sort_by_start(tagged);
        let mut inner: Vec<Range<usize>> = Vec::new();
        let mut k: usize = 0;
        while k < n
            invariant
                k <= n,
                n == sorted@.len(),
                is_stable_sort(sorted@, tagged_ranges(ranges@), perm),
                inner@ == sorted@.take(k as int).map_values(|e: (Range<usize>, ())| e.0),
            decreases n - k,
        {
            inner.push(Range { start: sorted[k].0.start, end: sorted[k].0.end });
            proof {
                assert(sorted@.take(k + 1).map_values(|e: (Range<usize>, ())| e.0) =~= sorted@.take(k as int).map_values(
                    |e: (Range<usize>, ())| e.0,
                ).push(sorted@[k as int].0));
            }
            k = k + 1;
        }
        proof {
            assert(sorted@.take(n as int) =~= sorted@);
            assert forall|a: int| 0 <= a < n implies #[trigger] tagged_ranges(inner@)[a] == sorted@[a] by {
                assert(inner@[a] == sorted@[a].0);
            }
            assert(tagged_ranges(inner@) =~= sorted@);
            assert forall|a: int, b: int| 0 <= a < b < inner@.len() implies inner@[a].start <= inner@[b].start by {
                assert(inner@[a] == sorted@[a].0 && inner@[b] == sorted@[b].0);
                assert(perm[a] != perm[b]);
                assert(sorted@[a].0.start < sorted@[b].0.start || (sorted@[a].0.start == sorted@[b].0.start && perm[a] < perm[b]));
            }
        }
        Ranges { inner }
    }

    /// Returns the number of ranges.
    pub fn len(&self) -> (n: usize)
        ensures
            n == self.spec_ranges().len(),
    {
        self.inner.len()
    }

    /// Returns whether the collection is empty.
    pub fn is_empty(&self) -> (b: bool)
        ensures
            b == (self.spec_ranges().len() == 0),
    {
        self.inner.len() == 0
    }

    /// Returns whether the ranges are ordered by their start.
    pub fn is_sorted(&self) -> (b: bool)
        ensures
            b == sorted_by_start(self.spec_ranges()),
    {
        let n = self.inner.len();
        if n < 2 {
            return true;
        }
        let mut i: usize = 0;
        while i + 1 < n
            invariant
                n == self.inner@.len(),
                n >= 2,
                i + 1 <= n,
                forall|a: int, b: int| 0 <= a < b <= i ==> self.inner@[a].start <= self.inner@[b].start,
            decreases n - i,
        {
            if self.inner[i].start > self.inner[i + 1].start {
                return false;
            }
            i = i + 1;
        }
        true
    }

    /// The ranges, as a slice to iterate over by reference.
    pub fn iter(&self) -> (s: &[Range<usize>])
        ensures
            s@ == self.spec_ranges(),
    {
        self.inner.as_slice()
    }

    /// The ranges, for in-place changes.
    pub fn iter_mut(&mut self) -> (v: &mut Vec<Range<usize>>)
        ensures
            v@ == old(self).spec_ranges(),
            final(self).spec_ranges() == final(v)@,
    {
        &mut self.inner
    }

    /// Consumes the collection, yielding its ranges in order.
    pub fn into_vec(self) -> (v: Vec<Range<usize>>)
        ensures
            v@ == self.spec_ranges(),
    {
        self.inner
    }

    /// Merges overlapping and bordering ranges.
    ///
    /// Relies on the ranges being ordered by start.
    pub fn merge(&mut self) -> (r: &mut Self)
        requires
            sorted_by_start(old(self).spec_ranges()),
        ensures
            is_merge_of(r.spec_ranges(), old(self).spec_ranges()),
            sorted_by_start(r.spec_ranges()),
            *final(self) == *final(r),
    {
        let ghost s = self.inner@;
        let n = self.inner.len();
        let mut res: Vec<Range<usize>> = Vec::new();
        if n == 0 {
            assert forall|k: int| covers(res@, k) == covers(s, k) by {}
            return self;
        }
        let mut prev: Range<usize> = Range { start: self.inner[0].start, end: self.inner[0].end };
        let mut i: usize = 1;
        let ghost mut owner: Seq<int> = seq![0int];
        let ghost mut ssrc: Seq<int> = seq![0int];
        let ghost mut esrc: Seq<int> = seq![0int];
        proof {
            assert(res@.push(prev) == seq![s[0]]);
            lemma_merge_init(s);
        }
        while i < n
            invariant
                n == s.len(),
                s == self.inner@,
                1 <= i <= n,
                merge_inv(res@.push(prev), s, i as int, owner, ssrc, esrc),
            decreases n - i,
        {
            let cur = Range { start: self.inner[i].start, end: self.inner[i].end };
            let ghost old_list = res@.push(prev);
            if prev.end >= cur.start {
                let end = if prev.end >= cur.end { prev.end } else { cur.end };
                prev = Range { start: prev.start, end: end };
                proof {
                    lemma_merge_extend(old_list, s, i as int, owner, ssrc, esrc);
                    assert(res@.push(prev) == old_list.update(old_list.len() - 1, prev));
                    let m = old_list.len() - 1;
                    esrc = if end == cur.end { esrc.update(m, i as int) } else { esrc };
                    owner = owner.push(m);
                }
            } else {
                res.push(prev);
                prev = cur;
                proof {
                    lemma_merge_push(old_list, s, i as int, owner, ssrc, esrc);
                    assert(res@.push(prev) == old_list.push(cur));
                    owner = owner.push(old_list.len() as int);
                    ssrc = ssrc.push(i as int);
                    esrc = esrc.push(i as int);
                }
            }
            i = i + 1;
        }
        res.push(prev);
        proof {
            lemma_merge_done(res@, s, owner, ssrc, esrc);
        }
        self.inner = res;
        self
    }
}


impl Ranges<usize> {
    /// Subtracts `rhs` from `self`: every position covered by `rhs` is removed from the
    /// ranges of `self`, splitting ranges where needed.
    ///
    /// Linear in the number of ranges of both.
    pub fn sub(self, rhs: Self) -> (r: Self)
        requires
            sorted_by_start(self.spec_ranges()),
            sorted_by_start(rhs.spec_ranges()),
        ensures
            sorted_by_start(r.spec_ranges()),
            forall|j: int| 0 <= j < r.spec_ranges().len() ==> within_some(#[trigger] r.spec_ranges()[j], self.spec_ranges()),
            forall|j: int| 0 <= j < r.spec_ranges().len() ==> cut_piece(#[trigger] r.spec_ranges()[j], self.spec_ranges(), rhs.spec_ranges()),
            well_formed(self.spec_ranges()) ==> well_formed(r.spec_ranges()),
            disjoint_nonempty(self.spec_ranges()) && well_formed(rhs.spec_ranges()) ==> forall|k: int|
                #[trigger] covers(r.spec_ranges(), k) == (covers(self.spec_ranges(), k) && !covers(rhs.spec_ranges(), k)),
            disjoint_nonempty(self.spec_ranges()) && well_formed(rhs.spec_ranges()) ==> disjoint_nonempty(r.spec_ranges()),
    {
        let ghost ls = self.inner@;
        let ghost rs = rhs.inner@;
        let left = self.inner;
        let right = rhs.inner;
        let n = left.len();
        let m = right.len();
        let mut result: Vec<Range<usize>> = Vec::new();
        let mut li: usize = 0;
        let mut ri: usize = 0;
        let mut cur: usize = if n > 0 { left[0].start } else { 0 };
        // Every position before `reach` has been dealt with by a range of `rhs` already
        // passed or by a piece already kept.
        let ghost mut reach: int = 0;
        proof {
            reveal(sub_inv);
            assert forall|k: int| #[trigger] covers(result@, k) == ((covers_upto(ls, 0, k) || (0 < n && ls[0].start <= k < cur))
                && !covers(rs, k)) by {}
        }
        while li < n
            invariant
                n == ls.len(),
                m == rs.len(),
                left@ == ls,
                right@ == rs,
                sorted_by_start(ls),
                sorted_by_start(rs),
                li <= n,
                ri <= m,
                sub_inv(ls, rs, result@, li as int, ri as int, cur as int, reach),
            decreases (n - li) + (m - ri),
        {
            let l_start = left[li].start;
            let l_end = left[li].end;
            let ghost old_result = result@;
            let ghost taken_reach = if l_start < l_end { l_end as int } else { reach };
            if ri >= m {
                result.push(Range { start: cur, end: l_end });
                let next = if li + 1 < n { left[li + 1].start } else { 0 };
                proof {
                    lemma_sub_take_left(ls, rs, old_result, li as int, ri as int, cur as int, reach, next as int);
                    reach = taken_reach;
                }
                li = li + 1;
                cur = next;
            } else {
                let r_start = right[ri].start;
                let r_end = right[ri].end;
                if r_end <= cur {
                    proof {
                        lemma_sub_skip_right(ls, rs, result@, li as int, ri as int, cur as int, reach);
                        reach = if reach < r_end { r_end as int } else { reach };
                    }
                    ri = ri + 1;
                } else if r_start >= l_end {
                    result.push(Range { start: cur, end: l_end });
                    let next = if li + 1 < n { left[li + 1].start } else { 0 };
                    proof {
                        lemma_sub_take_left(ls, rs, old_result, li as int, ri as int, cur as int, reach, next as int);
                        reach = taken_reach;
                    }
                    li = li + 1;
                    cur = next;
                } else {
                    if r_start > cur {
                        result.push(Range { start: cur, end: r_start });
                    }
                    let ghost mid_result = result@;
                    proof {
                        lemma_sub_cut(ls, rs, old_result, mid_result, li as int, ri as int, cur as int, reach);
                    }
                    if r_end >= l_end {
                        let next = if li + 1 < n { left[li + 1].start } else { 0 };
                        proof {
                            lemma_sub_cut_all(ls, rs, old_result, mid_result, li as int, ri as int, cur as int, reach, next as int);
                            reach = taken_reach;
                        }
                        li = li + 1;
                        cur = next;
                    } else {
                        proof {
                            lemma_sub_cut_part(ls, rs, old_result, mid_result, li as int, ri as int, cur as int, reach);
                            reach = r_end as int;
                        }
                        cur = r_end;
                        ri = ri + 1;
                    }
                }
            }
        }
        proof {
            lemma_sub_done(ls, rs, result@, ri as int, cur as int, reach);
        }
        // Ordering by start (stably) leaves ranges already in order as they are.
        let done = Ranges { inner: result };
        if done.is_sorted() {
            return done;
        }
        let result = done.inner;
        let (sorted, Ghost(perm)) = sort_by_start(result);
        let r = Ranges { inner: sorted };
        proof {
            let rr = r.spec_ranges();
            lemma_covers_multiset(rr, result@);
            assert forall|j: int| 0 <= j < rr.len() implies within_some(#[trigger] rr[j], ls)
                && cut_piece(rr[j], ls, rs) by {
                assert(rr[j] == result@[perm[j]]);
            }
            if well_formed(ls) {
                assert forall|j: int| 0 <= j < rr.len() implies #[trigger] rr[j].start <= rr[j].end by {
                    assert(rr[j] == result@[perm[j]]);
                }
            }
            if disjoint_nonempty(ls) && well_formed(rs) {
                assert forall|a: int, b: int|
                    0 <= a < rr.len() && 0 <= b < rr.len() && a != b && nonempty(#[trigger] rr[a]) && nonempty(#[trigger] rr[b])
                    implies rr[a].end <= rr[b].start || rr[b].end <= rr[a].start by {
                    assert(rr[a] == result@[perm[a]] && rr[b] == result@[perm[b]]);
                    assert(perm[a] != perm[b]);
                }
            }
        }
        r
    }
}

/// Whether every range of `s` has its start not after its end.
pub open spec fn well_formed(s: Seq<Range<usize>>) -> bool {
    forall|i: int| 0 <= i < s.len() ==> #[trigger] s[i].start <= s[i].end
}

/// Whether range `x` holds at least one position.
pub open spec fn nonempty(x: Range<usize>) -> bool {
    x.start < x.end
}

/// Whether no position lies in two ranges of `s`: any two of its non-empty ranges are
/// apart. Empty and reversed ranges hold no position and may lie anywhere.
pub open spec fn disjoint_nonempty(s: Seq<Range<usize>>) -> bool {
    forall|a: int, b: int|
        0 <= a < s.len() && 0 <= b < s.len() && a != b && nonempty(#[trigger] s[a]) && nonempty(#[trigger] s[b])
            ==> s[a].end <= s[b].start || s[b].end <= s[a].start
}

/// Whether `x` is a piece of a range of `ls` cut by `rs`: it starts where a range of `ls`
/// starts or one of `rs` ends, ends where a range of `ls` ends or one of `rs` starts,
/// and is not empty unless it is an (empty) range of `ls` itself.
pub open spec fn cut_piece(x: Range<usize>, ls: Seq<Range<usize>>, rs: Seq<Range<usize>>) -> bool {
    &&& is_some_start(ls, x.start) || is_some_end(rs, x.start)
    &&& is_some_end(ls, x.end) || is_some_start(rs, x.end)
    &&& x.start < x.end || exists|t: int| 0 <= t < ls.len() && ls[t] == x
}

/// What holds while subtracting `rs` from `ls`: `li` is the current range of `ls`,
/// trimmed to start at `cur`, and `ri` the current range of `rs`. When the non-empty
/// ranges of `ls` are apart and `rs` is well formed, the ranges of `rs` before `ri` and
/// the non-empty pieces kept so far end by `reach`, and the non-empty ranges of `ls`
/// still to come (the current one trimmed) start at or after it.
#[verifier::opaque]
pub open spec fn sub_inv(
    ls: Seq<Range<usize>>,
    rs: Seq<Range<usize>>,
    result: Seq<Range<usize>>,
    li: int,
    ri: int,
    cur: int,
    reach: int,
) -> bool {
    &&& li < ls.len() ==> ls[li].start <= cur
    &&& li < ls.len() && cur != ls[li].start ==> cur < ls[li].end && is_some_end(rs, cur as usize)
    &&& forall|j: int| 0 <= j < result.len() ==> within_some(#[trigger] result[j], ls)
    &&& forall|j: int| 0 <= j < result.len() ==> cut_piece(#[trigger] result[j], ls, rs)
    &&& disjoint_nonempty(ls) && well_formed(rs) ==> {
        &&& forall|t: int| 0 <= t < ri ==> #[trigger] rs[t].end <= reach
        &&& forall|j: int| 0 <= j < result.len() && nonempty(#[trigger] result[j]) ==> result[j].end <= reach
        &&& forall|j: int| li < j < ls.len() && nonempty(#[trigger] ls[j]) ==> reach <= ls[j].start
        &&& li < ls.len() && nonempty(ls[li]) ==> reach <= cur
        &&& forall|k: int| #[trigger] covers(result, k) == ((covers_upto(ls, li, k) || (li < ls.len() && ls[li].start <= k < cur))
            && !covers(rs, k))
        &&& disjoint_nonempty(result)
    }
}

/// No range of `rs` covers `k` when those before `ri` end by `bound` and those from `ri`
/// on start after `k`.
proof fn lemma_rhs_misses(rs: Seq<Range<usize>>, ri: int, bound: int, k: int)
    requires
        sorted_by_start(rs),
        0 <= ri <= rs.len(),
        forall|t: int| 0 <= t < ri ==> #[trigger] rs[t].end <= bound,
        bound <= k,
        ri < rs.len() ==> k < rs[ri].start,
    ensures
        !covers(rs, k),
{
    if covers(rs, k) {
        let t = choose|t: int| 0 <= t < rs.len() && #[trigger] rs[t].start <= k < rs[t].end;
        if t < ri {
            assert(rs[t].end <= bound);
        } else {
            assert(rs[ri].start <= rs[t].start);
        }
    }
}

/// A non-empty range of `ls` ends before any later non-empty one starts.
proof fn lemma_apart_later(ls: Seq<Range<usize>>, i: int, j: int)
    requires
        sorted_by_start(ls),
        disjoint_nonempty(ls),
        0 <= i < j < ls.len(),
        nonempty(ls[i]),
        nonempty(ls[j]),
    ensures
        ls[i].end <= ls[j].start,
{
    assert(ls[i].start <= ls[j].start);
}

proof fn lemma_sub_take_left(
    ls: Seq<Range<usize>>,
    rs: Seq<Range<usize>>,
    result: Seq<Range<usize>>,
    li: int,
    ri: int,
    cur: int,
    reach: int,
    next: int,
)
    requires
        sorted_by_start(ls),
        sorted_by_start(rs),
        0 <= li < ls.len(),
        0 <= ri <= rs.len(),
        sub_inv(ls, rs, result, li, ri, cur, reach),
        ri < rs.len() ==> rs[ri].start >= ls[li].end,
        li + 1 < ls.len() ==> next == ls[li + 1].start,
        0 <= cur <= usize::MAX,
    ensures
        sub_inv(ls, rs, result.push(Range { start: cur as usize, end: ls[li].end }), li + 1, ri, next,
            if nonempty(ls[li]) { ls[li].end as int } else { reach }),
{
    reveal(sub_inv);
    let l = ls[li];
    let piece = Range { start: cur as usize, end: l.end };
    let nr = result.push(piece);
    let reach2 = if nonempty(l) { l.end as int } else { reach };
    assert(within(piece, ls[li]));
    assert forall|j: int| 0 <= j < nr.len() implies within_some(#[trigger] nr[j], ls) by {
        if j < result.len() {
            assert(nr[j] == result[j]);
        }
    }
    if disjoint_nonempty(ls) && well_formed(rs) {
        assert forall|j: int| li + 1 < j < ls.len() && nonempty(#[trigger] ls[j]) implies reach2 <= ls[j].start by {
            if nonempty(l) {
                lemma_apart_later(ls, li, j);
            }
        }
        if li + 1 < ls.len() && nonempty(ls[li + 1]) && nonempty(l) {
            lemma_apart_later(ls, li, li + 1);
        }
        assert forall|j: int| 0 <= j < nr.len() && nonempty(#[trigger] nr[j]) implies nr[j].end <= reach2 by {
            if j < result.len() {
                assert(nr[j] == result[j]);
            }
        }
        assert forall|a: int, b: int|
            0 <= a < nr.len() && 0 <= b < nr.len() && a != b && nonempty(#[trigger] nr[a]) && nonempty(#[trigger] nr[b])
            implies nr[a].end <= nr[b].start || nr[b].end <= nr[a].start by {
            if a < result.len() && b < result.len() {
                assert(nr[a] == result[a] && nr[b] == result[b]);
            } else if a < result.len() {
                assert(nr[a] == result[a]);
            } else {
                assert(nr[b] == result[b]);
            }
        }
        assert forall|k: int| #[trigger] covers(nr, k) == ((covers_upto(ls, li + 1, k) || (li + 1 < ls.len() && ls[li + 1].start <= k < next))
            && !covers(rs, k)) by {
            lemma_covers_push(result, piece, k);
            lemma_covers_upto_step(ls, li, k);
            if cur <= k < l.end {
                lemma_rhs_misses(rs, ri, reach, k);
            }
        }
    }
}

proof fn lemma_sub_skip_right(
    ls: Seq<Range<usize>>,
    rs: Seq<Range<usize>>,
    result: Seq<Range<usize>>,
    li: int,
    ri: int,
    cur: int,
    reach: int,
)
    requires
        sorted_by_start(ls),
        0 <= li < ls.len(),
        0 <= ri < rs.len(),
        sub_inv(ls, rs, result, li, ri, cur, reach),
        rs[ri].end <= cur,
    ensures
        sub_inv(ls, rs, result, li, ri + 1, cur, if reach < rs[ri].end { rs[ri].end as int } else { reach }),
{
    reveal(sub_inv);
    let reach2 = if reach < rs[ri].end { rs[ri].end as int } else { reach };
    if disjoint_nonempty(ls) && well_formed(rs) {
        assert forall|j: int| li < j < ls.len() && nonempty(#[trigger] ls[j]) implies reach2 <= ls[j].start by {
            if nonempty(ls[li]) {
                lemma_apart_later(ls, li, j);
            }
        }
    }
}

proof fn lemma_sub_cut(
    ls: Seq<Range<usize>>,
    rs: Seq<Range<usize>>,
    result: Seq<Range<usize>>,
    mid: Seq<Range<usize>>,
    li: int,
    ri: int,
    cur: int,
    reach: int,
)
    requires
        sorted_by_start(rs),
        0 <= li < ls.len(),
        0 <= ri < rs.len(),
        sub_inv(ls, rs, result, li, ri, cur, reach),
        rs[ri].end > cur,
        rs[ri].start < ls[li].end,
        0 <= cur <= usize::MAX,
        mid == (if rs[ri].start > cur { result.push(Range { start: cur as usize, end: rs[ri].start }) } else { result }),
    ensures
        forall|j: int| 0 <= j < mid.len() ==> within_some(#[trigger] mid[j], ls),
        forall|j: int| 0 <= j < mid.len() ==> cut_piece(#[trigger] mid[j], ls, rs),
        ls[li].start <= rs[ri].end,
        !nonempty(ls[li]) ==> mid == result,
        disjoint_nonempty(ls) && well_formed(rs) ==> {
            &&& forall|k: int| #[trigger] covers(mid, k) == ((covers_upto(ls, li, k) || ls[li].start <= k < rs[ri].end)
                && !covers(rs, k))
            &&& disjoint_nonempty(mid)
            &&& forall|j: int| 0 <= j < mid.len() && nonempty(#[trigger] mid[j]) ==> mid[j].end <= reach
                || mid[j].end <= rs[ri].start
        },
{
    reveal(sub_inv);
    let r = rs[ri];
    let piece = Range { start: cur as usize, end: r.start };
    if r.start > cur {
        assert(within(piece, ls[li]));
    }
    assert forall|j: int| 0 <= j < mid.len() implies within_some(#[trigger] mid[j], ls) by {
        if j < result.len() {
            assert(mid[j] == result[j]);
        }
    }
    if disjoint_nonempty(ls) && well_formed(rs) {
        assert forall|j: int| 0 <= j < mid.len() && nonempty(#[trigger] mid[j]) implies mid[j].end <= reach
            || mid[j].end <= rs[ri].start by {
            if j < result.len() {
                assert(mid[j] == result[j]);
            }
        }
        assert forall|a: int, b: int|
            0 <= a < mid.len() && 0 <= b < mid.len() && a != b && nonempty(#[trigger] mid[a]) && nonempty(#[trigger] mid[b])
            implies mid[a].end <= mid[b].start || mid[b].end <= mid[a].start by {
            if a < result.len() && b < result.len() {
                assert(mid[a] == result[a] && mid[b] == result[b]);
            } else if a < result.len() {
                assert(mid[a] == result[a]);
            } else {
                assert(mid[b] == result[b]);
            }
        }
        assert forall|k: int| #[trigger] covers(mid, k) == ((covers_upto(ls, li, k) || ls[li].start <= k < r.end)
            && !covers(rs, k)) by {
            if r.start > cur {
                lemma_covers_push(result, piece, k);
            }
            if cur <= k < r.start {
                lemma_rhs_misses(rs, ri, reach, k);
            } else if r.start <= k < r.end {
                assert(rs[ri].start <= k < rs[ri].end);
                assert(covers(rs, k));
            }
        }
    }
}

proof fn lemma_sub_cut_all(
    ls: Seq<Range<usize>>,
    rs: Seq<Range<usize>>,
    result: Seq<Range<usize>>,
    mid: Seq<Range<usize>>,
    li: int,
    ri: int,
    cur: int,
    reach: int,
    next: int,
)
    requires
        sorted_by_start(ls),
        0 <= li < ls.len(),
        0 <= ri < rs.len(),
        sub_inv(ls, rs, result, li, ri, cur, reach),
        forall|j: int| 0 <= j < mid.len() ==> within_some(#[trigger] mid[j], ls),
        forall|j: int| 0 <= j < mid.len() ==> cut_piece(#[trigger] mid[j], ls, rs),
        !nonempty(ls[li]) ==> mid == result,
        disjoint_nonempty(ls) && well_formed(rs) ==> {
            &&& forall|k: int| #[trigger] covers(mid, k) == ((covers_upto(ls, li, k) || ls[li].start <= k < rs[ri].end)
                && !covers(rs, k))
            &&& disjoint_nonempty(mid)
            &&& forall|j: int| 0 <= j < mid.len() && nonempty(#[trigger] mid[j]) ==> mid[j].end <= reach
                || mid[j].end <= rs[ri].start
        },
        rs[ri].end >= ls[li].end,
        rs[ri].start < ls[li].end,
        li + 1 < ls.len() ==> next == ls[li + 1].start,
    ensures
        sub_inv(ls, rs, mid, li + 1, ri, next, if nonempty(ls[li]) { ls[li].end as int } else { reach }),
{
    reveal(sub_inv);
    let l = ls[li];
    let reach2 = if nonempty(l) { l.end as int } else { reach };
    if disjoint_nonempty(ls) && well_formed(rs) {
        assert forall|j: int| li + 1 < j < ls.len() && nonempty(#[trigger] ls[j]) implies reach2 <= ls[j].start by {
            if nonempty(l) {
                lemma_apart_later(ls, li, j);
            }
        }
        if li + 1 < ls.len() && nonempty(ls[li + 1]) && nonempty(l) {
            lemma_apart_later(ls, li, li + 1);
        }
        assert forall|j: int| 0 <= j < mid.len() && nonempty(#[trigger] mid[j]) implies mid[j].end <= reach2 by {
            if !nonempty(l) {
                assert(mid[j] == result[j]);
            }
        }
        assert forall|k: int| #[trigger] covers(mid, k) == ((covers_upto(ls, li + 1, k) || (li + 1 < ls.len() && ls[li + 1].start <= k < next))
            && !covers(rs, k)) by {
            lemma_covers_upto_step(ls, li, k);
            if l.end <= k < rs[ri].end && l.start <= k {
                assert(rs[ri].start <= k < rs[ri].end);
                assert(covers(rs, k));
            }
        }
    }
}

proof fn lemma_sub_cut_part(
    ls: Seq<Range<usize>>,
    rs: Seq<Range<usize>>,
    result: Seq<Range<usize>>,
    mid: Seq<Range<usize>>,
    li: int,
    ri: int,
    cur: int,
    reach: int,
)
    requires
        sorted_by_start(ls),
        0 <= li < ls.len(),
        0 <= ri < rs.len(),
        sub_inv(ls, rs, result, li, ri, cur, reach),
        forall|j: int| 0 <= j < mid.len() ==> within_some(#[trigger] mid[j], ls),
        forall|j: int| 0 <= j < mid.len() ==> cut_piece(#[trigger] mid[j], ls, rs),
        ls[li].start <= rs[ri].end,
        disjoint_nonempty(ls) && well_formed(rs) ==> {
            &&& forall|k: int| #[trigger] covers(mid, k) == ((covers_upto(ls, li, k) || ls[li].start <= k < rs[ri].end)
                && !covers(rs, k))
            &&& disjoint_nonempty(mid)
            &&& forall|j: int| 0 <= j < mid.len() && nonempty(#[trigger] mid[j]) ==> mid[j].end <= reach
                || mid[j].end <= rs[ri].start
        },
        rs[ri].end > cur,
        rs[ri].end < ls[li].end,
    ensures
        sub_inv(ls, rs, mid, li, ri + 1, rs[ri].end as int, rs[ri].end as int),
{
    reveal(sub_inv);
    assert(rs[ri].end == rs[ri].end as usize);
    assert(is_some_end(rs, rs[ri].end));
    if disjoint_nonempty(ls) && well_formed(rs) {
        assert forall|j: int| li < j < ls.len() && nonempty(#[trigger] ls[j]) implies rs[ri].end <= ls[j].start by {
            lemma_apart_later(ls, li, j);
        }
        assert(rs[ri].start <= rs[ri].end);
    }
}

/// What the subtraction loop leaves, once every range of `ls` has been dealt with.
proof fn lemma_sub_done(
    ls: Seq<Range<usize>>,
    rs: Seq<Range<usize>>,
    result: Seq<Range<usize>>,
    ri: int,
    cur: int,
    reach: int,
)
    requires
        sub_inv(ls, rs, result, ls.len() as int, ri, cur, reach),
    ensures
        forall|j: int| 0 <= j < result.len() ==> within_some(#[trigger] result[j], ls),
        forall|j: int| 0 <= j < result.len() ==> cut_piece(#[trigger] result[j], ls, rs),
        well_formed(ls) ==> well_formed(result),
        disjoint_nonempty(ls) && well_formed(rs) ==> forall|k: int|
            #[trigger] covers(result, k) == (covers(ls, k) && !covers(rs, k)),
        disjoint_nonempty(ls) && well_formed(rs) ==> disjoint_nonempty(result),
{
    reveal(sub_inv);
    if well_formed(ls) {
        assert forall|j: int| 0 <= j < result.len() implies #[trigger] result[j].start <= result[j].end by {
            assert(cut_piece(result[j], ls, rs));
        }
    }
    if disjoint_nonempty(ls) && well_formed(rs) {
        assert forall|k: int| #[trigger] covers(result, k) == (covers(ls, k) && !covers(rs, k)) by {
            assert(covers_upto(ls, ls.len() as int, k) == covers(ls, k));
        }
    }
}

/// Reordering ranges keeps what they cover.
proof fn lemma_covers_multiset(a: Seq<Range<usize>>, b: Seq<Range<usize>>)
    requires
        a.to_multiset() == b.to_multiset(),
    ensures
        forall|k: int| #[trigger] covers(a, k) == covers(b, k),
{
    broadcast use vstd::seq_lib::group_to_multiset_ensures;
    assert forall|k: int| #[trigger] covers(a, k) == covers(b, k) by {
        if covers(a, k) {
            let i = choose|i: int| 0 <= i < a.len() && #[trigger] a[i].start <= k < a[i].end;
            vstd::seq_lib::to_multiset_contains(a, a[i]);
            vstd::seq_lib::to_multiset_contains(b, a[i]);
            assert(a.contains(a[i]));
            assert(b.contains(a[i]));
            let j = choose|j: int| 0 <= j < b.len() && b[j] == a[i];
            assert(b[j].start <= k < b[j].end);
        }
        if covers(b, k) {
            let i = choose|i: int| 0 <= i < b.len() && #[trigger] b[i].start <= k < b[i].end;
            vstd::seq_lib::to_multiset_contains(a, b[i]);
            vstd::seq_lib::to_multiset_contains(b, b[i]);
            assert(b.contains(b[i]));
            assert(a.contains(b[i]));
            let j = choose|j: int| 0 <= j < a.len() && a[j] == b[i];
            assert(a[j].start <= k < a[j].end);
        }
    }
}

/// Whether position `k` lies in one of the first `n` ranges of `s`.
pub open spec fn covers_upto(s: Seq<Range<usize>>, n: int, k: int) -> bool {
    exists|t: int| 0 <= t < n && #[trigger] s[t].start <= k < s[t].end
}

/// What holds of the ranges merged so far, after the first `i` ranges of `s`:
/// `owner[t]` is the merged range holding `s[t]`, and the start (end) of merged range
/// `j` is that of `s[ssrc[j]]` (`s[esrc[j]]`).
#[verifier::opaque]
pub open spec fn merge_inv(
    list: Seq<Range<usize>>,
    s: Seq<Range<usize>>,
    i: int,
    owner: Seq<int>,
    ssrc: Seq<int>,
    esrc: Seq<int>,
) -> bool {
    &&& sorted_by_start(s)
    &&& 1 <= list.len() <= i <= s.len()
    &&& owner.len() == i
    &&& ssrc.len() == list.len()
    &&& esrc.len() == list.len()
    &&& strictly_separated(list)
    &&& forall|t: int| 0 <= t < i ==> 0 <= #[trigger] owner[t] < list.len() && within(s[t], list[owner[t]])
    &&& forall|j: int| 0 <= j < list.len() ==> 0 <= #[trigger] ssrc[j] < i && s[ssrc[j]].start == list[j].start
    &&& forall|j: int| 0 <= j < list.len() ==> 0 <= #[trigger] esrc[j] < i && s[esrc[j]].end == list[j].end
    &&& forall|j: int| 0 <= j < list.len() ==> #[trigger] list[j].start <= list[list.len() - 1].start
    &&& forall|a: int, b: int| 0 <= a < b < list.len() ==> ssrc[a] < ssrc[b]
    &&& forall|k: int| #![trigger covers(list, k)] #![trigger covers_upto(s, i, k)] covers(list, k) == covers_upto(s, i, k)
}

proof fn lemma_merge_init(s: Seq<Range<usize>>)
    requires
        sorted_by_start(s),
        s.len() >= 1,
    ensures
        merge_inv(seq![s[0]], s, 1, seq![0int], seq![0int], seq![0int]),
{
    reveal(merge_inv);
    let list = seq![s[0]];
    assert forall|k: int| covers(list, k) == covers_upto(s, 1, k) by {
        if covers(list, k) {
            assert(s[0].start <= k < s[0].end);
        }
        if covers_upto(s, 1, k) {
            assert(list[0].start <= k < list[0].end);
        }
    }
}

/// Extending the first `i` ranges by one more extends what they cover by that range.
proof fn lemma_covers_upto_step(s: Seq<Range<usize>>, i: int, k: int)
    requires
        0 <= i < s.len(),
    ensures
        covers_upto(s, i + 1, k) == (covers_upto(s, i, k) || (s[i].start <= k < s[i].end)),
{
    if covers_upto(s, i + 1, k) {
        let t = choose|t: int| 0 <= t < i + 1 && #[trigger] s[t].start <= k < s[t].end;
        if t < i {
            assert(covers_upto(s, i, k));
        }
    }
    if covers_upto(s, i, k) {
        let t = choose|t: int| 0 <= t < i && #[trigger] s[t].start <= k < s[t].end;
        assert(covers_upto(s, i + 1, k));
    }
    if s[i].start <= k < s[i].end {
        assert(covers_upto(s, i + 1, k));
    }
}

proof fn lemma_merge_extend(
    list: Seq<Range<usize>>,
    s: Seq<Range<usize>>,
    i: int,
    owner: Seq<int>,
    ssrc: Seq<int>,
    esrc: Seq<int>,
)
    requires
        merge_inv(list, s, i, owner, ssrc, esrc),
        i < s.len(),
        list[list.len() - 1].end >= s[i].start,
    ensures
        ({
            let m = list.len() - 1;
            let last = list[m];
            let end = if last.end >= s[i].end { last.end } else { s[i].end };
            merge_inv(
                list.update(m, Range { start: last.start, end: end }),
                s,
                i + 1,
                owner.push(m),
                ssrc,
                if end == s[i].end { esrc.update(m, i) } else { esrc },
            )
        }),
{
    reveal(merge_inv);
    let m = list.len() - 1;
    let last = list[m];
    let cur = s[i];
    let end = if last.end >= cur.end { last.end } else { cur.end };
    let nl = Range { start: last.start, end: end };
    let new_list = list.update(m, nl);
    let new_esrc = if end == s[i].end { esrc.update(m, i) } else { esrc };
    let new_owner = owner.push(m);
    assert(s[ssrc[m]].start <= s[i].start);
    assert forall|k: int| #![trigger covers(new_list, k)] covers(new_list, k) == covers_upto(s, i + 1, k) by {
        lemma_covers_push(list.take(m), last, k);
        lemma_covers_push(list.take(m), nl, k);
        assert(list == list.take(m).push(last));
        assert(new_list == list.take(m).push(nl));
        lemma_covers_upto_step(s, i, k);
        assert(covers(list, k) == covers_upto(s, i, k));
    }
    assert forall|t: int| 0 <= t < i + 1 implies 0 <= #[trigger] new_owner[t] < new_list.len() && within(s[t], new_list[new_owner[t]]) by {
        if t < i {
            assert(within(s[t], list[owner[t]]));
        }
    }
    assert forall|j: int| 0 <= j < new_list.len() implies 0 <= #[trigger] new_esrc[j] < i + 1 && s[new_esrc[j]].end == new_list[j].end by {
        assert(0 <= esrc[j] < i && s[esrc[j]].end == list[j].end);
    }
    assert forall|j: int| 0 <= j < new_list.len() implies 0 <= #[trigger] ssrc[j] < i + 1 && s[ssrc[j]].start == new_list[j].start by {
        assert(0 <= ssrc[j] < i && s[ssrc[j]].start == list[j].start);
    }
    assert forall|j: int| 0 <= j < new_list.len() implies #[trigger] new_list[j].start <= new_list[new_list.len() - 1].start by {
        assert(list[j].start <= list[m].start);
    }
    assert forall|a: int, b: int| 0 <= a < b < new_list.len() implies new_list[a].end < new_list[b].start by {
        assert(list[a].end < list[b].start);
    }
}

proof fn lemma_merge_push(
    list: Seq<Range<usize>>,
    s: Seq<Range<usize>>,
    i: int,
    owner: Seq<int>,
    ssrc: Seq<int>,
    esrc: Seq<int>,
)
    requires
        merge_inv(list, s, i, owner, ssrc, esrc),
        i < s.len(),
        list[list.len() - 1].end < s[i].start,
    ensures
        merge_inv(list.push(s[i]), s, i + 1, owner.push(list.len() as int), ssrc.push(i), esrc.push(i)),
{
    reveal(merge_inv);
    let m = list.len() - 1;
    let cur = s[i];
    let new_list = list.push(cur);
    let new_owner = owner.push(list.len() as int);
    let new_ssrc = ssrc.push(i);
    let new_esrc = esrc.push(i);
    assert(s[ssrc[m]].start <= s[i].start);
    assert forall|k: int| #![trigger covers(new_list, k)] covers(new_list, k) == covers_upto(s, i + 1, k) by {
        lemma_covers_push(list, cur, k);
        lemma_covers_upto_step(s, i, k);
        assert(covers(list, k) == covers_upto(s, i, k));
    }
    assert forall|t: int| 0 <= t < i + 1 implies 0 <= #[trigger] new_owner[t] < new_list.len() && within(s[t], new_list[new_owner[t]]) by {
        if t < i {
            assert(within(s[t], list[owner[t]]));
        }
    }
    assert forall|j: int| 0 <= j < new_list.len() implies 0 <= #[trigger] new_esrc[j] < i + 1 && s[new_esrc[j]].end == new_list[j].end by {
        if j < list.len() {
            assert(0 <= esrc[j] < i && s[esrc[j]].end == list[j].end);
        }
    }
    assert forall|j: int| 0 <= j < new_list.len() implies 0 <= #[trigger] new_ssrc[j] < i + 1 && s[new_ssrc[j]].start == new_list[j].start by {
        if j < list.len() {
            assert(0 <= ssrc[j] < i && s[ssrc[j]].start == list[j].start);
        }
    }
    assert forall|j: int| 0 <= j < new_list.len() implies #[trigger] new_list[j].start <= new_list[new_list.len() - 1].start by {
        if j <= m {
            assert(list[j].start <= list[m].start);
        }
    }
    assert forall|a: int, b: int| 0 <= a < b < new_list.len() implies new_list[a].end < new_list[b].start by {
        if b <= m {
            assert(list[a].end < list[b].start);
        } else if a < m {
            assert(list[a].end < list[m].start);
        }
    }
}

proof fn lemma_merge_done(list: Seq<Range<usize>>, s: Seq<Range<usize>>, owner: Seq<int>, ssrc: Seq<int>, esrc: Seq<int>)
    requires
        merge_inv(list, s, s.len() as int, owner, ssrc, esrc),
    ensures
        is_merge_of(list, s),
        sorted_by_start(list),
{
    reveal(merge_inv);
    assert forall|t: int| 0 <= t < s.len() implies within_some(#[trigger] s[t], list) by {
        assert(within(s[t], list[owner[t]]));
    }
    assert forall|j: int| 0 <= j < list.len() implies is_some_start(s, #[trigger] list[j].start) by {
        assert(s[ssrc[j]].start == list[j].start);
    }
    assert forall|j: int| 0 <= j < list.len() implies is_some_end(s, #[trigger] list[j].end) by {
        assert(s[esrc[j]].end == list[j].end);
    }
    assert forall|k: int| covers(list, k) == covers(s, k) by {
        assert(covers(list, k) == covers_upto(s, s.len() as int, k));
        if covers(s, k) {
            let t = choose|t: int| 0 <= t < s.len() && #[trigger] s[t].start <= k < s[t].end;
            assert(covers_upto(s, s.len() as int, k));
        }
    }
    assert(list.len() <= s.len());
    assert(strictly_separated(list));
    assert forall|a: int, b: int| 0 <= a < b < list.len() implies list[a].start <= list[b].start by {
        assert(ssrc[a] < ssrc[b]);
        assert(s[ssrc[a]].start == list[a].start && s[ssrc[b]].start == list[b].start);
    }
}

/// Whether `perm` maps each place of `r` to a distinct place of `v` that holds the same
/// range.
spec fn picks_distinct(r: Seq<Range<usize>>, v: Seq<Range<usize>>, perm: Seq<int>) -> bool {
    &&& perm.len() == r.len()
    &&& forall|a: int| 0 <= a < r.len() ==> 0 <= #[trigger] perm[a] < v.len() && r[a] == v[perm[a]]
    &&& forall|a: int, b: int| 0 <= a < b < r.len() ==> perm[a] != perm[b]
}

/// Orders the ranges by their start, keeping equal starts in their given order.
fn sort_by_start(v: Vec<Range<usize>>) -> (r: (Vec<Range<usize>>, Ghost<Seq<int>>))
    ensures
        sorted_by_start(r.0@),
        r.0@.to_multiset() == v@.to_multiset(),
        picks_distinct(r.0@, v@, r.1@),
{
    broadcast use vstd::seq_lib::group_to_multiset_ensures;
    let mut r: Vec<Range<usize>> = Vec::new();
    let ghost mut perm: Seq<int> = Seq::empty();
    let n = v.len();
    let mut i: usize = 0;
    while i < n
        invariant
            n == v@.len(),
            i <= n,
            sorted_by_start(r@),
            r@.to_multiset() == v@.take(i as int).to_multiset(),
            picks_distinct(r@, v@, perm),
            forall|a: int| 0 <= a < perm.len() ==> #[trigger] perm[a] < i,
        decreases n - i,
    {
        let x = Range { start: v[i].start, end: v[i].end };
        // Find the insertion point: after every range whose start is not greater.
        let mut j: usize = r.len();
        while j > 0 && r[j - 1].start > x.start
            invariant
                j <= r@.len(),
                sorted_by_start(r@),
                forall|k: int| j <= k < r@.len() ==> r@[k].start > x.start,
            decreases j,
        {
            j = j - 1;
        }
        let ghost before = r@;
        r.insert(j, x);
        proof {
            let old_perm = perm;
            perm = perm.insert(j as int, i as int);
            before.insert_ensures(j as int, x);
            old_perm.insert_ensures(j as int, i as int);
            assert forall|a: int| 0 <= a < r@.len() implies 0 <= #[trigger] perm[a] < v@.len() && r@[a] == v@[perm[a]]
                && perm[a] < i + 1 by {
                if a > j {
                    assert(r@[a] == before[a - 1] && perm[a] == old_perm[a - 1]);
                }
            }
            assert forall|a: int, b: int| 0 <= a < b < r@.len() implies perm[a] != perm[b] by {
                if b == j {
                    assert(old_perm[a] < i);
                } else if a == j {
                    assert(old_perm[b - 1] < i);
                } else if a > j {
                    assert(perm[a] == old_perm[a - 1] && perm[b] == old_perm[b - 1]);
                } else if b > j {
                    assert(perm[b] == old_perm[b - 1]);
                }
            }
            assert(v@.take(i + 1) == v@.take(i as int).push(v@[i as int]));
            assert(v@[i as int] == x);
            vstd::seq_lib::to_multiset_insert(before, j as int, x);
            vstd::seq_lib::to_multiset_build(v@.take(i as int), x);
            assert forall|a: int, b: int| 0 <= a < b < r@.len() implies r@[a].start <= r@[b].start by {
                if a < j && b == j {
                    if j > 0 {
                        assert(before[j - 1].start <= x.start);
                        assert(before[a].start <= before[j - 1].start);
                    }
                } else if a == j && b > j {
                    assert(before[b - 1].start > x.start);
                } else if a < j && b > j {
                    assert(before[a].start <= before[b - 1].start);
                } else if a > j {
                    assert(before[a - 1].start <= before[b - 1].start);
                }
            }
        }
        i = i + 1;
    }
    proof {
        assert(v@.take(n as int) == v@);
    }
    (r, Ghost(perm))
}

} // verus!
