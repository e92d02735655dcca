//! Power sets.
use vstd::prelude::*;

verus! {

/// All ways to choose `k` items of `s`, keeping their order, listed in lexicographic
/// order of the chosen positions.
pub open spec fn combinations<T>(s: Seq<T>, k: nat) -> Seq<Seq<T>>
    decreases s.len(),
{
    if k == 0 {
        seq![Seq::empty()]
    } else if s.len() == 0 {
        Seq::empty()
    } else {
        combinations(s.drop_first(), (k - 1) as nat).map_values(|c: Seq<T>| seq![s[0]] + c)
            + combinations(s.drop_first(), k)
    }
}

/// The combinations of `s` of each size from `k` up to the length of `s`, the smaller
/// sizes first.
pub open spec fn subsets_from<T>(s: Seq<T>, k: nat) -> Seq<Seq<T>>
    decreases s.len() + 1 - k,
{
    if k > s.len() {
        Seq::empty()
    } else {
        combinations(s, k) + subsets_from(s, k + 1)
    }
}

/// The power set of `s`: the combinations of every size, the smaller sizes first, the
/// empty one included or not.
pub open spec fn power_set_of<T>(s: Seq<T>, include_empty_set: bool) -> Seq<Seq<T>> {
    subsets_from(s, if include_empty_set { 0 } else { 1 })
}

/// The power set with the empty set is the empty set followed by the power set without
/// it.
pub proof fn lemma_power_set_empty_first<T>(s: Seq<T>)
    ensures
        power_set_of(s, true) == seq![Seq::<T>::empty()] + power_set_of(s, false),
{
    assert(combinations(s, 0) == seq![Seq::<T>::empty()]);
}

proof fn lemma_subsets_from_len<T>(s: Seq<T>, k: nat)
    requires
        s.len() > 0,
        k >= 1,
    ensures
        subsets_from(s, k).len() == subsets_from(s.drop_first(), (k - 1) as nat).len() + subsets_from(
            s.drop_first(),
            k,
        ).len(),
    decreases s.len() + 1 - k,
{
    let t = s.drop_first();
    if k <= s.len() {
        lemma_subsets_from_len(s, k + 1);
        assert(combinations(s, k).len() == combinations(t, (k - 1) as nat).len() + combinations(t, k).len());
        if k > t.len() {
            assert(subsets_from(t, k + 1).len() == 0);
            assert(combinations(t, k).len() == 0) by {
                lemma_combinations_too_many(t, k);
            }
        }
    }
}

proof fn lemma_combinations_too_many<T>(s: Seq<T>, k: nat)
    requires
        k > s.len(),
    ensures
        combinations(s, k).len() == 0,
    decreases s.len(),
{
    if s.len() > 0 {
        lemma_combinations_too_many(s.drop_first(), (k - 1) as nat);
        lemma_combinations_too_many(s.drop_first(), k);
    }
}

/// The power set of `s`, the empty set included, has two to the power of the length of
/// `s` members.
pub proof fn lemma_power_set_len<T>(s: Seq<T>)
    ensures
        power_set_of(s, true).len() == vstd::arithmetic::power2::pow2(s.len()),
    decreases s.len(),
{
    if s.len() == 0 {
        assert(subsets_from(s, 1).len() == 0);
        vstd::arithmetic::power2::lemma2_to64();
    } else {
        let t = s.drop_first();
        vstd::arithmetic::power2::lemma_pow2_unfold(s.len());
        lemma_power_set_len(t);
        lemma_subsets_from_len(s, 1);
        assert(combinations(s, 0).len() == 1);
        assert(combinations(t, 0).len() == 1);
        assert(subsets_from(t, 0).len() == 1 + subsets_from(t, 1).len());
    }
}

/// Whether `r` lists, in order, the power set of `s` (see [`power_set_of`]).
pub open spec fn lists_power_set<T>(r: Seq<Vec<T>>, s: Seq<T>, include_empty_set: bool) -> bool {
    &&& r.len() == power_set_of(s, include_empty_set).len()
    &&& forall|i: int| 0 <= i < r.len() ==> #[trigger] r[i]@ == power_set_of(s, include_empty_set)[i]
}

/// A vector holding the items of `s`, in order.
pub fn copied<T: Copy>(s: &[T]) -> (v: Vec<T>)
    ensures
        v@ == s@,
{
    let mut v: Vec<T> = Vec::new();
    let n = s.len();
    let mut i: usize = 0;
    while i < n
        invariant
            i <= n,
            n == s@.len(),
            v@ == s@.take(i as int),
        decreases n - i,
    {
        v.push(s[i]);
        proof {
            assert(s@.take(i as int).push(s@[i as int]) =~= s@.take(i + 1));
        }
        i = i + 1;
    }
    proof {
        assert(s@.take(n as int) =~= s@);
    }
    v
}

/// The combinations of `k` items of `s` from position `from` on.
fn combinations_from<T: Copy>(s: &Vec<T>, from: usize, k: usize) -> (r: Vec<Vec<T>>)
    requires
        from <= s@.len(),
    ensures
        r@.len() == combinations(s@.skip(from as int), k as nat).len(),
        forall|i: int| 0 <= i < r@.len() ==> #[trigger] r@[i]@ == combinations(s@.skip(from as int), k as nat)[i],
    decreases s@.len() - from,
{
    let ghost rest = s@.skip(from as int);
    if k == 0 {
        let mut r: Vec<Vec<T>> = Vec::new();
        r.push(Vec::new());
        proof {
            assert(r@[0]@ =~= Seq::<T>::empty());
        }
        return r;
    }
    if from == s.len() {
        proof {
            assert(rest.len() == 0);
        }
        return Vec::new();
    }
    let x = s[from];
    proof {
        assert(rest[0] == x);
        assert(rest.drop_first() =~= s@.skip(from + 1));
    }
    let with = combinations_from(s, from + 1, k - 1);
    let without = combinations_from(s, from + 1, k);
    let ghost cw = combinations(rest.drop_first(), (k - 1) as nat);
    let ghost cwo = combinations(rest.drop_first(), k as nat);
    let ghost whole = combinations(rest, k as nat);
    proof {
        assert(whole == cw.map_values(|c: Seq<T>| seq![rest[0]] + c) + cwo);
    }
    let mut r: Vec<Vec<T>> = Vec::new();
    let mut i: usize = 0;
    while i < with.len()
        invariant
            i <= with@.len(),
            with@.len() == cw.len(),
            forall|j: int| 0 <= j < with@.len() ==> #[trigger] with@[j]@ == cw[j],
            r@.len() == i,
            x == rest[0],
            forall|j: int| 0 <= j < i ==> #[trigger] r@[j]@ == seq![x] + cw[j],
        decreases with@.len() - i,
    {
        let c = &with[i];
        let mut v: Vec<T> = Vec::new();
        v.push(x);
        let mut j: usize = 0;
        while j < c.len()
            invariant
                j <= c@.len(),
                v@ == seq![x] + c@.take(j as int),
            decreases c@.len() - j,
        {
            v.push(c[j]);
            proof {
                assert(seq![x] + c@.take(j as int).push(c@[j as int]) =~= seq![x] + c@.take(j + 1));
            }
            j = j + 1;
        }
        proof {
            assert(c@.take(c@.len() as int) =~= c@);
        }
        r.push(v);
        i = i + 1;
    }
    let mut i: usize = 0;
    let ghost base = r@;
    while i < without.len()
        invariant
            i <= without@.len(),
            without@.len() == cwo.len(),
            forall|j: int| 0 <= j < without@.len() ==> #[trigger] without@[j]@ == cwo[j],
            r@.len() == base.len() + i,
            forall|j: int| 0 <= j < base.len() ==> #[trigger] r@[j] == base[j],
            forall|j: int| 0 <= j < i ==> #[trigger] r@[base.len() + j]@ == cwo[j],
        decreases without@.len() - i,
    {
        let mut v: Vec<T> = Vec::new();
        let c = &without[i];
        let mut j: usize = 0;
        while j < c.len()
            invariant
                j <= c@.len(),
                v@ == c@.take(j as int),
            decreases c@.len() - j,
        {
            v.push(c[j]);
            proof {
                assert(c@.take(j as int).push(c@[j as int]) =~= c@.take(j + 1));
            }
            j = j + 1;
        }
        proof {
            assert(c@.take(c@.len() as int) =~= c@);
        }
        r.push(v);
        proof {
            assert(r@[base.len() + i]@ == cwo[i as int]);
        }
        i = i + 1;
    }
    proof {
        assert forall|j: int| 0 <= j < r@.len() implies #[trigger] r@[j]@ == whole[j] by {
            if j < cw.len() {
                assert(r@[j] == base[j]);
            } else {
                assert(r@[base.len() + (j - cw.len())]@ == cwo[j - cw.len()]);
            }
        }
    }
    r
}

/// The power set of `collection`: all its combinations, listed by size (the smaller
/// first) and, within a size, in lexicographic order of the chosen positions. The empty
/// combination is included if `include_empty_set` is set.
pub fn power_set<T: Copy>(collection: Vec<T>, include_empty_set: bool) -> (r: Vec<Vec<T>>)
    requires
        collection@.len() < usize::BITS,
    ensures
        lists_power_set(r@, collection@, include_empty_set),
{
    let n = collection.len();
    let start: usize = if include_empty_set { 0 } else { 1 };
    let mut result: Vec<Vec<T>> = Vec::new();
    let mut k: usize = start;
    proof {
        assert(collection@.skip(0) =~= collection@);
    }
    while k <= n
        invariant
            start <= k <= n + 1,
            n == collection@.len(),
            n < usize::BITS,
            result@.len() + subsets_from(collection@, k as nat).len() == subsets_from(collection@, start as nat).len(),
            forall|i: int| 0 <= i < result@.len() ==> #[trigger] result@[i]@ == subsets_from(collection@, start as nat)[i],
            forall|i: int| 0 <= i < subsets_from(collection@, k as nat).len() ==>
                subsets_from(collection@, start as nat)[result@.len() + i] == #[trigger] subsets_from(collection@, k as nat)[i],
        decreases n + 1 - k,
    {
        let combos = combinations_from(&collection, 0, k);
        let ghost cs = combinations(collection@, k as nat);
        let ghost rest_before = subsets_from(collection@, k as nat);
        proof {
            assert(collection@.skip(0) =~= collection@);
            assert(rest_before == cs + subsets_from(collection@, (k + 1) as nat));
        }
        let ghost base = result@;
        let mut i: usize = 0;
        while i < combos.len()
            invariant
                i <= combos@.len(),
                combos@.len() == cs.len(),
                forall|j: int| 0 <= j < combos@.len() ==> #[trigger] combos@[j]@ == cs[j],
                result@.len() == base.len() + i,
                forall|j: int| 0 <= j < base.len() ==> #[trigger] result@[j] == base[j],
                forall|j: int| 0 <= j < i ==> #[trigger] result@[base.len() + j]@ == cs[j],
            decreases combos@.len() - i,
        {
            let mut v: Vec<T> = Vec::new();
            let c = &combos[i];
            let mut j: usize = 0;
            while j < c.len()
                invariant
                    j <= c@.len(),
                    v@ == c@.take(j as int),
                decreases c@.len() - j,
            {
                v.push(c[j]);
                proof {
                    assert(c@.take(j as int).push(c@[j as int]) =~= c@.take(j + 1));
                }
                j = j + 1;
            }
            proof {
                assert(c@.take(c@.len() as int) =~= c@);
            }
            result.push(v);
            proof {
                assert(result@[base.len() + i]@ == cs[i as int]);
            }
            i = i + 1;
        }
        proof {
            let whole = subsets_from(collection@, start as nat);
            let next = subsets_from(collection@, (k + 1) as nat);
            assert forall|j: int| 0 <= j < result@.len() implies #[trigger] result@[j]@ == whole[j] by {
                if j < base.len() {
                    assert(result@[j] == base[j]);
                } else {
                    let q = j - base.len();
                    assert(result@[base.len() + q]@ == cs[q]);
                    assert(rest_before[q] == cs[q]);
                }
            }
            assert forall|q: int| 0 <= q < next.len() implies whole[result@.len() + q] == #[trigger] next[q] by {
                assert(rest_before[cs.len() + q] == next[q]);
            }
        }
        k = k + 1;
    }
    result
}

} // verus!
