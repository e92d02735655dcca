//! Zipping several sequences in parallel.
use vstd::prelude::*;

verus! {

/// Zips multiple sequences in parallel, such that the nth call of
/// [`ParallelZip::next`] yields all nth items of the parts.
#[derive(Debug)]
pub struct ParallelZip<T> {
    parts: Vec<Vec<T>>,
    positions: Vec<usize>,
}

/// Whether each part has an item left at its position.
pub open spec fn all_have_next<T>(parts: Seq<Seq<T>>, positions: Seq<usize>) -> bool {
    forall|i: int| 0 <= i < parts.len() ==> positions[i] < (#[trigger] parts[i]).len()
}

/// The first part that has no item left at its position (the number of parts if there
/// is none).
pub open spec fn first_exhausted<T>(parts: Seq<Seq<T>>, positions: Seq<usize>, from: int) -> int
    decreases parts.len() - from,
{
    if from >= parts.len() || from < 0 {
        parts.len() as int
    } else if positions[from] >= parts[from].len() {
        from
    } else {
        first_exhausted(parts, positions, from + 1)
    }
}

impl<T: Copy> ParallelZip<T> {
    /// The parts being zipped.
    pub closed spec fn parts(&self) -> Seq<Seq<T>> {
        self.parts@.map_values(|v: Vec<T>| v@)
    }

    /// How far each part has been read.
    pub closed spec fn positions(&self) -> Seq<usize> {
        self.positions@
    }

    /// Whether there is a position for each part, none past its end.
    pub closed spec fn wf(&self) -> bool {
        &&& self.positions@.len() == self.parts@.len()
        &&& forall|i: int| 0 <= i < self.parts@.len() ==> self.positions@[i] <= (#[trigger] self.parts@[i])@.len()
    }

    /// Zips `parts`, each read from its start.
    pub fn new(parts: Vec<Vec<T>>) -> (z: Self)
        ensures
            z.wf(),
            z.parts() == parts@.map_values(|v: Vec<T>| v@),
            z.positions() == Seq::new(parts@.len(), |i: int| 0usize),
    {
        let n = parts.len();
        let mut positions: Vec<usize> = Vec::new();
        let mut i: usize = 0;
        while i < n
            invariant
                i <= n,
                n == parts@.len(),
                positions@ == Seq::new(i as nat, |j: int| 0usize),
            decreases n - i,
        {
            positions.push(0);
            proof {
                assert(positions@ =~= Seq::new((i + 1) as nat, |j: int| 0usize));
            }
            i = i + 1;
        }
        ParallelZip { parts, positions }
    }

    /// The next items of all parts, in the order of the parts, each part moving on by
    /// one. Once some part has no item left, `None`: the parts before it have then moved
    /// on by one, it and those after it have not. With no parts at all, always
    /// `Some` of nothing.
    pub fn next(&mut self) -> (r: Option<Vec<T>>)
        requires
            old(self).wf(),
        ensures
            final(self).wf(),
            final(self).parts() == old(self).parts(),
            all_have_next(old(self).parts(), old(self).positions()) ==> {
                &&& r matches Some(items)
                &&& items@ == Seq::new(old(self).parts().len(), |i: int| old(self).parts()[i][old(self).positions()[i] as int])
                &&& final(self).positions() == Seq::new(old(self).positions().len(), |i: int| (old(self).positions()[i] + 1) as usize)
            },
            !all_have_next(old(self).parts(), old(self).positions()) ==> {
                let k = first_exhausted(old(self).parts(), old(self).positions(), 0);
                &&& r is None
                &&& final(self).positions() == Seq::new(
                    old(self).positions().len(),
                    |i: int| if i < k { (old(self).positions()[i] + 1) as usize } else { old(self).positions()[i] },
                )
            },
    {
        let ghost parts = self.parts();
        let ghost start = self.positions();
        let n = self.parts.len();
        let mut items: Vec<T> = Vec::new();
        let mut i: usize = 0;
        proof {
            lemma_first_exhausted(parts, start, 0);
        }
        while i < n
            invariant
                i <= n,
                n == self.parts@.len(),
                self.wf(),
                parts == self.parts(),
                parts == old(self).parts(),
                start == old(self).positions(),
                parts.len() == n,
                start.len() == n,
                forall|j: int| 0 <= j < i ==> start[j] < (#[trigger] parts[j]).len(),
                items@ == Seq::new(i as nat, |j: int| parts[j][start[j] as int]),
                self.positions() == Seq::new(n as nat, |j: int| if j < i { (start[j] + 1) as usize } else { start[j] }),
                first_exhausted(parts, start, 0) == first_exhausted(parts, start, i as int),
            decreases n - i,
        {
            let p = self.positions[i];
            assert(parts[i as int] == self.parts@[i as int]@);
            if p >= self.parts[i].len() {
                proof {
                    assert(first_exhausted(parts, start, i as int) == i);
                    assert(self.positions() =~= Seq::new(n as nat, |j: int| if j < first_exhausted(parts, start, 0) { (start[j] + 1) as usize } else { start[j] }));
                }
                return None;
            }
            items.push(self.parts[i][p]);
            self.positions.set(i, p + 1);
            proof {
                assert(items@ =~= Seq::new((i + 1) as nat, |j: int| parts[j][start[j] as int]));
                assert(self.positions() =~= Seq::new(n as nat, |j: int| if j < i + 1 { (start[j] + 1) as usize } else { start[j] }));
                assert(first_exhausted(parts, start, i as int) == first_exhausted(parts, start, i + 1));
            }
            i = i + 1;
        }
        proof {
            assert(self.positions() =~= Seq::new(n as nat, |j: int| (start[j] + 1) as usize));
        }
        Some(items)
    }
}

proof fn lemma_first_exhausted<T>(parts: Seq<Seq<T>>, positions: Seq<usize>, from: int)
    requires
        0 <= from <= parts.len(),
        positions.len() == parts.len(),
    ensures
        from <= first_exhausted(parts, positions, from) <= parts.len(),
        first_exhausted(parts, positions, from) < parts.len() ==> positions[first_exhausted(parts, positions, from)]
            >= parts[first_exhausted(parts, positions, from)].len(),
        forall|j: int| from <= j < first_exhausted(parts, positions, from) ==> positions[j] < (#[trigger] parts[j]).len(),
    decreases parts.len() - from,
{
    if from < parts.len() && positions[from] < parts[from].len() {
        lemma_first_exhausted(parts, positions, from + 1);
    }
}

/// Zipping in parallel: what can be split into parts that are then zipped.
pub trait ParallelZipExt<T: Copy>: Sized {
    /// The parts that are zipped.
    spec fn zip_parts(&self) -> Seq<Seq<T>>;

    /// Zips the parts in parallel, each read from its start.
    fn parallel_zip(self) -> (z: ParallelZip<T>)
        ensures
            z.wf(),
            z.parts() == self.zip_parts(),
            z.positions() == Seq::new(self.zip_parts().len(), |i: int| 0usize),
    ;
}

impl<T: Copy> ParallelZipExt<T> for Vec<Vec<T>> {
    open spec fn zip_parts(&self) -> Seq<Seq<T>> {
        self@.map_values(|v: Vec<T>| v@)
    }

    fn parallel_zip(self) -> (z: ParallelZip<T>) {
        ParallelZip::new(self)
    }
}

} // verus!
