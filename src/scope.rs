use vstd::prelude::*;

verus! {

/// One step into a structurally distinct branch of a term: one side of a
/// binary construct, or one of several alternatives.
#[derive(Debug, Clone, Copy, PartialEq, Eq, Structural, Hash)]
pub enum ScopeId {
    Left,
    Right,
    Choice(usize),
}

/// Exact comparison of two scope paths, step by step.
pub fn same_path(a: &Vec<ScopeId>, b: &Vec<ScopeId>) -> (r: bool)
    ensures
        r == (a@ == b@),
{
    if a.len() != b.len() {
        return false;
    }
    let mut i: usize = 0;
    while i < a.len()
        invariant
            a@.len() == b@.len(),
            i <= a@.len(),
            forall|j: int| 0 <= j < i ==> a@[j] == b@[j],
        decreases a@.len() - i,
    {
        if a[i] != b[i] {
            return false;
        }
        i += 1;
    }
    assert(a@ =~= b@);
    true
}

/// The first `end` steps of a scope path.
pub fn path_prefix(a: &Vec<ScopeId>, end: usize) -> (r: Vec<ScopeId>)
    requires
        end <= a@.len(),
    ensures
        r@ == a@.subrange(0, end as int),
{
    let mut r: Vec<ScopeId> = Vec::new();
    let mut i: usize = 0;
    while i < end
        invariant
            i <= end,
            end <= a@.len(),
            r@ == a@.subrange(0, i as int),
        decreases end - i,
    {
        r.push(a[i]);
        i += 1;
        assert(r@ =~= a@.subrange(0, i as int));
    }
    r
}

/// Whether `p` is a prefix of `q` (every path is a prefix of itself).
pub open spec fn is_prefix(p: Seq<ScopeId>, q: Seq<ScopeId>) -> bool {
    p.len() <= q.len() && q.subrange(0, p.len() as int) == p
}

/// The item ids recorded at one exact scope path, in the order of recording.
pub struct ScopeEntry {
    pub path: Vec<ScopeId>,
    pub ids: Vec<usize>,
}

/// Map from an exact scope path to the ids of the items recorded there.
pub struct ScopeIndex {
    pub entries: Vec<ScopeEntry>,
}

/// The ids listed at `p` by the last entry whose path is `p`; empty if none.
pub open spec fn ids_in(entries: Seq<ScopeEntry>, p: Seq<ScopeId>) -> Seq<usize>
    decreases entries.len(),
{
    if entries.len() == 0 {
        Seq::empty()
    } else if entries.last().path@ == p {
        entries.last().ids@
    } else {
        ids_in(entries.drop_last(), p)
    }
}

proof fn lemma_ids_in_absent(entries: Seq<ScopeEntry>, p: Seq<ScopeId>)
    requires
        forall|i: int| 0 <= i < entries.len() ==> entries[i].path@ != p,
    ensures
        ids_in(entries, p) == Seq::<usize>::empty(),
    decreases entries.len(),
{
    if entries.len() > 0 {
        lemma_ids_in_absent(entries.drop_last(), p);
    }
}

proof fn lemma_ids_in_at(entries: Seq<ScopeEntry>, i: int)
    requires
        0 <= i < entries.len(),
        forall|j: int| 0 <= j < entries.len() && j != i ==> entries[j].path@ != entries[i].path@,
    ensures
        ids_in(entries, entries[i].path@) == entries[i].ids@,
    decreases entries.len(),
{
    if i < entries.len() - 1 {
        lemma_ids_in_at(entries.drop_last(), i);
    }
}

proof fn lemma_ids_in_update(entries: Seq<ScopeEntry>, i: int, e: ScopeEntry, p: Seq<ScopeId>)
    requires
        0 <= i < entries.len(),
        e.path@ == entries[i].path@,
        p != e.path@,
    ensures
        ids_in(entries.update(i, e), p) == ids_in(entries, p),
    decreases entries.len(),
{
    if entries.len() > 0 {
        if i < entries.len() - 1 {
            assert(entries.update(i, e).drop_last() =~= entries.drop_last().update(i, e));
            lemma_ids_in_update(entries.drop_last(), i, e, p);
        } else {
            assert(entries.update(i, e).drop_last() =~= entries.drop_last());
        }
    }
}

impl ScopeIndex {
    /// No two entries share a path.
    pub open spec fn wf(&self) -> bool {
        forall|i: int, j: int|
            0 <= i < self.entries@.len() && 0 <= j < self.entries@.len() && i != j
                ==> self.entries@[i].path@ != self.entries@[j].path@
    }

    /// The ids recorded at exactly `p`.
    pub open spec fn ids_at(&self, p: Seq<ScopeId>) -> Seq<usize> {
        ids_in(self.entries@, p)
    }

    pub fn new() -> (r: ScopeIndex)
        ensures
            r.wf(),
            forall|p: Seq<ScopeId>| r.ids_at(p) == Seq::<usize>::empty(),
    {
        ScopeIndex { entries: Vec::new() }
    }

    /// Appends `id` to the list at exactly `path`, creating the list if absent.
    pub fn record(&mut self, path: &Vec<ScopeId>, id: usize)
        requires
            old(self).wf(),
        ensures
            final(self).wf(),
            forall|p: Seq<ScopeId>|
                #[trigger] final(self).ids_at(p) == if p == path@ {
                    old(self).ids_at(p).push(id)
                } else {
                    old(self).ids_at(p)
                },
    {
        let mut i: usize = 0;
        while i < self.entries.len()
            invariant
                self.wf(),
                self.entries@ == old(self).entries@,
                i <= self.entries@.len(),
                forall|j: int| 0 <= j < i ==> self.entries@[j].path@ != path@,
            decreases self.entries@.len() - i,
        {
            if same_path(&self.entries[i].path, path) {
                let ghost before = self.entries@;
                proof {
                    lemma_ids_in_at(before, i as int);
                }
                self.entries[i].ids.push(id);
                proof {
                    let e = self.entries@[i as int];
                    assert(self.entries@ =~= before.update(i as int, e));
                    lemma_ids_in_at(self.entries@, i as int);
                    assert forall|p: Seq<ScopeId>| p != path@ implies #[trigger] ids_in(
                        self.entries@,
                        p,
                    ) == ids_in(before, p) by {
                        lemma_ids_in_update(before, i as int, e, p);
                    }
                }
                return;
            }
            i += 1;
        }
        let ghost before = self.entries@;
        proof {
            lemma_ids_in_absent(before, path@);
        }
        let mut ids: Vec<usize> = Vec::new();
        ids.push(id);
        let p = path_prefix(path, path.len());
        assert(p@ =~= path@);
        self.entries.push(ScopeEntry { path: p, ids });
        assert(self.entries@.drop_last() =~= before);
        assert(ids_in(self.entries@, path@) =~= Seq::<usize>::empty().push(id));
        assert forall|q: Seq<ScopeId>| q != path@ implies #[trigger] ids_in(self.entries@, q) == ids_in(
            before,
            q,
        ) by {}
    }

    /// The ids recorded at exactly `path`; empty if none.
    pub fn items_at(&self, path: &Vec<ScopeId>) -> (r: Vec<usize>)
        requires
            self.wf(),
        ensures
            r@ == self.ids_at(path@),
    {
        let mut i: usize = 0;
        while i < self.entries.len()
            invariant
                self.wf(),
                i <= self.entries@.len(),
                forall|j: int| 0 <= j < i ==> self.entries@[j].path@ != path@,
            decreases self.entries@.len() - i,
        {
            if same_path(&self.entries[i].path, path) {
                proof {
                    lemma_ids_in_at(self.entries@, i as int);
                }
                let src = &self.entries[i].ids;
                let mut out: Vec<usize> = Vec::new();
                let mut k: usize = 0;
                while k < src.len()
                    invariant
                        k <= src@.len(),
                        out@ == src@.subrange(0, k as int),
                    decreases src@.len() - k,
                {
                    out.push(src[k]);
                    k += 1;
                    assert(out@ =~= src@.subrange(0, k as int));
                }
                assert(out@ =~= src@);
                return out;
            }
            i += 1;
        }
        proof {
            lemma_ids_in_absent(self.entries@, path@);
        }
        Vec::new()
    }
}

} // verus!
