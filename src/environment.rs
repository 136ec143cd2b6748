use vstd::prelude::*;

verus! {

/// One name bound to the id of the item that declares it.
pub struct Binding {
    pub name: String,
    pub id: usize,
}

/// The id bound to `name` by the latest binding of it; `None` if unbound.
pub open spec fn lookup_in(bindings: Seq<Binding>, name: Seq<char>) -> Option<usize>
    decreases bindings.len(),
{
    if bindings.len() == 0 {
        None
    } else if bindings.last().name@ == name {
        Some(bindings.last().id)
    } else {
        lookup_in(bindings.drop_last(), name)
    }
}

/// Identifier environment: for each name, the nearest active declaration.
pub struct Environment {
    pub bindings: Vec<Binding>,
}

impl Environment {
    pub open spec fn lookup(&self, name: Seq<char>) -> Option<usize> {
        lookup_in(self.bindings@, name)
    }

    pub fn new() -> (r: Environment)
        ensures
            forall|n: Seq<char>| r.lookup(n) == None::<usize>,
    {
        Environment { bindings: Vec::new() }
    }

    pub fn get(&self, name: &String) -> (r: Option<usize>)
        ensures
            r == self.lookup(name@),
    {
        let mut i: usize = self.bindings.len();
        assert(self.bindings@.subrange(0, i as int) =~= self.bindings@);
        while i > 0
            invariant
                i <= self.bindings@.len(),
                lookup_in(self.bindings@, name@) == lookup_in(self.bindings@.subrange(0, i as int), name@),
            decreases i,
        {
            let ghost pre = self.bindings@.subrange(0, i as int);
            assert(pre.drop_last() =~= self.bindings@.subrange(0, i - 1));
            if self.bindings[i - 1].name == *name {
                return Some(self.bindings[i - 1].id);
            }
            i -= 1;
        }
        None
    }

    /// Binds `name` to `id` in this environment only.
    pub fn insert(&mut self, name: String, id: usize)
        ensures
            forall|n: Seq<char>|
                #[trigger] final(self).lookup(n) == if n == name@ {
                    Some(id)
                } else {
                    old(self).lookup(n)
                },
    {
        let ghost before = self.bindings@;
        self.bindings.push(Binding { name, id });
        assert(self.bindings@.drop_last() =~= before);
    }

    /// An independent copy: later bindings in either are not seen by the other.
    pub fn fork(&self) -> (r: Environment)
        ensures
            r.bindings@.len() == self.bindings@.len(),
            forall|n: Seq<char>| #[trigger] r.lookup(n) == self.lookup(n),
    {
        let mut out: Vec<Binding> = Vec::new();
        let mut i: usize = 0;
        while i < self.bindings.len()
            invariant
                i <= self.bindings@.len(),
                out@.len() == i,
                forall|j: int|
                    0 <= j < i ==> #[trigger] out@[j].name@ == self.bindings@[j].name@ && out@[j].id
                        == self.bindings@[j].id,
            decreases self.bindings@.len() - i,
        {
            out.push(Binding { name: self.bindings[i].name.clone(), id: self.bindings[i].id });
            i += 1;
        }
        let r = Environment { bindings: out };
        assert forall|n: Seq<char>| #[trigger] r.lookup(n) == self.lookup(n) by {
            lemma_lookup_same(r.bindings@, self.bindings@, n);
        }
        r
    }
}

proof fn lemma_lookup_same(a: Seq<Binding>, b: Seq<Binding>, n: Seq<char>)
    requires
        a.len() == b.len(),
        forall|j: int| 0 <= j < a.len() ==> #[trigger] a[j].name@ == b[j].name@ && a[j].id == b[j].id,
    ensures
        lookup_in(a, n) == lookup_in(b, n),
    decreases a.len(),
{
    if a.len() > 0 {
        lemma_lookup_same(a.drop_last(), b.drop_last(), n);
    }
}

} // verus!
