use vstd::prelude::*;

use crate::environment::Environment;
use crate::position::TermPos;
use crate::scope::{ScopeId, ScopeIndex};

verus! {

/// A linearization in one of its two phases: `Building` while a typechecking
/// pass records items, `Completed` once the items are sorted and resolved.
pub struct Linearization<S> {
    pub state: S,
}

/// The phase in which items are recorded into `resource`.
pub struct Building<T> {
    pub resource: T,
}

/// The queryable phase: items sorted by position, each with a resolved type.
pub struct Completed<R> {
    /// Items in ascending `(file, offset)` order.
    pub lin: Vec<LinearizationItem<R>>,
    /// For each discovery id, the index of its item in `lin`.
    pub id_mapping: Vec<usize>,
    /// The scope index, as it was built.
    pub scope_mapping: ScopeIndex,
}

/// What an item means for identifiers.
pub enum TermKind {
    Structure,
    /// A binding of a name, with the ids of its usages in discovery order.
    Declaration(String, Vec<usize>),
    /// A reference to a name, with the id of its declaration when it has one.
    Usage(Option<usize>),
}

/// One recorded term, with a placeholder type while building and a resolved
/// type once completed.
pub struct LinearizationItem<T> {
    pub id: usize,
    pub pos: TermPos,
    pub ty: T,
    pub kind: TermKind,
    pub scope: Vec<ScopeId>,
}

/// The shape of a visited node, as far as the linearization reads it.
pub enum Term {
    /// A binding of a name; the position is that of the bound definition.
    Let(String, TermPos),
    /// A reference to a name.
    Var(String),
    /// Any other node.
    Other,
}

pub enum KindView {
    Structure,
    Declaration(Seq<char>, Seq<usize>),
    Usage(Option<usize>),
}

pub struct ItemView<T> {
    pub id: usize,
    pub pos: TermPos,
    pub ty: T,
    pub kind: KindView,
    pub scope: Seq<ScopeId>,
}

impl View for TermKind {
    type V = KindView;

    open spec fn view(&self) -> KindView {
        match self {
            TermKind::Structure => KindView::Structure,
            TermKind::Declaration(n, us) => KindView::Declaration(n@, us@),
            TermKind::Usage(d) => KindView::Usage(*d),
        }
    }
}

impl<T> View for LinearizationItem<T> {
    type V = ItemView<T>;

    open spec fn view(&self) -> ItemView<T> {
        ItemView { id: self.id, pos: self.pos, ty: self.ty, kind: self.kind@, scope: self.scope@ }
    }
}

pub open spec fn items_view<T>(s: Seq<LinearizationItem<T>>) -> Seq<ItemView<T>> {
    s.map_values(|x: LinearizationItem<T>| x@)
}

/// The usage list of a declaration; empty for other kinds.
pub open spec fn usages_of(k: KindView) -> Seq<usize> {
    match k {
        KindView::Declaration(_, us) => us,
        _ => Seq::empty(),
    }
}

/// The declaration a usage resolved to; `None` for other kinds.
pub open spec fn target_of(k: KindView) -> Option<usize> {
    match k {
        KindView::Usage(d) => d,
        _ => None,
    }
}

/// Ids of the items recorded at exactly scope `p`, in discovery order.
pub open spec fn scope_ids<T>(s: Seq<ItemView<T>>, p: Seq<ScopeId>) -> Seq<usize>
    decreases s.len(),
{
    if s.len() == 0 {
        Seq::empty()
    } else if s.last().scope == p {
        scope_ids(s.drop_last(), p).push((s.len() - 1) as usize)
    } else {
        scope_ids(s.drop_last(), p)
    }
}

/// The discovery-order store is consistent: ids are the indices, every item
/// has a position, and usages and their declarations point at each other.
pub open spec fn items_wf<T>(s: Seq<ItemView<T>>) -> bool {
    &&& forall|i: int| 0 <= i < s.len() ==> (#[trigger] s[i]).id == i && s[i].pos.is_present()
    &&& forall|i: int|
        0 <= i < s.len() && (#[trigger] target_of(s[i].kind)) is Some ==> {
            let d = target_of(s[i].kind)->0 as int;
            &&& d < i
            &&& s[d].kind is Declaration
            &&& usages_of(s[d].kind).contains(i as usize)
        }
    &&& forall|d: int, k: int|
        0 <= d < s.len() && 0 <= k < usages_of(s[d].kind).len() ==> {
            let u = #[trigger] usages_of(s[d].kind)[k] as int;
            &&& d < u < s.len()
            &&& target_of(s[u].kind) == Some(d as usize)
        }
    &&& forall|d: int, k1: int, k2: int|
        0 <= d < s.len() && 0 <= k1 < k2 < usages_of(s[d].kind).len() ==> #[trigger] usages_of(
            s[d].kind,
        )[k1] < #[trigger] usages_of(s[d].kind)[k2]
}

/// The items recorded so far, in discovery order, and where each was recorded.
pub struct BuildingResource<U> {
    pub linearization: Vec<LinearizationItem<U>>,
    pub scope: ScopeIndex,
}

impl<U> BuildingResource<U> {
    pub open spec fn items(&self) -> Seq<ItemView<U>> {
        items_view(self.linearization@)
    }

    pub open spec fn wf(&self) -> bool {
        &&& items_wf(self.items())
        &&& self.scope.wf()
        &&& forall|p: Seq<ScopeId>| #[trigger] self.scope.ids_at(p) == scope_ids(self.items(), p)
    }

    pub fn new() -> (r: BuildingResource<U>)
        ensures
            r.wf(),
            r.items().len() == 0,
    {
        let r = BuildingResource { linearization: Vec::new(), scope: ScopeIndex::new() };
        assert(r.items() =~= Seq::<ItemView<U>>::empty());
        r
    }
}

impl Linearization<()> {
    pub fn completed<R>(completed: Completed<R>) -> (r: Linearization<Completed<R>>)
        ensures
            r.state == completed,
    {
        Linearization { state: completed }
    }

    /// A fresh linearization with nothing recorded yet.
    pub fn building<U>() -> (r: Linearization<Building<BuildingResource<U>>>)
        ensures
            r.state.resource.wf(),
            r.state.resource.items().len() == 0,
    {
        Linearization { state: Building { resource: BuildingResource::new() } }
    }
}

/// `s` with `u` appended to the usage list of item `d`, when that item is a
/// declaration.
pub open spec fn backlinked<T>(s: Seq<ItemView<T>>, d: usize, u: usize) -> Seq<ItemView<T>> {
    match s[d as int].kind {
        KindView::Declaration(name, us) => s.update(
            d as int,
            ItemView { kind: KindView::Declaration(name, us.push(u)), ..s[d as int] },
        ),
        _ => s,
    }
}

/// The position recorded for a binding: that of its definition, or the
/// binding's own when the definition has none.
pub open spec fn decl_pos(pos: TermPos, def_pos: TermPos) -> TermPos {
    if def_pos.is_present() {
        def_pos
    } else {
        pos
    }
}

/// The store after recording `term`, seen at `pos` with type `ty`, in scope
/// `scope` with the identifiers of `env` visible.
pub open spec fn after_term<T>(
    s: Seq<ItemView<T>>,
    term: Term,
    pos: TermPos,
    ty: T,
    scope: Seq<ScopeId>,
    env: Environment,
) -> Seq<ItemView<T>> {
    let n = s.len() as usize;
    if !pos.is_present() {
        s
    } else {
        match term {
            Term::Let(name, def_pos) => s.push(
                ItemView {
                    id: n,
                    pos: decl_pos(pos, def_pos),
                    ty,
                    kind: KindView::Declaration(name@, Seq::empty()),
                    scope,
                },
            ),
            Term::Var(name) => {
                let parent = env.lookup(name@);
                let base = match parent {
                    Some(d) => backlinked(s, d, n),
                    None => s,
                };
                base.push(ItemView { id: n, pos, ty, kind: KindView::Usage(parent), scope })
            },
            Term::Other => s.push(ItemView { id: n, pos, ty, kind: KindView::Structure, scope }),
        }
    }
}

proof fn lemma_scope_ids_same<T, V>(a: Seq<ItemView<T>>, b: Seq<ItemView<V>>, p: Seq<ScopeId>)
    requires
        a.len() == b.len(),
        forall|i: int| 0 <= i < a.len() ==> #[trigger] a[i].scope == b[i].scope,
    ensures
        scope_ids(a, p) == scope_ids(b, p),
    decreases a.len(),
{
    if a.len() > 0 {
        lemma_scope_ids_same(a.drop_last(), b.drop_last(), p);
    }
}

proof fn lemma_scope_ids_push_all<T>(a: Seq<ItemView<T>>, b: Seq<ItemView<T>>)
    requires
        b.len() == a.len() + 1,
        forall|i: int| 0 <= i < a.len() ==> #[trigger] a[i].scope == b[i].scope,
    ensures
        forall|p: Seq<ScopeId>|
            #[trigger] scope_ids(b, p) == if p == b.last().scope {
                scope_ids(a, p).push(a.len() as usize)
            } else {
                scope_ids(a, p)
            },
{
    assert forall|p: Seq<ScopeId>|
        #[trigger] scope_ids(b, p) == if p == b.last().scope {
            scope_ids(a, p).push(a.len() as usize)
        } else {
            scope_ids(a, p)
        } by {
        lemma_scope_ids_same(a, b.drop_last(), p);
    }
}

proof fn lemma_wf_push_plain<T>(s: Seq<ItemView<T>>, item: ItemView<T>)
    requires
        items_wf(s),
        item.id == s.len(),
        item.pos.is_present(),
        target_of(item.kind) is None,
        usages_of(item.kind).len() == 0,
    ensures
        items_wf(s.push(item)),
{
    let t = s.push(item);
    assert forall|i: int| 0 <= i < s.len() implies #[trigger] t[i] == s[i] by {}
    assert forall|i: int|
        0 <= i < t.len() && (#[trigger] target_of(t[i].kind)) is Some implies {
        let d = target_of(t[i].kind)->0 as int;
        &&& d < i
        &&& t[d].kind is Declaration
        &&& usages_of(t[d].kind).contains(i as usize)
    } by {
        if i < s.len() {
            assert(t[i] == s[i]);
            assert(target_of(s[i].kind) is Some);
            let d = target_of(s[i].kind)->0 as int;
            assert(d < i);
            assert(t[d] == s[d]);
        }
    }
    assert forall|d: int, k: int| 0 <= d < t.len() && 0 <= k < usages_of(t[d].kind).len() implies {
        let u = #[trigger] usages_of(t[d].kind)[k] as int;
        &&& d < u < t.len()
        &&& target_of(t[u].kind) == Some(d as usize)
    } by {
        if d < s.len() {
            assert(t[d] == s[d]);
            let u = usages_of(s[d].kind)[k] as int;
            assert(t[u] == s[u]);
        }
    }
    assert forall|d: int, k1: int, k2: int|
        0 <= d < t.len() && 0 <= k1 < k2 < usages_of(t[d].kind).len() implies #[trigger] usages_of(
        t[d].kind,
    )[k1] < #[trigger] usages_of(t[d].kind)[k2] by {
        if d < s.len() {
            assert(t[d] == s[d]);
        }
    }
}

proof fn lemma_wf_push_usage<T>(s: Seq<ItemView<T>>, d: usize, item: ItemView<T>)
    requires
        items_wf(s),
        d < s.len(),
        s[d as int].kind is Declaration,
        item.id == s.len(),
        item.pos.is_present(),
        item.kind == KindView::Usage(Some(d)),
    ensures
        items_wf(backlinked(s, d, s.len() as usize).push(item)),
{
    let n = s.len() as usize;
    let b = backlinked(s, d, n);
    let t = b.push(item);
    assert(usages_of(t[d as int].kind) == usages_of(s[d as int].kind).push(n));
    assert forall|i: int| 0 <= i < s.len() && i != d implies #[trigger] t[i] == s[i] by {}
    assert forall|i: int| 0 <= i < s.len() implies #[trigger] target_of(t[i].kind) == target_of(
        s[i].kind,
    ) && t[i].id == s[i].id && t[i].pos == s[i].pos && (t[i].kind is Declaration <==> s[i].kind is Declaration) by {}
    assert forall|i: int|
        0 <= i < t.len() && (#[trigger] target_of(t[i].kind)) is Some implies {
        let e = target_of(t[i].kind)->0 as int;
        &&& e < i
        &&& t[e].kind is Declaration
        &&& usages_of(t[e].kind).contains(i as usize)
    } by {
        let e = target_of(t[i].kind)->0 as int;
        if i < s.len() {
            if e == d {
                let k = choose|k: int| 0 <= k < usages_of(s[e].kind).len() && usages_of(s[e].kind)[k] == i as usize;
                assert(usages_of(t[e].kind)[k] == i as usize);
            } else {
                assert(t[e] == s[e]);
            }
        } else {
            assert(usages_of(t[e].kind)[usages_of(s[d as int].kind).len() as int] == n);
        }
    }
    assert forall|e: int, k: int|
        0 <= e < t.len() && 0 <= k < usages_of(t[e].kind).len() implies {
        let u = #[trigger] usages_of(t[e].kind)[k] as int;
        &&& e < u < t.len()
        &&& target_of(t[u].kind) == Some(e as usize)
    } by {
        if e == d {
            if k < usages_of(s[e].kind).len() {
                assert(usages_of(t[e].kind)[k] == usages_of(s[e].kind)[k]);
            }
        } else if e < s.len() {
            assert(t[e] == s[e]);
        }
    }
    assert forall|e: int, k1: int, k2: int|
        0 <= e < t.len() && 0 <= k1 < k2 < usages_of(t[e].kind).len() implies #[trigger] usages_of(
        t[e].kind,
    )[k1] < #[trigger] usages_of(t[e].kind)[k2] by {
        if e == d {
            let us = usages_of(s[e].kind);
            if k2 < us.len() {
                assert(usages_of(t[e].kind)[k1] == us[k1]);
                assert(usages_of(t[e].kind)[k2] == us[k2]);
            } else {
                assert(usages_of(t[e].kind)[k1] == us[k1]);
                assert(us[k1] < n);
            }
        } else if e < s.len() {
            assert(t[e] == s[e]);
        }
    }
}

impl<U> Linearization<Building<BuildingResource<U>>> {
    pub open spec fn items(&self) -> Seq<ItemView<U>> {
        self.state.resource.items()
    }

    /// Appends `item` to the store and records its id at its scope.
    fn push(&mut self, item: LinearizationItem<U>)
        requires
            old(self).state.resource.scope.wf(),
        ensures
            final(self).items() == old(self).items().push(item@),
            final(self).state.resource.scope.wf(),
            forall|p: Seq<ScopeId>|
                #[trigger] final(self).state.resource.scope.ids_at(p) == if p == item.scope@ {
                    old(self).state.resource.scope.ids_at(p).push(item.id)
                } else {
                    old(self).state.resource.scope.ids_at(p)
                },
    {
        self.state.resource.scope.record(&item.scope, item.id);
        self.state.resource.linearization.push(item);
        assert(self.items() =~= old(self).items().push(item@));
    }

    /// Appends `usage` to the usage list of declaration `decl`.
    fn add_usage(&mut self, decl: usize, usage: usize)
        requires
            decl < old(self).items().len(),
            old(self).items()[decl as int].kind is Declaration,
        ensures
            final(self).items() == backlinked(old(self).items(), decl, usage),
            final(self).state.resource.scope == old(self).state.resource.scope,
    {
        let mut kind = TermKind::Structure;
        std::mem::swap(&mut kind, &mut self.state.resource.linearization[decl].kind);
        let kind = match kind {
            TermKind::Declaration(name, usages) => {
                let mut usages = usages;
                usages.push(usage);
                TermKind::Declaration(name, usages)
            },
            other => other,
        };
        self.state.resource.linearization[decl].kind = kind;
        assert(self.items() =~= backlinked(old(self).items(), decl, usage));
    }
}

/// The builder that a typechecking pass drives: the identifiers visible at
/// the current node and the scope path that leads to it.
pub struct AnalysisHost {
    pub env: Environment,
    pub scope: Vec<ScopeId>,
}

impl AnalysisHost {
    /// Every name visible to this host is bound to a declaration of `s`.
    pub open spec fn fits<T>(&self, s: Seq<ItemView<T>>) -> bool {
        forall|q: Seq<char>|
            (#[trigger] self.env.lookup(q)) is Some ==> {
                let d = self.env.lookup(q)->0 as int;
                d < s.len() && s[d].kind is Declaration
            }
    }

    /// A host at the root scope with no names visible.
    pub fn new() -> (r: AnalysisHost)
        ensures
            r.scope@ == Seq::<ScopeId>::empty(),
            forall|q: Seq<char>| r.env.lookup(q) == None::<usize>,
    {
        AnalysisHost { env: Environment::new(), scope: Vec::new() }
    }

    /// The host for the branch `scope_id` of the current node: it sees every
    /// name this host sees, and records one step deeper.
    pub fn scope(&self, scope_id: ScopeId) -> (r: AnalysisHost)
        ensures
            r.scope@ == self.scope@.push(scope_id),
            forall|q: Seq<char>| #[trigger] r.env.lookup(q) == self.env.lookup(q),
    {
        let mut scope = crate::scope::path_prefix(&self.scope, self.scope.len());
        scope.push(scope_id);
        assert(scope@ =~= self.scope@.push(scope_id));
        AnalysisHost { scope, env: self.env.fork() }
    }

    /// Records the node `term`, seen at `pos` with placeholder type `ty`.
    /// A node without a position is not recorded.
    pub fn add_term<U>(
        &mut self,
        lin: &mut Linearization<Building<BuildingResource<U>>>,
        term: &Term,
        pos: TermPos,
        ty: U,
    )
        requires
            old(lin).state.resource.wf(),
            old(self).fits(old(lin).items()),
            old(lin).items().len() < usize::MAX,
        ensures
            final(lin).state.resource.wf(),
            final(lin).items() == after_term(
                old(lin).items(),
                *term,
                pos,
                ty,
                old(self).scope@,
                old(self).env,
            ),
            final(self).scope@ == old(self).scope@,
            forall|q: Seq<char>|
                #[trigger] final(self).env.lookup(q) == match (pos, *term) {
                    (TermPos::Original(_), Term::Let(name, _)) | (
                        TermPos::Inherited(_),
                        Term::Let(name, _),
                    ) => if q == name@ {
                        Some(old(lin).items().len() as usize)
                    } else {
                        old(self).env.lookup(q)
                    },
                    _ => old(self).env.lookup(q),
                },
            final(self).fits(final(lin).items()),
            forall|h: AnalysisHost| h.fits(old(lin).items()) ==> #[trigger] h.fits(final(lin).items()),
    {
        if pos == TermPos::Absent {
            return;
        }
        let id = lin.state.resource.linearization.len();
        let ghost s0 = lin.items();
        match term {
            Term::Let(ident, definition) => {
                self.env.insert(ident.clone(), id);
                let item_pos = if *definition != TermPos::Absent {
                    *definition
                } else {
                    pos
                };
                let scope = crate::scope::path_prefix(&self.scope, self.scope.len());
                assert(scope@ =~= self.scope@);
                lin.push(
                    LinearizationItem {
                        id,
                        ty,
                        pos: item_pos,
                        scope,
                        kind: TermKind::Declaration(ident.clone(), Vec::new()),
                    },
                );
            },
            Term::Var(ident) => {
                let parent = self.env.get(ident);
                let scope = crate::scope::path_prefix(&self.scope, self.scope.len());
                assert(scope@ =~= self.scope@);
                if let Some(d) = parent {
                    lin.add_usage(d, id);
                }
                lin.push(LinearizationItem { id, pos, ty, scope, kind: TermKind::Usage(parent) });
            },
            Term::Other => {
                let scope = crate::scope::path_prefix(&self.scope, self.scope.len());
                assert(scope@ =~= self.scope@);
                lin.push(LinearizationItem { id, pos, ty, scope, kind: TermKind::Structure });
            },
        }
        proof {
            let s1 = lin.items();
            assert(s1 =~= after_term(s0, *term, pos, ty, old(self).scope@, old(self).env));
            lemma_scope_ids_push_all(s0, s1);
            match term {
                Term::Var(name) => match old(self).env.lookup(name@) {
                    Some(d) => lemma_wf_push_usage(s0, d, s1.last()),
                    None => lemma_wf_push_plain(s0, s1.last()),
                },
                _ => lemma_wf_push_plain(s0, s1.last()),
            }
            assert forall|h: AnalysisHost| h.fits(s0) implies #[trigger] h.fits(s1) by {
                assert forall|q: Seq<char>| (#[trigger] h.env.lookup(q)) is Some implies {
                    let d = h.env.lookup(q)->0 as int;
                    d < s1.len() && s1[d].kind is Declaration
                } by {
                    let d = h.env.lookup(q)->0 as int;
                    assert(s1[d].kind is Declaration);
                }
            }
        }
    }
}

/// Whether `a` comes strictly before `b` in `(file, offset)` order.
pub open spec fn pos_lt(a: TermPos, b: TermPos) -> bool {
    a.span().src_id.0 < b.span().src_id.0 || (a.span().src_id.0 == b.span().src_id.0
        && a.span().start < b.span().start)
}

fn pos_before(a: TermPos, b: TermPos) -> (r: bool)
    ensures
        r == pos_lt(a, b),
{
    let sa = match a {
        TermPos::Original(sp) => sp,
        TermPos::Inherited(sp) => sp,
        TermPos::Absent => crate::position::RawSpan { src_id: crate::position::FileId(0), start: 0, end: 0 },
    };
    let sb = match b {
        TermPos::Original(sp) => sp,
        TermPos::Inherited(sp) => sp,
        TermPos::Absent => crate::position::RawSpan { src_id: crate::position::FileId(0), start: 0, end: 0 },
    };
    sa.src_id.0 < sb.src_id.0 || (sa.src_id.0 == sb.src_id.0 && sa.start < sb.start)
}

/// `order` with `x` inserted after every id whose item does not come after
/// item `x`: one step of a stable insertion sort.
pub open spec fn insert_sorted<T>(s: Seq<ItemView<T>>, order: Seq<usize>, x: usize) -> Seq<usize>
    decreases order.len(),
{
    if order.len() == 0 {
        seq![x]
    } else if pos_lt(s[x as int].pos, s[order[0] as int].pos) {
        seq![x] + order
    } else {
        seq![order[0]] + insert_sorted(s, order.drop_first(), x)
    }
}

/// The ids `0..n` of `s`, stably sorted by position.
pub open spec fn sorted_order<T>(s: Seq<ItemView<T>>, n: nat) -> Seq<usize>
    decreases n,
{
    if n == 0 {
        Seq::empty()
    } else {
        insert_sorted(s, sorted_order(s, (n - 1) as nat), (n - 1) as usize)
    }
}

proof fn lemma_insert_at<T>(s: Seq<ItemView<T>>, order: Seq<usize>, x: usize, j: int)
    requires
        0 <= j <= order.len(),
        forall|k: int| 0 <= k < j ==> !pos_lt(s[x as int].pos, #[trigger] s[order[k] as int].pos),
        j < order.len() ==> pos_lt(s[x as int].pos, s[order[j] as int].pos),
    ensures
        insert_sorted(s, order, x) == order.insert(j, x),
    decreases order.len(),
{
    if order.len() == 0 {
        assert(order.insert(j, x) =~= seq![x]);
    } else if j == 0 {
        assert(order.insert(j, x) =~= seq![x] + order);
    } else {
        let rest = order.drop_first();
        assert forall|k: int| 0 <= k < j - 1 implies !pos_lt(s[x as int].pos, #[trigger] s[rest[k] as int].pos) by {
            assert(rest[k] == order[k + 1]);
        }
        lemma_insert_at(s, rest, x, j - 1);
        assert(order.insert(j, x) =~= seq![order[0]] + rest.insert(j - 1, x));
    }
}

proof fn lemma_insert_some<T>(s: Seq<ItemView<T>>, order: Seq<usize>, x: usize)
    ensures
        exists|j: int| 0 <= j <= order.len() && insert_sorted(s, order, x) == #[trigger] order.insert(j, x),
    decreases order.len(),
{
    if order.len() == 0 {
        assert(order.insert(0, x) =~= seq![x]);
    } else if pos_lt(s[x as int].pos, s[order[0] as int].pos) {
        assert(order.insert(0, x) =~= seq![x] + order);
    } else {
        let rest = order.drop_first();
        lemma_insert_some(s, rest, x);
        let j = choose|j: int| 0 <= j <= rest.len() && insert_sorted(s, rest, x) == #[trigger] rest.insert(j, x);
        assert(order.insert(j + 1, x) =~= seq![order[0]] + rest.insert(j, x));
    }
}

/// The sorted order holds each id below `n` exactly once.
proof fn lemma_sorted_order_perm<T>(s: Seq<ItemView<T>>, n: nat)
    requires
        n <= usize::MAX,
    ensures
        sorted_order(s, n).len() == n,
        sorted_order(s, n).no_duplicates(),
        forall|y: usize| #[trigger] sorted_order(s, n).contains(y) <==> y < n,
    decreases n,
{
    if n > 0 {
        let m = (n - 1) as nat;
        let o = sorted_order(s, m);
        lemma_sorted_order_perm(s, m);
        lemma_insert_some(s, o, m as usize);
        let j = choose|j: int| 0 <= j <= o.len() && insert_sorted(s, o, m as usize) == #[trigger] o.insert(j, m as usize);
        let r = o.insert(j, m as usize);
        assert forall|y: usize| #[trigger] r.contains(y) <==> y < n by {
            if r.contains(y) {
                let k = choose|k: int| 0 <= k < r.len() && r[k] == y;
                if k < j {
                    assert(o[k] == y);
                    assert(o.contains(y));
                } else if k > j {
                    assert(o[k - 1] == y);
                    assert(o.contains(y));
                }
            }
            if y < m {
                assert(o.contains(y));
                let k = choose|k: int| 0 <= k < o.len() && o[k] == y;
                if k < j {
                    assert(r[k] == y);
                } else {
                    assert(r[k + 1] == y);
                }
                assert(r.contains(y));
            } else if y == m {
                assert(r[j] == y);
                assert(r.contains(y));
            }
        }
        assert forall|a: int, b: int| 0 <= a < r.len() && 0 <= b < r.len() && a != b implies r[a] != r[b] by {
            if a != j && b != j {
                let oa = if a < j { a } else { a - 1 };
                let ob = if b < j { b } else { b - 1 };
                assert(r[a] == o[oa] && r[b] == o[ob]);
            } else if a == j {
                let ob = if b < j { b } else { b - 1 };
                assert(r[b] == o[ob] && o.contains(o[ob]));
            } else {
                let oa = if a < j { a } else { a - 1 };
                assert(r[a] == o[oa] && o.contains(o[oa]));
            }
        }
    }
}

proof fn lemma_items_wf_same<T, V>(a: Seq<ItemView<T>>, b: Seq<ItemView<V>>)
    requires
        items_wf(a),
        a.len() == b.len(),
        forall|i: int|
            0 <= i < a.len() ==> (#[trigger] b[i]).id == a[i].id && b[i].pos == a[i].pos && b[i].kind
                == a[i].kind,
    ensures
        items_wf(b),
{
    assert forall|i: int| 0 <= i < b.len() implies #[trigger] b[i].kind == a[i].kind by {}
}

/// The items of `c` in discovery order.
pub open spec fn by_id<R>(c: Completed<R>) -> Seq<ItemView<R>> {
    Seq::new(c.id_mapping@.len(), |i: int| c.lin@[c.id_mapping@[i] as int]@)
}

impl<R> Completed<R> {
    /// The id mapping is a bijection between ids and indices of `lin`, `lin`
    /// is sorted by position, and in discovery order the items are a
    /// consistent store whose scopes the scope index lists.
    pub open spec fn wf(&self) -> bool {
        let n = self.lin@.len();
        &&& self.id_mapping@.len() == n
        &&& forall|k: int|
            0 <= k < n ==> (#[trigger] self.lin@[k]).id < n && self.id_mapping@[self.lin@[k].id as int]
                == k
        &&& forall|i: int|
            0 <= i < n ==> (#[trigger] self.id_mapping@[i]) < n && self.lin@[self.id_mapping@[i] as int].id
                == i
        &&& forall|a: int, b: int|
            0 <= a < b < n ==> !pos_lt(#[trigger] self.lin@[b].pos, #[trigger] self.lin@[a].pos)
        &&& items_wf(by_id(*self))
        &&& self.scope_mapping.wf()
        &&& forall|p: Seq<ScopeId>| #[trigger]
            self.scope_mapping.ids_at(p) == scope_ids(by_id(*self), p)
    }
}

/// A linearizer that records nothing: for typechecking passes whose
/// analysis nobody reads.
pub struct StubHost<L> {
    marker: std::marker::PhantomData<L>,
}

impl<L> StubHost<L> {
    pub fn new() -> StubHost<L> {
        StubHost { marker: std::marker::PhantomData }
    }

    pub fn scope(&self, _scope_id: ScopeId) -> StubHost<L> {
        StubHost::new()
    }

    /// Records nothing.
    pub fn add_term<U>(&mut self, lin: &mut Linearization<Building<L>>, _term: &Term, _pos: TermPos, _ty: U)
        ensures
            *final(lin) == *old(lin),
    {
    }

    /// An empty completed linearization.
    pub fn linearize<R>(self, _lin: Linearization<Building<L>>) -> (r: Linearization<Completed<R>>)
        ensures
            r.state.wf(),
            r.state.lin@.len() == 0,
    {
        let c = Completed { lin: Vec::new(), id_mapping: Vec::new(), scope_mapping: ScopeIndex::new() };
        assert(by_id(c) =~= Seq::<ItemView<R>>::empty());
        Linearization::completed(c)
    }
}

/// `it` is item `it.id` of `s` with its placeholder type resolved by `resolve`.
pub open spec fn resolved_from<U, R, F: Fn(U) -> R>(it: ItemView<R>, s: Seq<ItemView<U>>, resolve: F) -> bool {
    &&& it.id < s.len()
    &&& it.pos == s[it.id as int].pos
    &&& it.kind == s[it.id as int].kind
    &&& it.scope == s[it.id as int].scope
    &&& resolve.ensures((s[it.id as int].ty,), it.ty)
}

pub open spec fn ids_of<R>(v: Seq<LinearizationItem<R>>) -> Seq<usize> {
    v.map_values(|x: LinearizationItem<R>| x.id)
}

/// `c` is the completed form of the store `s` with scope index `scope`: the
/// items in stable `(file, offset)` order, each with its type resolved by
/// `resolve`, and the scope index unchanged.
pub open spec fn linearized<U, R, F: Fn(U) -> R>(
    s: Seq<ItemView<U>>,
    scope: ScopeIndex,
    resolve: F,
    c: Completed<R>,
) -> bool {
    let order = sorted_order(s, s.len());
    &&& c.wf()
    &&& c.lin@.len() == s.len()
    &&& forall|k: int|
        0 <= k < s.len() ==> (#[trigger] c.lin@[k]).id == order[k] && resolved_from(c.lin@[k]@, s, resolve)
    &&& c.scope_mapping == scope
}

impl AnalysisHost {
    /// Turns the recorded items into the completed linearization: the items
    /// stably sorted by `(file, offset)`, each placeholder type resolved by
    /// `resolve`, the mapping from discovery id to sorted index, and the scope
    /// index as it was built.
    pub fn linearize<U, R, F: Fn(U) -> R>(
        self,
        lin: Linearization<Building<BuildingResource<U>>>,
        resolve: F,
    ) -> (r: Linearization<Completed<R>>)
        requires
            lin.state.resource.wf(),
            forall|u: U| #[trigger] resolve.requires((u,)),
        ensures
            linearized(lin.items(), lin.state.resource.scope, resolve, r.state),
    {
        let ghost s = lin.items();
        let BuildingResource { linearization, scope } = lin.state.resource;
        let n = linearization.len();
        let mut src = linearization;
        let mut out: Vec<LinearizationItem<R>> = Vec::new();
        let mut i: usize = 0;
        while i < n
            invariant
                n == s.len(),
                items_wf(s),
                forall|u: U| #[trigger] resolve.requires((u,)),
                i <= n,
                src@.len() == n - i,
                forall|j: int| 0 <= j < n - i ==> (#[trigger] src@[j])@ == s[i + j],
                out@.len() == i,
                ids_of(out@) == sorted_order(s, i as nat),
                forall|k: int| 0 <= k < i ==> resolved_from((#[trigger] out@[k])@, s, resolve),
                forall|a: int, b: int|
                    0 <= a < b < i ==> !pos_lt(#[trigger] out@[b].pos, #[trigger] out@[a].pos),
            decreases n - i,
        {
            let ghost src_before = src@;
            let item = src.remove(0);
            assert(item@ == s[i as int]);
            let LinearizationItem { id, pos, ty, kind, scope } = item;
            let rty = resolve(ty);
            let mut j: usize = 0;
            let mut done = false;
            while !done && j < out.len()
                invariant
                    j <= out@.len(),
                    forall|k: int| 0 <= k < j ==> !pos_lt(pos, #[trigger] out@[k].pos),
                    done ==> j < out@.len() && pos_lt(pos, out@[j as int].pos),
                decreases out@.len() - j + (if done { 0int } else { 1int }),
            {
                if pos_before(pos, out[j].pos) {
                    done = true;
                } else {
                    j += 1;
                }
            }
            let ghost before = out@;
            let ghost order = sorted_order(s, i as nat);
            proof {
                assert forall|k: int| 0 <= k < j implies !pos_lt(
                    s[i as int].pos,
                    #[trigger] s[order[k] as int].pos,
                ) by {
                    assert(order[k] == before[k].id);
                }
                if j < before.len() {
                    assert(order[j as int] == before[j as int].id);
                }
                lemma_insert_at(s, order, i as usize, j as int);
                assert(sorted_order(s, (i + 1) as nat) == insert_sorted(s, order, i as usize));
            }
            out.insert(j, LinearizationItem { id, pos, ty: rty, kind, scope });
            proof {
                assert(ids_of(out@) =~= order.insert(j as int, i as usize));
                assert forall|k: int| 0 <= k < i + 1 implies resolved_from((#[trigger] out@[k])@, s, resolve) by {
                    if k < j {
                        assert(out@[k] == before[k]);
                    } else if k > j {
                        assert(out@[k] == before[k - 1]);
                    }
                }
                assert forall|a: int, b: int| 0 <= a < b < i + 1 implies !pos_lt(
                    #[trigger] out@[b].pos,
                    #[trigger] out@[a].pos,
                ) by {
                    if a < j && b < j {
                        assert(out@[a] == before[a] && out@[b] == before[b]);
                    } else if a < j && b == j {
                        assert(out@[a] == before[a]);
                    } else if a < j {
                        assert(out@[a] == before[a] && out@[b] == before[b - 1]);
                    } else if a == j {
                        assert(out@[b] == before[b - 1]);
                        assert(!pos_lt(before[b - 1].pos, before[j as int].pos) || b - 1 == j);
                    } else {
                        assert(out@[a] == before[a - 1] && out@[b] == before[b - 1]);
                    }
                }
                assert forall|jj: int| 0 <= jj < n - (i + 1) implies (#[trigger] src@[jj])@ == s[(i + 1) + jj] by {
                    assert(src@[jj] == src_before[jj + 1]);
                }
            }
            i += 1;
        }
        proof {
            lemma_sorted_order_perm(s, n as nat);
        }
        let ghost order = sorted_order(s, n as nat);
        assert forall|k2: int| 0 <= k2 < n implies (#[trigger] out@[k2]).id < n by {
            assert(ids_of(out@)[k2] == out@[k2].id);
            assert(order.contains(order[k2]));
        }
        let mut id_mapping: Vec<usize> = Vec::new();
        let mut k: usize = 0;
        while k < n
            invariant
                id_mapping@.len() == k,
                k <= n,
            decreases n - k,
        {
            id_mapping.push(0);
            k += 1;
        }
        k = 0;
        while k < n
            invariant
                n == s.len(),
                id_mapping@.len() == n,
                out@.len() == n,
                k <= n,
                ids_of(out@) == order,
                order.no_duplicates(),
                forall|y: usize| #[trigger] order.contains(y) <==> y < n,
                forall|k2: int| 0 <= k2 < n ==> (#[trigger] out@[k2]).id < n,
                forall|k2: int| 0 <= k2 < k ==> id_mapping@[(#[trigger] out@[k2]).id as int] == k2,
            decreases n - k,
        {
            let id = out[k].id;
            proof {
                assert(order[k as int] == id);
                assert(order.contains(id));
            }
            let ghost m0 = id_mapping@;
            id_mapping.set(id, k);
            proof {
                assert forall|k2: int| 0 <= k2 < k + 1 implies id_mapping@[(#[trigger] out@[k2]).id as int] == k2 by {
                    if k2 < k {
                        assert(m0[out@[k2].id as int] == k2);
                        assert(order[k2] == out@[k2].id);
                        assert(order[k2] != order[k as int]);
                    }
                }
            }
            k += 1;
        }
        let c = Completed { lin: out, id_mapping, scope_mapping: scope };
        proof {
            assert forall|kk: int| 0 <= kk < n implies (#[trigger] c.lin@[kk]).id < n && c.id_mapping@[c.lin@[kk].id as int] == kk by {
                assert(order[kk] == c.lin@[kk].id);
                assert(order.contains(order[kk]));
            }
            assert forall|ii: int| 0 <= ii < n implies (#[trigger] c.id_mapping@[ii]) < n && c.lin@[c.id_mapping@[ii] as int].id == ii by {
                assert(order.contains(ii as usize));
                let kk = choose|kk: int| 0 <= kk < order.len() && order[kk] == ii as usize;
                assert(c.lin@[kk].id == ii);
            }
            let b = by_id(c);
            assert forall|ii: int| 0 <= ii < n implies (#[trigger] b[ii]).id == s[ii].id && b[ii].pos == s[ii].pos && b[ii].kind == s[ii].kind && b[ii].scope == s[ii].scope by {
                let kk = c.id_mapping@[ii] as int;
                assert(resolved_from(c.lin@[kk]@, s, resolve));
            }
            lemma_items_wf_same(s, b);
            assert forall|p: Seq<ScopeId>| #[trigger] c.scope_mapping.ids_at(p) == scope_ids(b, p) by {
                lemma_scope_ids_same(s, b, p);
            }
            assert forall|kk: int| 0 <= kk < n implies (#[trigger] c.lin@[kk]).id == order[kk] by {
                assert(ids_of(c.lin@)[kk] == c.lin@[kk].id);
            }
        }
        Linearization::completed(c)
    }
}

/// Each id of `s` recorded at scope `p` is listed by `scope_ids(s, p)`, and
/// nothing else is.
pub proof fn lemma_scope_ids_contains<T>(s: Seq<ItemView<T>>, p: Seq<ScopeId>, i: usize)
    requires
        s.len() <= usize::MAX,
    ensures
        scope_ids(s, p).contains(i) <==> i < s.len() && s[i as int].scope == p,
    decreases s.len(),
{
    if s.len() > 0 {
        let rest = scope_ids(s.drop_last(), p);
        lemma_scope_ids_contains(s.drop_last(), p, i);
        if s.last().scope == p {
            let r = rest.push((s.len() - 1) as usize);
            if rest.contains(i) {
                let k = choose|k: int| 0 <= k < rest.len() && rest[k] == i;
                assert(r[k] == i);
            }
            if i == s.len() - 1 {
                assert(r[rest.len() as int] == i);
            }
            if r.contains(i) {
                let k = choose|k: int| 0 <= k < r.len() && r[k] == i;
                if k < rest.len() {
                    assert(rest[k] == i);
                }
            }
        }
    }
}

/// The ids recorded at the prefixes of `p` of lengths `0..=e`, shortest first.
pub open spec fn visible_ids(idx: ScopeIndex, p: Seq<ScopeId>, e: nat) -> Seq<usize>
    decreases e,
{
    if e == 0 {
        idx.ids_at(p.subrange(0, 0))
    } else {
        visible_ids(idx, p, (e - 1) as nat) + idx.ids_at(p.subrange(0, e as int))
    }
}

/// The items of `c` with the given ids.
pub open spec fn items_for<R>(c: Completed<R>, ids: Seq<usize>) -> Seq<ItemView<R>> {
    ids.map_values(|i: usize| c.lin@[c.id_mapping@[i as int] as int]@)
}

pub open spec fn refs_view<R>(v: Seq<&LinearizationItem<R>>) -> Seq<ItemView<R>> {
    v.map_values(|x: &LinearizationItem<R>| x@)
}

impl<R> Linearization<Completed<R>> {
    /// The item with discovery id `id`, if there is one.
    pub fn get_item(&self, id: usize) -> (r: Option<&LinearizationItem<R>>)
        ensures
            match r {
                Some(it) => id < self.state.id_mapping@.len() && self.state.id_mapping@[id as int]
                    < self.state.lin@.len() && *it == self.state.lin@[self.state.id_mapping@[id as int] as int],
                None => !(id < self.state.id_mapping@.len() && self.state.id_mapping@[id as int]
                    < self.state.lin@.len()),
            },
    {
        if id < self.state.id_mapping.len() {
            let index = self.state.id_mapping[id];
            if index < self.state.lin.len() {
                return Some(&self.state.lin[index]);
            }
        }
        None
    }

    fn push_recorded_at<'a>(&'a self, out: &mut Vec<&'a LinearizationItem<R>>, path: &Vec<ScopeId>)
        requires
            self.state.wf(),
        ensures
            refs_view(final(out)@) == refs_view(old(out)@) + items_for(self.state, self.state.scope_mapping.ids_at(path@)),
    {
        let ids = self.state.scope_mapping.items_at(path);
        let n = self.state.id_mapping.len();
        let ghost start = out@;
        let mut k: usize = 0;
        while k < ids.len()
            invariant
                self.state.wf(),
                n == self.state.id_mapping@.len(),
                ids@ == self.state.scope_mapping.ids_at(path@),
                k <= ids@.len(),
                refs_view(out@) == refs_view(start) + items_for(self.state, ids@.subrange(0, k as int)),
            decreases ids@.len() - k,
        {
            let id = ids[k];
            proof {
                assert(ids@.contains(id));
                lemma_scope_ids_contains(by_id(self.state), path@, id);
                assert(id < self.state.id_mapping@.len());
                assert(self.state.id_mapping@[id as int] < self.state.lin@.len());
            }
            let item = self.get_item(id);
            let ghost out0 = out@;
            if let Some(it) = item {
                out.push(it);
                assert(refs_view(out@) =~= refs_view(out0).push(it@));
            }
            proof {
                assert(ids@.subrange(0, k + 1) =~= ids@.subrange(0, k as int).push(id));
                assert(items_for(self.state, ids@.subrange(0, k + 1)) =~= items_for(
                    self.state,
                    ids@.subrange(0, k as int),
                ).push(self.state.lin@[self.state.id_mapping@[id as int] as int]@));
            }
            k += 1;
            assert(refs_view(out@) =~= refs_view(start) + items_for(self.state, ids@.subrange(0, k as int)));
        }
        assert(ids@.subrange(0, k as int) =~= ids@);
    }

    /// Every item visible from `item`'s scope: those recorded at each prefix
    /// of its scope path, the root and the path itself included, shortest
    /// prefix first.
    pub fn get_in_scope<'a>(&'a self, item: &LinearizationItem<R>) -> (r: Vec<&'a LinearizationItem<R>>)
        requires
            self.state.wf(),
        ensures
            refs_view(r@) == items_for(
                self.state,
                visible_ids(self.state.scope_mapping, item.scope@, item.scope@.len()),
            ),
    {
        let scope = &item.scope;
        let mut out: Vec<&'a LinearizationItem<R>> = Vec::new();
        let mut e: usize = 0;
        let root = crate::scope::path_prefix(scope, 0);
        self.push_recorded_at(&mut out, &root);
        assert(refs_view(out@) =~= items_for(self.state, visible_ids(self.state.scope_mapping, scope@, 0)));
        while e < scope.len()
            invariant
                self.state.wf(),
                e <= scope@.len(),
                refs_view(out@) == items_for(self.state, visible_ids(self.state.scope_mapping, scope@, e as nat)),
            decreases scope@.len() - e,
        {
            e += 1;
            let prefix = crate::scope::path_prefix(scope, e);
            self.push_recorded_at(&mut out, &prefix);
            assert(refs_view(out@) =~= items_for(self.state, visible_ids(self.state.scope_mapping, scope@, e as nat)));
        }
        out
    }
}

proof fn lemma_concat_contains(a: Seq<usize>, b: Seq<usize>, x: usize)
    ensures
        (a + b).contains(x) <==> a.contains(x) || b.contains(x),
{
    let c = a + b;
    if c.contains(x) {
        let k = choose|k: int| 0 <= k < c.len() && c[k] == x;
        if k < a.len() {
            assert(a[k] == x);
        } else {
            assert(b[k - a.len()] == x);
        }
    }
    if a.contains(x) {
        let k = choose|k: int| 0 <= k < a.len() && a[k] == x;
        assert(c[k] == x);
    }
    if b.contains(x) {
        let k = choose|k: int| 0 <= k < b.len() && b[k] == x;
        assert(c[k + a.len()] == x);
    }
}

proof fn lemma_visible_upto<T>(idx: ScopeIndex, s: Seq<ItemView<T>>, p: Seq<ScopeId>, e: nat, i: usize)
    requires
        e <= p.len(),
        s.len() <= usize::MAX,
        forall|q: Seq<ScopeId>| #[trigger] idx.ids_at(q) == scope_ids(s, q),
    ensures
        visible_ids(idx, p, e).contains(i) <==> (i < s.len() && exists|e2: int|
            0 <= e2 <= e && s[i as int].scope == #[trigger] p.subrange(0, e2)),
    decreases e,
{
    lemma_scope_ids_contains(s, p.subrange(0, e as int), i);
    if e > 0 {
        lemma_visible_upto(idx, s, p, (e - 1) as nat, i);
        lemma_concat_contains(
            visible_ids(idx, p, (e - 1) as nat),
            idx.ids_at(p.subrange(0, e as int)),
            i,
        );
        if i < s.len() && exists|e2: int| 0 <= e2 <= e && s[i as int].scope == #[trigger] p.subrange(0, e2) {
            let e2 = choose|e2: int| 0 <= e2 <= e && s[i as int].scope == #[trigger] p.subrange(0, e2);
            if e2 < e {
                assert(exists|e3: int| 0 <= e3 <= e - 1 && s[i as int].scope == #[trigger] p.subrange(0, e3));
            }
        }
    } else {
        if i < s.len() && exists|e2: int| 0 <= e2 <= e && s[i as int].scope == #[trigger] p.subrange(0, e2) {
            let e2 = choose|e2: int| 0 <= e2 <= e && s[i as int].scope == #[trigger] p.subrange(0, e2);
            assert(e2 == 0);
        }
    }
}

/// Discovery ids are assigned in increasing order: in a well-formed store
/// an item recorded later has a larger id, so no id occurs twice.
pub proof fn lemma_ids_increase<T>(s: Seq<ItemView<T>>, a: int, b: int)
    requires
        items_wf(s),
        0 <= a < b < s.len(),
    ensures
        s[a].id < s[b].id,
{
}

/// The id mapping of a completed linearization is a bijection between the
/// discovery ids and the indices of the sorted items.
pub proof fn lemma_id_mapping_bijective<R>(c: Completed<R>)
    requires
        c.wf(),
    ensures
        forall|i: int|
            0 <= i < c.lin@.len() ==> (#[trigger] c.id_mapping@[i]) < c.lin@.len() && c.lin@[c.id_mapping@[i] as int].id == i,
        forall|k: int|
            0 <= k < c.lin@.len() ==> (#[trigger] c.lin@[k]).id < c.lin@.len() && c.id_mapping@[c.lin@[k].id as int] == k,
        forall|i: int, j: int|
            0 <= i < c.lin@.len() && 0 <= j < c.lin@.len() && i != j ==> #[trigger] c.id_mapping@[i] != #[trigger] c.id_mapping@[j],
{
}

/// What `get_in_scope` returns for an item at scope path `p` is exactly the
/// items recorded at a prefix of `p` (the root and `p` itself included):
/// an item recorded in a sibling branch, at a path that is no prefix of `p`,
/// is not among them.
pub proof fn lemma_visible_exact<R>(c: Completed<R>, p: Seq<ScopeId>, i: usize)
    requires
        c.wf(),
    ensures
        visible_ids(c.scope_mapping, p, p.len()).contains(i) <==> (i < c.lin@.len()
            && crate::scope::is_prefix(by_id(c)[i as int].scope, p)),
{
    let s = by_id(c);
    assert(c.id_mapping.len() == c.id_mapping@.len());
    lemma_visible_upto(c.scope_mapping, s, p, p.len(), i);
    if i < s.len() && crate::scope::is_prefix(s[i as int].scope, p) {
        let e2 = s[i as int].scope.len() as int;
        assert(s[i as int].scope == p.subrange(0, e2));
    }
}

/// A usage that resolved to declaration `d` is listed exactly once in the
/// usage list of `d`, and `d` is a declaration; a usage with no declaration
/// is listed by no declaration.
pub proof fn lemma_usage_linked<R>(c: Completed<R>, u: int)
    requires
        c.wf(),
        0 <= u < c.lin@.len(),
    ensures
        ({
            let s = by_id(c);
            match target_of(s[u].kind) {
                Some(d) => {
                    &&& d < u
                    &&& s[d as int].kind is Declaration
                    &&& usages_of(s[d as int].kind).contains(u as usize)
                    &&& forall|k1: int, k2: int|
                        0 <= k1 < usages_of(s[d as int].kind).len() && 0 <= k2 < usages_of(s[d as int].kind).len()
                            && #[trigger] usages_of(s[d as int].kind)[k1] == u && #[trigger] usages_of(s[d as int].kind)[k2] == u
                            ==> k1 == k2
                },
                None => forall|e: int, k: int|
                    0 <= e < s.len() && 0 <= k < usages_of(s[e].kind).len() ==> #[trigger] usages_of(s[e].kind)[k] != u,
            }
        }),
{
    let s = by_id(c);
    match target_of(s[u].kind) {
        Some(d) => {
            assert forall|k1: int, k2: int|
                0 <= k1 < usages_of(s[d as int].kind).len() && 0 <= k2 < usages_of(s[d as int].kind).len()
                    && #[trigger] usages_of(s[d as int].kind)[k1] == u && #[trigger] usages_of(s[d as int].kind)[k2] == u
                    implies k1 == k2 by {
                if k1 < k2 {
                    assert(usages_of(s[d as int].kind)[k1] < usages_of(s[d as int].kind)[k2]);
                } else if k2 < k1 {
                    assert(usages_of(s[d as int].kind)[k2] < usages_of(s[d as int].kind)[k1]);
                }
            }
        },
        None => {},
    }
}

/// The completed items are in ascending `(file, offset)` order.
pub proof fn lemma_sorted<R>(c: Completed<R>, a: int, b: int)
    requires
        c.wf(),
        0 <= a < b < c.lin@.len(),
    ensures
        !pos_lt(c.lin@[b].pos, c.lin@[a].pos),
{
}

/// Resolving the same store twice gives the same order of items, the same
/// id mapping and, when `resolve` is a function of its argument, the same
/// resolved types.
pub proof fn lemma_linearize_deterministic<U, R, F: Fn(U) -> R>(
    s: Seq<ItemView<U>>,
    scope: ScopeIndex,
    resolve: F,
    c1: Completed<R>,
    c2: Completed<R>,
)
    requires
        linearized(s, scope, resolve, c1),
        linearized(s, scope, resolve, c2),
    ensures
        c1.lin@.len() == c2.lin@.len(),
        c1.id_mapping@ == c2.id_mapping@,
        forall|k: int|
            0 <= k < c1.lin@.len() ==> (#[trigger] c1.lin@[k]@).id == c2.lin@[k]@.id && c1.lin@[k]@.pos
                == c2.lin@[k]@.pos && c1.lin@[k]@.kind == c2.lin@[k]@.kind && c1.lin@[k]@.scope
                == c2.lin@[k]@.scope,
        (forall|u: U, x: R, y: R| resolve.ensures((u,), x) && resolve.ensures((u,), y) ==> x == y)
            ==> forall|k: int| 0 <= k < c1.lin@.len() ==> #[trigger] c1.lin@[k].ty == c2.lin@[k].ty,
{
    let n = c1.lin@.len();
    assert forall|i: int| 0 <= i < n implies c1.id_mapping@[i] == c2.id_mapping@[i] by {
        let k1 = c1.id_mapping@[i] as int;
        let k2 = c2.id_mapping@[i] as int;
        assert(c1.lin@[k1].id == i && c2.lin@[k2].id == i);
        assert(c1.lin@[k2].id == c2.lin@[k2].id);
        assert(c1.id_mapping@[c1.lin@[k2].id as int] == k2);
    }
    assert(c1.id_mapping@ =~= c2.id_mapping@);
}

} // verus!
