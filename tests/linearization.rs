use nls_analysis::{
    AnalysisHost, Completed, FileId, Linearization, RawSpan, ScopeId, StubHost, Term, TermKind,
    TermPos,
};

fn at(start: usize, end: usize) -> TermPos {
    TermPos::Original(RawSpan { src_id: FileId(0), start, end })
}

fn name(s: &str) -> String {
    s.to_string()
}

/// Placeholder types are numbers; resolution renders them.
fn resolve(ty: u32) -> String {
    format!("T{}", ty)
}

/// Walks `let x = 1 in x + x` the way a typechecker does.
fn let_x_in_x_plus_x() -> Linearization<Completed<String>> {
    let mut lin = Linearization::building::<u32>();
    let mut host = AnalysisHost::new();
    host.add_term(&mut lin, &Term::Let(name("x"), at(8, 9)), at(0, 18), 0);
    host.add_term(&mut lin, &Term::Other, at(8, 9), 1);
    host.add_term(&mut lin, &Term::Other, at(13, 18), 2);
    let mut left = host.scope(ScopeId::Left);
    left.add_term(&mut lin, &Term::Var(name("x")), at(13, 14), 3);
    let mut right = host.scope(ScopeId::Right);
    right.add_term(&mut lin, &Term::Var(name("x")), at(17, 18), 4);
    host.linearize(lin, resolve)
}

#[test]
fn two_usages_resolve_to_one_declaration() {
    let lin = let_x_in_x_plus_x();
    let decl = lin.get_item(0).unwrap();
    match &decl.kind {
        TermKind::Declaration(n, usages) => {
            assert_eq!(n, "x");
            assert_eq!(usages, &vec![3, 4]);
        }
        _ => panic!("item 0 is not a declaration"),
    }
    for id in [3usize, 4] {
        let item = lin.get_item(id).unwrap();
        assert!(matches!(item.kind, TermKind::Usage(Some(0))));
    }
    let p3 = lin.get_item(3).unwrap().pos;
    let p4 = lin.get_item(4).unwrap().pos;
    assert_eq!(p3, at(13, 14));
    assert_eq!(p4, at(17, 18));
}

#[test]
fn items_are_sorted_by_position() {
    let lin = let_x_in_x_plus_x();
    let starts: Vec<usize> = lin
        .state
        .lin
        .iter()
        .map(|i| match i.pos {
            TermPos::Original(s) | TermPos::Inherited(s) => s.start,
            TermPos::Absent => panic!("absent position"),
        })
        .collect();
    assert_eq!(starts, vec![8, 8, 13, 13, 17]);
    // equal offsets keep discovery order
    let ids: Vec<usize> = lin.state.lin.iter().map(|i| i.id).collect();
    assert_eq!(ids, vec![0, 1, 2, 3, 4]);
}

#[test]
fn id_mapping_is_a_bijection() {
    let lin = let_x_in_x_plus_x();
    let n = lin.state.lin.len();
    assert_eq!(lin.state.id_mapping.len(), n);
    for id in 0..n {
        let index = lin.state.id_mapping[id];
        assert_eq!(lin.state.lin[index].id, id);
    }
    assert!(lin.get_item(n).is_none());
}

#[test]
fn ids_increase_in_discovery_order() {
    let mut lin = Linearization::building::<u32>();
    let mut host = AnalysisHost::new();
    host.add_term(&mut lin, &Term::Other, at(30, 31), 0);
    host.add_term(&mut lin, &Term::Other, at(10, 11), 1);
    host.add_term(&mut lin, &Term::Other, at(20, 21), 2);
    let ids: Vec<usize> = lin.state.resource.linearization.iter().map(|i| i.id).collect();
    assert_eq!(ids, vec![0, 1, 2]);
    let done = host.linearize(lin, resolve);
    let ids: Vec<usize> = done.state.lin.iter().map(|i| i.id).collect();
    assert_eq!(ids, vec![1, 2, 0]);
    assert_eq!(done.state.id_mapping, vec![2, 0, 1]);
}

#[test]
fn types_are_resolved() {
    let lin = let_x_in_x_plus_x();
    assert_eq!(lin.get_item(0).unwrap().ty, "T0");
    assert_eq!(lin.get_item(4).unwrap().ty, "T4");
}

#[test]
fn linearize_is_deterministic() {
    let a = let_x_in_x_plus_x();
    let b = let_x_in_x_plus_x();
    assert_eq!(a.state.id_mapping, b.state.id_mapping);
    for (x, y) in a.state.lin.iter().zip(b.state.lin.iter()) {
        assert_eq!(x.id, y.id);
        assert_eq!(x.pos, y.pos);
        assert_eq!(x.ty, y.ty);
        assert_eq!(x.scope, y.scope);
    }
}

#[test]
fn declaration_takes_definition_position() {
    let lin = let_x_in_x_plus_x();
    assert_eq!(lin.get_item(0).unwrap().pos, at(8, 9));
}

#[test]
fn absent_position_is_not_recorded() {
    let mut lin = Linearization::building::<u32>();
    let mut host = AnalysisHost::new();
    host.add_term(&mut lin, &Term::Let(name("z"), at(4, 5)), TermPos::Absent, 0);
    host.add_term(&mut lin, &Term::Var(name("z")), at(9, 10), 1);
    assert_eq!(lin.state.resource.linearization.len(), 1);
    let done = host.linearize(lin, resolve);
    assert!(matches!(done.get_item(0).unwrap().kind, TermKind::Usage(None)));
}

#[test]
fn free_identifier_has_no_declaration() {
    let mut lin = Linearization::building::<u32>();
    let mut host = AnalysisHost::new();
    host.add_term(&mut lin, &Term::Let(name("a"), at(4, 5)), at(0, 12), 0);
    host.add_term(&mut lin, &Term::Var(name("b")), at(9, 10), 1);
    let done = host.linearize(lin, resolve);
    assert!(matches!(done.get_item(1).unwrap().kind, TermKind::Usage(None)));
    match &done.get_item(0).unwrap().kind {
        TermKind::Declaration(_, usages) => assert!(usages.is_empty()),
        _ => panic!("item 0 is not a declaration"),
    }
}

#[test]
fn inner_binding_shadows_outer() {
    let mut lin = Linearization::building::<u32>();
    let mut host = AnalysisHost::new();
    host.add_term(&mut lin, &Term::Let(name("v"), at(0, 1)), at(0, 1), 0);
    let mut inner = host.scope(ScopeId::Left);
    inner.add_term(&mut lin, &Term::Let(name("v"), at(2, 3)), at(2, 3), 1);
    inner.add_term(&mut lin, &Term::Var(name("v")), at(4, 5), 2);
    host.add_term(&mut lin, &Term::Var(name("v")), at(6, 7), 3);
    let done = host.linearize(lin, resolve);
    assert!(matches!(done.get_item(2).unwrap().kind, TermKind::Usage(Some(1))));
    assert!(matches!(done.get_item(3).unwrap().kind, TermKind::Usage(Some(0))));
}

fn ids_of(items: &[&nls_analysis::LinearizationItem<String>]) -> Vec<usize> {
    items.iter().map(|i| i.id).collect()
}

#[test]
fn sibling_branch_bindings_are_not_visible() {
    // if c then (let y = .. in y) else (let y = .. in y)
    let mut lin = Linearization::building::<u32>();
    let host = AnalysisHost::new();
    let mut a = host.scope(ScopeId::Left);
    a.add_term(&mut lin, &Term::Let(name("y"), at(10, 11)), at(6, 20), 0);
    a.add_term(&mut lin, &Term::Var(name("y")), at(15, 16), 1);
    let mut b = host.scope(ScopeId::Right);
    b.add_term(&mut lin, &Term::Let(name("y"), at(30, 31)), at(26, 40), 2);
    b.add_term(&mut lin, &Term::Var(name("y")), at(35, 36), 3);
    let done = host.linearize(lin, resolve);
    assert!(matches!(done.get_item(1).unwrap().kind, TermKind::Usage(Some(0))));
    assert!(matches!(done.get_item(3).unwrap().kind, TermKind::Usage(Some(2))));
    let in_a = done.get_in_scope(done.get_item(1).unwrap());
    assert_eq!(ids_of(&in_a), vec![0, 1]);
    let in_b = done.get_in_scope(done.get_item(3).unwrap());
    assert_eq!(ids_of(&in_b), vec![2, 3]);
}

#[test]
fn enclosing_scopes_are_visible() {
    let mut lin = Linearization::building::<u32>();
    let mut host = AnalysisHost::new();
    host.add_term(&mut lin, &Term::Let(name("r"), at(1, 2)), at(0, 50), 0);
    let mut left = host.scope(ScopeId::Left);
    left.add_term(&mut lin, &Term::Let(name("l"), at(5, 6)), at(4, 20), 1);
    let mut deep = left.scope(ScopeId::Choice(0));
    deep.add_term(&mut lin, &Term::Var(name("l")), at(10, 11), 2);
    let mut right = host.scope(ScopeId::Right);
    right.add_term(&mut lin, &Term::Other, at(30, 31), 3);
    let done = host.linearize(lin, resolve);
    let deep_item = done.get_item(2).unwrap();
    assert_eq!(deep_item.scope, vec![ScopeId::Left, ScopeId::Choice(0)]);
    assert_eq!(ids_of(&done.get_in_scope(deep_item)), vec![0, 1, 2]);
    let right_item = done.get_item(3).unwrap();
    assert_eq!(ids_of(&done.get_in_scope(right_item)), vec![0, 3]);
    let root_item = done.get_item(0).unwrap();
    assert_eq!(ids_of(&done.get_in_scope(root_item)), vec![0]);
}

#[test]
fn stub_host_records_nothing() {
    let mut lin = Linearization::building::<u32>();
    let mut stub: StubHost<nls_analysis::BuildingResource<u32>> = StubHost::new();
    stub.add_term(&mut lin, &Term::Var(name("q")), at(0, 1), 7u32);
    assert_eq!(lin.state.resource.linearization.len(), 0);
    let inner = stub.scope(ScopeId::Choice(2));
    let done: Linearization<Completed<String>> = inner.linearize(lin);
    assert!(done.state.lin.is_empty());
    assert!(done.get_item(0).is_none());
}
