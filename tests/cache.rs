use nls_analysis::{
    AnalysisHost, Cache, CacheError, CacheOp, Completed, EntryState, FileId, LinCache,
    Linearization, RawSpan, Term, TermPos,
};
use std::cell::Cell;

/// A stand-in typechecker: records one item per word of the tree and fails
/// on a tree that holds the word `error`.
fn check(tree: &String, passes: &Cell<usize>) -> Result<Linearization<Completed<u32>>, String> {
    passes.set(passes.get() + 1);
    if tree.split_whitespace().any(|w| w == "error") {
        return Err(format!("type error in {}", tree));
    }
    let mut lin = Linearization::building::<u32>();
    let mut host = AnalysisHost::new();
    let mut offset = 0;
    for (k, w) in tree.split_whitespace().enumerate() {
        let pos = TermPos::Original(RawSpan { src_id: FileId(0), start: offset, end: offset + w.len() });
        host.add_term(&mut lin, &Term::Var(w.to_string()), pos, k as u32);
        offset += w.len() + 1;
    }
    Ok(host.linearize(lin, |t: u32| t * 10))
}

fn stage(cache: &Cache<String>, id: FileId) -> EntryState {
    match &cache.files[id.0].term {
        Some((_, st)) => *st,
        None => EntryState::Unparsed,
    }
}

#[test]
fn new_file_starts_unparsed() {
    let mut cache: Cache<String> = Cache::new();
    let a = cache.update_content("a.ncl".to_string(), "one".to_string());
    let b = cache.update_content("b.ncl".to_string(), "two".to_string());
    assert_eq!(a, FileId(0));
    assert_eq!(b, FileId(1));
    assert_eq!(stage(&cache, a), EntryState::Unparsed);
    assert_eq!(cache.id_of(&"b.ncl".to_string()), Some(b));
    assert_eq!(cache.id_of(&"c.ncl".to_string()), None);
}

#[test]
fn update_keeps_the_id_and_replaces_the_text() {
    let mut cache: Cache<String> = Cache::new();
    let a = cache.update_content("a.ncl".to_string(), "one".to_string());
    assert!(cache.set_parsed(a, "one".to_string()));
    let again = cache.update_content("a.ncl".to_string(), "two".to_string());
    assert_eq!(again, a);
    assert_eq!(cache.files.len(), 1);
    assert_eq!(cache.files[a.0].source, "two");
    assert!(cache.files[a.0].term.is_none());
}

#[test]
fn typecheck_before_parse_is_not_parsed() {
    let mut cache: Cache<String> = Cache::new();
    let a = cache.update_content("a.ncl".to_string(), "x".to_string());
    let mut lins: LinCache<u32> = LinCache::new();
    let passes = Cell::new(0);
    let r = cache.typecheck_with_analysis(a, &mut lins, |t: &String| check(t, &passes));
    assert_eq!(r, Err(CacheError::NotParsed));
    assert_eq!(passes.get(), 0);
    let r = cache.typecheck_with_analysis(FileId(9), &mut lins, |t: &String| check(t, &passes));
    assert_eq!(r, Err(CacheError::NotParsed));
}

#[test]
fn set_parsed_on_unknown_file_fails() {
    let mut cache: Cache<String> = Cache::new();
    assert!(!cache.set_parsed(FileId(0), "x".to_string()));
}

#[test]
fn second_typecheck_is_cached() {
    let mut cache: Cache<String> = Cache::new();
    let a = cache.update_content("a.ncl".to_string(), "x y".to_string());
    cache.set_parsed(a, "x y".to_string());
    let mut lins: LinCache<u32> = LinCache::new();
    let passes = Cell::new(0);
    let r = cache.typecheck_with_analysis(a, &mut lins, |t: &String| check(t, &passes));
    assert_eq!(r, Ok(CacheOp::Done(())));
    assert_eq!(stage(&cache, a), EntryState::Typechecked);
    let ids_before: Vec<usize> = lins[&a.0].state.lin.iter().map(|i| i.id).collect();
    let r = cache.typecheck_with_analysis(a, &mut lins, |t: &String| check(t, &passes));
    assert_eq!(r, Ok(CacheOp::Cached(())));
    assert_eq!(passes.get(), 1);
    let ids_after: Vec<usize> = lins[&a.0].state.lin.iter().map(|i| i.id).collect();
    assert_eq!(ids_before, ids_after);
    assert_eq!(lins[&a.0].state.lin[1].ty, 10);
}

#[test]
fn edit_forces_a_new_pass() {
    let mut cache: Cache<String> = Cache::new();
    let a = cache.update_content("a.ncl".to_string(), "x".to_string());
    cache.set_parsed(a, "x".to_string());
    let mut lins: LinCache<u32> = LinCache::new();
    let passes = Cell::new(0);
    let r = cache.typecheck_with_analysis(a, &mut lins, |t: &String| check(t, &passes));
    assert_eq!(r, Ok(CacheOp::Done(())));
    cache.update_content("a.ncl".to_string(), "x y z".to_string());
    let r = cache.typecheck_with_analysis(a, &mut lins, |t: &String| check(t, &passes));
    assert_eq!(r, Err(CacheError::NotParsed));
    cache.set_parsed(a, "x y z".to_string());
    let r = cache.typecheck_with_analysis(a, &mut lins, |t: &String| check(t, &passes));
    assert_eq!(r, Ok(CacheOp::Done(())));
    assert_eq!(passes.get(), 2);
    assert_eq!(lins[&a.0].state.lin.len(), 3);
}

#[test]
fn type_error_is_propagated_and_stage_kept() {
    let mut cache: Cache<String> = Cache::new();
    let a = cache.update_content("a.ncl".to_string(), "error".to_string());
    cache.set_parsed(a, "error".to_string());
    let mut lins: LinCache<u32> = LinCache::new();
    let passes = Cell::new(0);
    let r = cache.typecheck_with_analysis(a, &mut lins, |t: &String| check(t, &passes));
    assert_eq!(r, Err(CacheError::Error("type error in error".to_string())));
    assert_eq!(stage(&cache, a), EntryState::Parsed);
    assert!(lins.is_empty());
    let r = cache.typecheck_with_analysis(a, &mut lins, |t: &String| check(t, &passes));
    assert!(matches!(r, Err(CacheError::Error(_))));
    assert_eq!(passes.get(), 2);
}
