use vstd::prelude::*;

use std::collections::HashMap;

use crate::linearization::{Completed, Linearization};
use crate::position::FileId;

verus! {

broadcast use vstd::std_specs::hash::group_hash_axioms;

/// Where a file stands in the pipeline.
#[derive(Debug, Clone, Copy, PartialEq, Eq, Structural)]
pub enum EntryState {
    Unparsed,
    Parsed,
    Typechecked,
}

impl EntryState {
    pub open spec fn rank(self) -> int {
        match self {
            EntryState::Unparsed => 0,
            EntryState::Parsed => 1,
            EntryState::Typechecked => 2,
        }
    }
}

/// What an operation of the cache did.
#[derive(Debug, PartialEq, Eq, Structural)]
pub enum CacheOp<T> {
    /// The work was done.
    Done(T),
    /// The result was already there; nothing was recomputed.
    Cached(T),
}

/// Why an operation of the cache failed.
#[derive(Debug, PartialEq, Eq, Structural)]
pub enum CacheError<E> {
    /// The typechecker's own error.
    Error(E),
    /// No parsed tree is cached for the file.
    NotParsed,
}

/// One registered file: its name, its text and, once parsed, its tree with
/// its stage.
pub struct CachedFile<T> {
    pub name: String,
    pub source: String,
    pub term: Option<(T, EntryState)>,
}

/// The staged file cache. A file's id is its index in `files`; files are
/// never removed, so ids are never reused.
pub struct Cache<T> {
    pub files: Vec<CachedFile<T>>,
}

/// Linearizations of typechecked files, keyed by the index of their file id.
pub type LinCache<R> = HashMap<usize, Linearization<Completed<R>>>;

/// What a typecheck request will do on a given state.
pub enum Decision {
    NotParsed,
    Cached,
    Run,
}

impl<T> Cache<T> {
    /// No two files share a name.
    pub open spec fn wf(&self) -> bool {
        forall|i: int, j: int|
            0 <= i < self.files@.len() && 0 <= j < self.files@.len() && i != j
                ==> self.files@[i].name@ != self.files@[j].name@
    }

    pub open spec fn valid_id(&self, id: FileId) -> bool {
        id.0 < self.files@.len()
    }

    /// Whether a parsed tree is cached for `id`.
    pub open spec fn is_parsed(&self, id: FileId) -> bool {
        self.valid_id(id) && self.files@[id.0 as int].term is Some
    }

    /// The stage of `id`: `Unparsed` whenever no tree is cached.
    pub open spec fn stage(&self, id: FileId) -> EntryState {
        if self.is_parsed(id) {
            match self.files@[id.0 as int].term {
                Some((_, st)) => st,
                None => EntryState::Unparsed,
            }
        } else {
            EntryState::Unparsed
        }
    }

    /// What `typecheck_with_analysis` does on this state.
    pub open spec fn decision<R>(&self, id: FileId, lin_cache: Map<usize, Linearization<Completed<R>>>) -> Decision {
        if !self.is_parsed(id) {
            Decision::NotParsed
        } else if self.stage(id).rank() >= EntryState::Typechecked.rank() && lin_cache.contains_key(id.0) {
            Decision::Cached
        } else {
            Decision::Run
        }
    }

    /// `next` is `self` with file `id` holding `source` and no tree, every
    /// other file unchanged.
    pub open spec fn edited(&self, next: Cache<T>, id: FileId, source: Seq<char>) -> bool {
        &&& self.valid_id(id)
        &&& next.files@.len() == self.files@.len()
        &&& next.files@[id.0 as int].name@ == self.files@[id.0 as int].name@
        &&& next.files@[id.0 as int].source@ == source
        &&& next.files@[id.0 as int].term is None
        &&& forall|j: int| 0 <= j < self.files@.len() && j != id.0 ==> #[trigger] next.files@[j] == self.files@[j]
    }

    /// The cached tree of `id`.
    pub open spec fn tree(&self, id: FileId) -> T {
        match self.files@[id.0 as int].term {
            Some((t, _)) => t,
            None => arbitrary(),
        }
    }

    /// `next` is `self` with file `id` at stage `Typechecked`, every other
    /// part unchanged.
    pub open spec fn advanced(&self, next: Cache<T>, id: FileId) -> bool {
        &&& next.files@.len() == self.files@.len()
        &&& next.files@[id.0 as int].name == self.files@[id.0 as int].name
        &&& next.files@[id.0 as int].source == self.files@[id.0 as int].source
        &&& next.files@[id.0 as int].term == Some((self.tree(id), EntryState::Typechecked))
        &&& forall|j: int| 0 <= j < self.files@.len() && j != id.0 ==> #[trigger] next.files@[j] == self.files@[j]
    }

    pub fn new() -> (r: Cache<T>)
        ensures
            r.wf(),
            r.files@.len() == 0,
    {
        Cache { files: Vec::new() }
    }

    /// The id of the file registered under `path`, if any.
    pub fn id_of(&self, path: &String) -> (r: Option<FileId>)
        ensures
            match r {
                Some(id) => self.valid_id(id) && self.files@[id.0 as int].name@ == path@,
                None => forall|j: int| 0 <= j < self.files@.len() ==> #[trigger] self.files@[j].name@ != path@,
            },
    {
        let mut i: usize = 0;
        while i < self.files.len()
            invariant
                i <= self.files@.len(),
                forall|j: int| 0 <= j < i ==> #[trigger] self.files@[j].name@ != path@,
            decreases self.files@.len() - i,
        {
            if self.files[i].name == *path {
                return Some(FileId(i));
            }
            i += 1;
        }
        None
    }

    /// Registers `source` under `path`. A file already registered there gets
    /// the new text and loses its parsed tree, so that it is parsed again; a
    /// new file starts unparsed under the next id.
    pub fn update_content(&mut self, path: String, source: String) -> (r: FileId)
        requires
            old(self).wf(),
        ensures
            final(self).wf(),
            final(self).valid_id(r),
            final(self).files@[r.0 as int].name@ == path@,
            final(self).files@[r.0 as int].source@ == source@,
            final(self).files@[r.0 as int].term is None,
            (exists|j: int| 0 <= j < old(self).files@.len() && #[trigger] old(self).files@[j].name@ == path@)
                ==> old(self).edited(*final(self), r, source@),
            (forall|j: int| 0 <= j < old(self).files@.len() ==> #[trigger] old(self).files@[j].name@ != path@)
                ==> r.0 == old(self).files@.len() && final(self).files@.len() == old(self).files@.len() + 1
                && forall|j: int| 0 <= j < old(self).files@.len() ==> #[trigger] final(self).files@[j] == old(self).files@[j],
    {
        match self.id_of(&path) {
            Some(file_id) => {
                self.files[file_id.0].source = source;
                // drop the tree so the file gets parsed again
                self.files[file_id.0].term = None;
                file_id
            },
            None => {
                let id = self.files.len();
                self.files.push(CachedFile { name: path, source, term: None });
                FileId(id)
            },
        }
    }

    /// Caches `term` as the freshly parsed tree of `file_id`, at stage
    /// `Parsed`. Returns false, changing nothing, if `file_id` is unknown.
    pub fn set_parsed(&mut self, file_id: FileId, term: T) -> (r: bool)
        ensures
            r == old(self).valid_id(file_id),
            final(self).files@.len() == old(self).files@.len(),
            r ==> final(self).is_parsed(file_id) && final(self).stage(file_id) == EntryState::Parsed
                && final(self).files@[file_id.0 as int].term == Some((term, EntryState::Parsed))
                && final(self).files@[file_id.0 as int].name == old(self).files@[file_id.0 as int].name
                && final(self).files@[file_id.0 as int].source == old(self).files@[file_id.0 as int].source,
            forall|j: int| 0 <= j < old(self).files@.len() && j != file_id.0 ==> #[trigger] final(self).files@[j] == old(self).files@[j],
            !r ==> final(self).files@ == old(self).files@,
    {
        if file_id.0 < self.files.len() {
            self.files[file_id.0].term = Some((term, EntryState::Parsed));
            true
        } else {
            false
        }
    }

    /// Typechecks file `file_id` with `typecheck`, which walks the cached
    /// tree with a fresh builder and hands back the completed linearization.
    /// Fails with `NotParsed` when no tree is cached. Returns `Cached`, doing
    /// nothing, when the file is already typechecked and `lin_cache` holds
    /// its linearization. Otherwise runs `typecheck`: on success stores its
    /// linearization under the file, advances the file to `Typechecked` and
    /// returns `Done`; on a type error returns that error and changes nothing.
    pub fn typecheck_with_analysis<R, E, F>(
        &mut self,
        file_id: FileId,
        lin_cache: &mut LinCache<R>,
        typecheck: F,
    ) -> (r: Result<CacheOp<()>, CacheError<E>>) where
        F: FnOnce(&T) -> Result<Linearization<Completed<R>>, E>,

        requires
            forall|t: &T| #[trigger] typecheck.requires((t,)),
        ensures
            match old(self).decision(file_id, old(lin_cache)@) {
                Decision::NotParsed => r == Err::<CacheOp<()>, CacheError<E>>(CacheError::NotParsed)
                    && final(self).files@ == old(self).files@ && final(lin_cache)@ == old(lin_cache)@,
                Decision::Cached => r == Ok::<CacheOp<()>, CacheError<E>>(CacheOp::Cached(()))
                    && final(self).files@ == old(self).files@ && final(lin_cache)@ == old(lin_cache)@,
                Decision::Run => match r {
                    Ok(CacheOp::Done(())) => exists|l: Linearization<Completed<R>>|
                        #[trigger] typecheck.ensures((&old(self).tree(file_id),), Ok(l))
                            && final(lin_cache)@ == old(lin_cache)@.insert(file_id.0, l)
                            && old(self).advanced(*final(self), file_id),
                    Err(CacheError::Error(e)) => typecheck.ensures((&old(self).tree(file_id),), Err(e))
                        && final(self).files@ == old(self).files@ && final(lin_cache)@ == old(lin_cache)@,
                    _ => false,
                },
            },
    {
        if file_id.0 >= self.files.len() {
            return Err(CacheError::NotParsed);
        }
        let i = file_id.0;
        let mut slot: Option<(T, EntryState)> = None;
        std::mem::swap(&mut slot, &mut self.files[i].term);
        match slot {
            None => {
                assert(self.files@ =~= old(self).files@);
                Err(CacheError::NotParsed)
            },
            Some((t, state)) => {
                assert(t == old(self).tree(file_id) && state == old(self).stage(file_id));
                let known = lin_cache.contains_key(&i);
                assert(known == old(lin_cache)@.contains_key(i));
                if state == EntryState::Typechecked && known {
                    self.files[i].term = Some((t, state));
                    assert(self.files@ =~= old(self).files@);
                    return Ok(CacheOp::Cached(()));
                }
                let res = typecheck(&t);
                match res {
                    Ok(lin) => {
                        self.files[i].term = Some((t, EntryState::Typechecked));
                        assert(typecheck.ensures((&old(self).tree(file_id),), Ok(lin)));
                        lin_cache.insert(i, lin);
                        Ok(CacheOp::Done(()))
                    },
                    Err(e) => {
                        self.files[i].term = Some((t, state));
                        assert(self.files@ =~= old(self).files@);
                        Err(CacheError::Error(e))
                    },
                }
            },
        }
    }
}

/// Typechecking twice with no edit in between: once the first call has done
/// the work (advancing the file and storing its linearization), the second
/// call finds the file cached and does nothing.
pub proof fn lemma_typecheck_memoized<T, R>(
    c0: Cache<T>,
    l0: Map<usize, Linearization<Completed<R>>>,
    id: FileId,
    c1: Cache<T>,
    l1: Map<usize, Linearization<Completed<R>>>,
    lin: Linearization<Completed<R>>,
)
    requires
        c0.decision(id, l0) is Run,
        c0.advanced(c1, id),
        l1 == l0.insert(id.0, lin),
    ensures
        c1.decision(id, l1) is Cached,
{
}

/// Editing a file drops its tree: a typecheck right after the edit fails
/// with `NotParsed` rather than answering `Cached`, and once the new text is
/// parsed the typecheck runs again, whatever the linearization cache holds.
pub proof fn lemma_edit_invalidates<T, R>(
    c0: Cache<T>,
    c1: Cache<T>,
    c2: Cache<T>,
    id: FileId,
    source: Seq<char>,
    l: Map<usize, Linearization<Completed<R>>>,
)
    requires
        c0.edited(c1, id, source),
        c2.is_parsed(id),
        c2.stage(id) == EntryState::Parsed,
    ensures
        c1.decision(id, l) is NotParsed,
        c2.decision(id, l) is Run,
{
}

} // verus!
