use vstd::prelude::*;

verus! {

/// Handle of one source file held by the file cache.
#[derive(Debug, Clone, Copy, PartialEq, Eq, Structural, Hash)]
pub struct FileId(pub usize);

/// A byte range in one source file.
#[derive(Debug, Clone, Copy, PartialEq, Eq, Structural, Hash)]
pub struct RawSpan {
    pub src_id: FileId,
    pub start: usize,
    pub end: usize,
}

/// Position of a term: written in the source, inherited from one that is,
/// or absent for a term the compiler made up.
#[derive(Debug, Clone, Copy, PartialEq, Eq, Structural, Hash)]
pub enum TermPos {
    Original(RawSpan),
    Inherited(RawSpan),
    Absent,
}

impl TermPos {
    pub open spec fn is_present(self) -> bool {
        !(self is Absent)
    }

    /// The span, if the position is present.
    pub open spec fn span(self) -> RawSpan
        recommends
            self.is_present(),
    {
        match self {
            TermPos::Original(s) => s,
            TermPos::Inherited(s) => s,
            TermPos::Absent => RawSpan { src_id: FileId(0), start: 0, end: 0 },
        }
    }
}

} // verus!
