pub mod cache;
pub mod environment;
pub mod linearization;
pub mod position;
pub mod scope;

pub use cache::{Cache, CacheError, CacheOp, CachedFile, EntryState, LinCache};
pub use linearization::{
    AnalysisHost, Building, BuildingResource, Completed, Linearization, LinearizationItem, StubHost,
    Term, TermKind,
};
pub use position::{FileId, RawSpan, TermPos};
pub use scope::ScopeId;
