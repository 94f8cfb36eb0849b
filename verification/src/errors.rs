use vstd::prelude::*;
use crate::entry::EntryType;
use crate::hash::{HgChangesetId, NodeHash};
use crate::path::{MPath, RepoPath, RepoPathVw};

verus! {

/// Failures of the commit pipeline. Every error names the input that
/// produced it, so a caller can tell which blob or path was at fault.
#[derive(Debug)]
pub enum ErrorKind {
    /// A tree operation was attempted on an entry that is not a tree.
    NotAManifest(NodeHash, EntryType),
    /// The root entry handed to the orchestrator is not a root-positioned tree.
    BadRootManifest(EntryType),
    /// No canonical changeset id is mapped to this legacy changeset id.
    BonsaiMappingNotFound(HgChangesetId),
    /// Two paths in one commit differ only by letter case.
    CaseConflict(MPath),
    /// A blob required by the commit is present neither among the uploads
    /// nor in the blob store.
    MissingBlob(RepoPath),
    /// Bytes do not form a valid path.
    InvalidPath,
    /// A defensive check failed; well-formed input never reaches this.
    InternalInvariant,
}

/// The shape of an `ErrorKind` as seen by specifications.
pub enum ErrorVw {
    NotAManifest(Seq<u8>, EntryType),
    BadRootManifest(EntryType),
    BonsaiMappingNotFound(Seq<u8>),
    CaseConflict(Seq<Seq<u8>>),
    MissingBlob(RepoPathVw),
    InvalidPath,
    InternalInvariant,
}

impl View for ErrorKind {
    type V = ErrorVw;

    open spec fn view(&self) -> ErrorVw {
        match self {
            ErrorKind::NotAManifest(h, t) => ErrorVw::NotAManifest(h@, *t),
            ErrorKind::BadRootManifest(t) => ErrorVw::BadRootManifest(*t),
            ErrorKind::BonsaiMappingNotFound(id) => ErrorVw::BonsaiMappingNotFound(id@),
            ErrorKind::CaseConflict(p) => ErrorVw::CaseConflict(p@),
            ErrorKind::MissingBlob(p) => ErrorVw::MissingBlob(p@),
            ErrorKind::InvalidPath => ErrorVw::InvalidPath,
            ErrorKind::InternalInvariant => ErrorVw::InternalInvariant,
        }
    }
}

impl ErrorKind {
    /// A copy of this error, so that every subscriber of a shared signal can
    /// observe the same failure.
    pub fn dup(&self) -> (r: ErrorKind)
        ensures
            r@ == self@,
    {
        match self {
            ErrorKind::NotAManifest(h, t) => ErrorKind::NotAManifest(h.dup(), *t),
            ErrorKind::BadRootManifest(t) => ErrorKind::BadRootManifest(*t),
            ErrorKind::BonsaiMappingNotFound(id) => ErrorKind::BonsaiMappingNotFound(id.dup()),
            ErrorKind::CaseConflict(p) => ErrorKind::CaseConflict(p.dup()),
            ErrorKind::MissingBlob(p) => ErrorKind::MissingBlob(p.dup()),
            ErrorKind::InvalidPath => ErrorKind::InvalidPath,
            ErrorKind::InternalInvariant => ErrorKind::InternalInvariant,
        }
    }
}

} // verus!
