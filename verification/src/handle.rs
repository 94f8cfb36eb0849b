use vstd::prelude::*;
use crate::changeset::{BonsaiChangeset, HgBlobChangeset, HgBlobChangesetVw};
use crate::errors::{ErrorKind, ErrorVw};
use crate::hash::{ChangesetId, HgChangesetId, HgManifestId, NodeHash};

verus! {

/// The identity of a commit: its canonical id, its legacy hash, and its
/// root tree. Known as soon as the commit is constructed, before it is
/// durable.
#[derive(Debug)]
pub struct IdentityTriple {
    pub bonsai_id: ChangesetId,
    pub hg_hash: NodeHash,
    pub manifest_id: HgManifestId,
}

/// The shape of an `IdentityTriple` as seen by specifications.
pub struct IdentityTripleVw {
    pub bonsai_id: ChangesetId,
    pub hg_hash: Seq<u8>,
    pub manifest_id: Seq<u8>,
}

impl View for IdentityTriple {
    type V = IdentityTripleVw;

    open spec fn view(&self) -> IdentityTripleVw {
        IdentityTripleVw {
            bonsai_id: self.bonsai_id,
            hg_hash: self.hg_hash@,
            manifest_id: self.manifest_id@,
        }
    }
}

impl IdentityTriple {
    pub fn dup(&self) -> (r: IdentityTriple)
        ensures
            r@ == self@,
    {
        IdentityTriple {
            bonsai_id: self.bonsai_id,
            hg_hash: self.hg_hash.dup(),
            manifest_id: self.manifest_id.dup(),
        }
    }
}

/// A memoized identity signal: pending until it fires once, after which
/// every reader, however late, observes the same cached triple.
#[derive(Debug)]
pub enum IdentitySignal {
    Pending,
    Ready(IdentityTriple),
}

/// The shape of an `IdentitySignal` as seen by specifications.
pub enum IdentitySignalVw {
    Pending,
    Ready(IdentityTripleVw),
}

impl View for IdentitySignal {
    type V = IdentitySignalVw;

    open spec fn view(&self) -> IdentitySignalVw {
        match self {
            IdentitySignal::Pending => IdentitySignalVw::Pending,
            IdentitySignal::Ready(t) => IdentitySignalVw::Ready(t@),
        }
    }
}

impl IdentitySignal {
    pub fn dup(&self) -> (r: IdentitySignal)
        ensures
            r@ == self@,
    {
        match self {
            IdentitySignal::Pending => IdentitySignal::Pending,
            IdentitySignal::Ready(t) => IdentitySignal::Ready(t.dup()),
        }
    }
}

/// A memoized completion signal: pending until everything behind the
/// commit is durable, then the resolved pair, or the failure, cached for
/// every subscriber alike.
#[derive(Debug)]
pub enum CompletionSignal {
    Pending,
    Ready(BonsaiChangeset, HgBlobChangeset),
    Failed(ErrorKind),
}

/// The shape of a `CompletionSignal` as seen by specifications.
pub enum CompletionSignalVw {
    Pending,
    Ready(BonsaiChangeset, HgBlobChangesetVw),
    Failed(ErrorVw),
}

impl View for CompletionSignal {
    type V = CompletionSignalVw;

    open spec fn view(&self) -> CompletionSignalVw {
        match self {
            CompletionSignal::Pending => CompletionSignalVw::Pending,
            CompletionSignal::Ready(b, c) => CompletionSignalVw::Ready(*b, c@),
            CompletionSignal::Failed(e) => CompletionSignalVw::Failed(e@),
        }
    }
}

impl CompletionSignal {
    pub fn dup(&self) -> (r: CompletionSignal)
        ensures
            r@ == self@,
    {
        match self {
            CompletionSignal::Pending => CompletionSignal::Pending,
            CompletionSignal::Ready(b, c) => CompletionSignal::Ready(*b, c.dup()),
            CompletionSignal::Failed(e) => CompletionSignal::Failed(e.dup()),
        }
    }
}

/// A handle to a possibly incomplete commit, held by its children: the
/// identity signal fires early, so a child can be built before its parent
/// is durable; the completion signal fires once everything is stored.
#[derive(Debug)]
pub struct ChangesetHandle {
    pub can_be_parent: IdentitySignal,
    pub completion: CompletionSignal,
}

/// The shape of a `ChangesetHandle` as seen by specifications.
pub struct ChangesetHandleVw {
    pub can_be_parent: IdentitySignalVw,
    pub completion: CompletionSignalVw,
}

impl View for ChangesetHandle {
    type V = ChangesetHandleVw;

    open spec fn view(&self) -> ChangesetHandleVw {
        ChangesetHandleVw { can_be_parent: self.can_be_parent@, completion: self.completion@ }
    }
}

/// What the changeset repository can resolve, as the handle constructor
/// sees it: the canonical-id mapping and the stored bodies.
pub struct RepoModel {
    pub bonsai_mapping: Vec<(HgChangesetId, ChangesetId)>,
    pub hg_changesets: Vec<(HgChangesetId, HgBlobChangeset)>,
    pub bonsai_changesets: Vec<(ChangesetId, BonsaiChangeset)>,
}

/// Whether a legacy id has a canonical id mapped.
pub open spec fn mapping_has(r: RepoModel, h: Seq<u8>) -> bool {
    exists|i: int| 0 <= i < r.bonsai_mapping@.len() && (#[trigger] r.bonsai_mapping@[i].0@) == h
}

/// The canonical id mapped to a legacy id.
pub open spec fn mapping_at(r: RepoModel, h: Seq<u8>) -> ChangesetId {
    r.bonsai_mapping@[choose|i: int|
        0 <= i < r.bonsai_mapping@.len() && (#[trigger] r.bonsai_mapping@[i].0@) == h].1
}

/// Whether a legacy changeset body is stored.
pub open spec fn hg_cs_has(r: RepoModel, h: Seq<u8>) -> bool {
    exists|i: int| 0 <= i < r.hg_changesets@.len() && (#[trigger] r.hg_changesets@[i].0@) == h
}

/// The stored legacy changeset body.
pub open spec fn hg_cs_at(r: RepoModel, h: Seq<u8>) -> HgBlobChangesetVw {
    r.hg_changesets@[choose|i: int|
        0 <= i < r.hg_changesets@.len() && (#[trigger] r.hg_changesets@[i].0@) == h].1@
}

/// Whether a canonical changeset body is stored.
pub open spec fn bonsai_cs_has(r: RepoModel, id: ChangesetId) -> bool {
    exists|i: int| 0 <= i < r.bonsai_changesets@.len() && (#[trigger] r.bonsai_changesets@[i].0)
        == id
}

/// The stored canonical changeset body.
pub open spec fn bonsai_cs_at(r: RepoModel, id: ChangesetId) -> BonsaiChangeset {
    r.bonsai_changesets@[choose|i: int|
        0 <= i < r.bonsai_changesets@.len() && (#[trigger] r.bonsai_changesets@[i].0) == id].1
}

/// A coherent repository: keys unique, and whatever the mapping names is
/// actually stored on both sides.
pub open spec fn repo_wf(r: RepoModel) -> bool {
    &&& forall|i: int, j: int| 0 <= i < j < r.bonsai_mapping@.len()
        ==> (#[trigger] r.bonsai_mapping@[i].0@) != (#[trigger] r.bonsai_mapping@[j].0@)
    &&& forall|i: int, j: int| 0 <= i < j < r.hg_changesets@.len()
        ==> (#[trigger] r.hg_changesets@[i].0@) != (#[trigger] r.hg_changesets@[j].0@)
    &&& forall|i: int, j: int| 0 <= i < j < r.bonsai_changesets@.len()
        ==> (#[trigger] r.bonsai_changesets@[i].0) != (#[trigger] r.bonsai_changesets@[j].0)
    &&& forall|i: int| 0 <= i < r.bonsai_mapping@.len() ==> hg_cs_has(
        r,
        (#[trigger] r.bonsai_mapping@[i]).0@,
    ) && bonsai_cs_has(r, r.bonsai_mapping@[i].1)
}

impl RepoModel {
    fn find_mapping(&self, hg_cs: &HgChangesetId) -> (r: Option<ChangesetId>)
        requires
            repo_wf(*self),
        ensures
            r is Some <==> mapping_has(*self, hg_cs@),
            r matches Some(id) ==> id == mapping_at(*self, hg_cs@),
    {
        let mut i: usize = 0;
        while i < self.bonsai_mapping.len()
            invariant
                0 <= i <= self.bonsai_mapping@.len(),
                repo_wf(*self),
                forall|k: int| 0 <= k < i ==> (#[trigger] self.bonsai_mapping@[k].0@) != hg_cs@,
            decreases self.bonsai_mapping@.len() - i,
        {
            if self.bonsai_mapping[i].0.hash.eq_hash(&hg_cs.hash) {
                proof {
                    assert(self.bonsai_mapping@[i as int].0@ == hg_cs@);
                    let j = choose|j: int| 0 <= j < self.bonsai_mapping@.len()
                        && (#[trigger] self.bonsai_mapping@[j].0@) == hg_cs@;
                    assert(j == i);
                }
                return Some(self.bonsai_mapping[i].1);
            }
            i = i + 1;
        }
        None
    }

    fn find_hg_cs(&self, hg_cs: &HgChangesetId) -> (r: Option<&HgBlobChangeset>)
        requires
            repo_wf(*self),
        ensures
            r is Some <==> hg_cs_has(*self, hg_cs@),
            r matches Some(c) ==> c@ == hg_cs_at(*self, hg_cs@),
    {
        let mut i: usize = 0;
        while i < self.hg_changesets.len()
            invariant
                0 <= i <= self.hg_changesets@.len(),
                repo_wf(*self),
                forall|k: int| 0 <= k < i ==> (#[trigger] self.hg_changesets@[k].0@) != hg_cs@,
            decreases self.hg_changesets@.len() - i,
        {
            if self.hg_changesets[i].0.hash.eq_hash(&hg_cs.hash) {
                proof {
                    assert(self.hg_changesets@[i as int].0@ == hg_cs@);
                    let j = choose|j: int| 0 <= j < self.hg_changesets@.len()
                        && (#[trigger] self.hg_changesets@[j].0@) == hg_cs@;
                    assert(j == i);
                }
                return Some(&self.hg_changesets[i].1);
            }
            i = i + 1;
        }
        None
    }

    fn find_bonsai_cs(&self, id: ChangesetId) -> (r: Option<BonsaiChangeset>)
        requires
            repo_wf(*self),
        ensures
            r is Some <==> bonsai_cs_has(*self, id),
            r matches Some(c) ==> c == bonsai_cs_at(*self, id),
    {
        let mut i: usize = 0;
        while i < self.bonsai_changesets.len()
            invariant
                0 <= i <= self.bonsai_changesets@.len(),
                repo_wf(*self),
                forall|k: int| 0 <= k < i ==> (#[trigger] self.bonsai_changesets@[k].0) != id,
            decreases self.bonsai_changesets@.len() - i,
        {
            if self.bonsai_changesets[i].0 == id {
                proof {
                    let j = choose|j: int| 0 <= j < self.bonsai_changesets@.len()
                        && (#[trigger] self.bonsai_changesets@[j].0) == id;
                    assert(j == i);
                }
                return Some(self.bonsai_changesets[i].1);
            }
            i = i + 1;
        }
        None
    }
}

impl ChangesetHandle {
    /// A handle for a commit still being built: both signals are supplied
    /// by its construction pipeline.
    pub fn new_pending(can_be_parent: IdentitySignal, completion: CompletionSignal) -> (r:
        ChangesetHandle)
        ensures
            r@.can_be_parent == can_be_parent@,
            r@.completion == completion@,
    {
        ChangesetHandle { can_be_parent, completion }
    }

    /// A handle for a commit that is already fully durable: resolves the
    /// canonical-id mapping and the legacy body, publishes the identity
    /// triple at once, and exposes the joined pair as an already-fired
    /// completion signal. Fails exactly when the mapping is absent.
    pub fn ready_cs_handle(repo: &RepoModel, hg_cs: &HgChangesetId) -> (r: Result<
        ChangesetHandle,
        ErrorKind,
    >)
        requires
            repo_wf(*repo),
        ensures
            r is Ok <==> mapping_has(*repo, hg_cs@),
            r matches Err(e) ==> e@ == ErrorVw::BonsaiMappingNotFound(hg_cs@),
            r matches Ok(h) ==> ({
                &&& h@.completion matches CompletionSignalVw::Ready(b, c) && b == bonsai_cs_at(
                    *repo,
                    mapping_at(*repo, hg_cs@),
                ) && c == hg_cs_at(*repo, hg_cs@)
                &&& h@.can_be_parent matches IdentitySignalVw::Ready(t) && t.bonsai_id
                    == bonsai_cs_at(*repo, mapping_at(*repo, hg_cs@)).id && t.hg_hash == hg_cs_at(
                    *repo,
                    hg_cs@,
                ).id && t.manifest_id == hg_cs_at(*repo, hg_cs@).manifest_id
            }),
    {
        let bonsai_id = match repo.find_mapping(hg_cs) {
            Some(id) => id,
            None => {
                return Err(ErrorKind::BonsaiMappingNotFound(hg_cs.dup()));
            },
        };
        proof {
            let j = choose|j: int| 0 <= j < repo.bonsai_mapping@.len()
                && (#[trigger] repo.bonsai_mapping@[j].0@) == hg_cs@;
            assert(hg_cs_has(*repo, repo.bonsai_mapping@[j].0@));
            assert(bonsai_cs_has(*repo, repo.bonsai_mapping@[j].1));
            assert(mapping_at(*repo, hg_cs@) == repo.bonsai_mapping@[j].1);
        }
        let bonsai_cs = match repo.find_bonsai_cs(bonsai_id) {
            Some(c) => c,
            None => {
                return Err(ErrorKind::InternalInvariant);
            },
        };
        let cs = match repo.find_hg_cs(hg_cs) {
            Some(c) => c.dup(),
            None => {
                return Err(ErrorKind::InternalInvariant);
            },
        };
        let triple = IdentityTriple {
            bonsai_id: bonsai_cs.get_changeset_id(),
            hg_hash: cs.get_changeset_id().hash.dup(),
            manifest_id: cs.manifestid().dup(),
        };
        Ok(ChangesetHandle {
            can_be_parent: IdentitySignal::Ready(triple),
            completion: CompletionSignal::Ready(bonsai_cs, cs),
        })
    }

    /// The completion signal, for any number of subscribers.
    pub fn get_completed_changeset(self) -> (r: CompletionSignal)
        ensures
            r@ == self@.completion,
    {
        self.completion
    }

    pub fn dup(&self) -> (r: ChangesetHandle)
        ensures
            r@ == self@,
    {
        ChangesetHandle {
            can_be_parent: self.can_be_parent.dup(),
            completion: self.completion.dup(),
        }
    }
}

} // verus!
