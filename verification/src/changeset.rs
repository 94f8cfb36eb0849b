use vstd::prelude::*;
use crate::entry::{HgParents, HgParentsVw};
use crate::hash::{ChangesetId, HgChangesetId, HgManifestId};
use crate::path::MPath;

verus! {

/// The author-facing metadata of one commit.
#[derive(Debug)]
pub struct ChangesetMetadata {
    pub user: Vec<u8>,
    pub time: u64,
    pub comments: Vec<u8>,
}

/// The shape of `ChangesetMetadata` as seen by specifications.
pub struct ChangesetMetadataVw {
    pub user: Seq<u8>,
    pub time: u64,
    pub comments: Seq<u8>,
}

impl View for ChangesetMetadata {
    type V = ChangesetMetadataVw;

    open spec fn view(&self) -> ChangesetMetadataVw {
        ChangesetMetadataVw { user: self.user@, time: self.time, comments: self.comments@ }
    }
}

/// A legacy changeset body: identity, parent links, the root tree, the
/// metadata, and the changed-file list in its wire order.
#[derive(Debug)]
pub struct HgBlobChangeset {
    pub id: HgChangesetId,
    pub parents: HgParents,
    pub manifest_id: HgManifestId,
    pub metadata: ChangesetMetadata,
    pub files: Vec<MPath>,
}

/// The shape of `HgBlobChangeset` as seen by specifications.
pub struct HgBlobChangesetVw {
    pub id: Seq<u8>,
    pub parents: HgParentsVw,
    pub manifest_id: Seq<u8>,
    pub metadata: ChangesetMetadataVw,
    pub files: Seq<Seq<Seq<u8>>>,
}

impl View for HgBlobChangeset {
    type V = HgBlobChangesetVw;

    open spec fn view(&self) -> HgBlobChangesetVw {
        HgBlobChangesetVw {
            id: self.id@,
            parents: self.parents@,
            manifest_id: self.manifest_id@,
            metadata: self.metadata@,
            files: Seq::new(self.files@.len(), |i: int| self.files@[i]@),
        }
    }
}

impl HgBlobChangeset {
    pub fn get_changeset_id(&self) -> (r: &HgChangesetId)
        ensures
            r@ == self@.id,
    {
        &self.id
    }

    pub fn manifestid(&self) -> (r: &HgManifestId)
        ensures
            r@ == self@.manifest_id,
    {
        &self.manifest_id
    }

    pub fn dup(&self) -> (r: HgBlobChangeset)
        ensures
            r@ == self@,
    {
        let mut files: Vec<MPath> = Vec::new();
        let mut i: usize = 0;
        while i < self.files.len()
            invariant
                0 <= i <= self.files@.len(),
                files@.len() == i,
                forall|k: int| 0 <= k < i ==> files@[k]@ == self.files@[k]@,
            decreases self.files@.len() - i,
        {
            files.push(self.files[i].dup());
            i = i + 1;
        }
        let r = HgBlobChangeset {
            id: self.id.dup(),
            parents: self.parents.dup(),
            manifest_id: self.manifest_id.dup(),
            metadata: ChangesetMetadata {
                user: crate::hash::copy_bytes(&self.metadata.user),
                time: self.metadata.time,
                comments: crate::hash::copy_bytes(&self.metadata.comments),
            },
            files: files,
        };
        proof {
            assert(r@.files =~= self@.files);
        }
        r
    }
}

/// A canonical changeset body, held opaque but for its identity.
#[derive(Clone, Copy, Debug, PartialEq, Eq, Structural)]
pub struct BonsaiChangeset {
    pub id: ChangesetId,
}

impl BonsaiChangeset {
    pub fn get_changeset_id(&self) -> (r: ChangesetId)
        ensures
            r == self.id,
    {
        self.id
    }
}

/// Assembles a new legacy changeset from its parts: the resolved parents,
/// the root tree identity, the metadata, and the sorted changed-file list.
/// The identity under which the body will be stored is supplied by the
/// caller.
pub fn make_new_changeset(
    id: HgChangesetId,
    parents: HgParents,
    root_hash: HgManifestId,
    cs_metadata: ChangesetMetadata,
    files: Vec<MPath>,
) -> (r: HgBlobChangeset)
    ensures
        r@.id == id@,
        r@.parents == parents@,
        r@.manifest_id == root_hash@,
        r@.metadata == cs_metadata@,
        r@.files == Seq::new(files@.len(), |i: int| files@[i]@),
{
    HgBlobChangeset { id, parents, manifest_id: root_hash, metadata: cs_metadata, files }
}

} // verus!
