use vstd::prelude::*;
use crate::entry::{collapse_parents, Entry, EntryVw, HgParents, HgParentsVw, ManifestEntryVw};
use crate::errors::{ErrorKind, ErrorVw};
use crate::filemeta::{parse_copy_info, spec_copied_from};
use crate::hash::{BlobKey, HgChangesetId, HgFileNodeId, NodeHash, RepositoryId};
use crate::path::{joined, join_element_opt, path_wf, RepoPath, RepoPathVw};

verus! {

/// One parent reference to validate at finalize time: a path together with
/// the hash of the version that the new commit builds on.
#[derive(Debug)]
pub struct NodeKey {
    pub path: RepoPath,
    pub hash: NodeHash,
}

impl View for NodeKey {
    type V = (RepoPathVw, Seq<u8>);

    open spec fn view(&self) -> (RepoPathVw, Seq<u8>) {
        (self.path@, self.hash@)
    }
}

/// One record for the filenode history index: a path, the content hash at
/// that path, its parents, any copy provenance, and the owning changeset.
#[derive(Debug)]
pub struct FilenodeInfo {
    pub path: RepoPath,
    pub filenode: HgFileNodeId,
    pub p1: Option<HgFileNodeId>,
    pub p2: Option<HgFileNodeId>,
    pub copyfrom: Option<(RepoPath, HgFileNodeId)>,
    pub linknode: HgChangesetId,
}

/// The shape of a `FilenodeInfo` as seen by specifications.
pub struct FilenodeInfoVw {
    pub path: RepoPathVw,
    pub filenode: Seq<u8>,
    pub p1: Option<Seq<u8>>,
    pub p2: Option<Seq<u8>>,
    pub copyfrom: Option<(RepoPathVw, Seq<u8>)>,
    pub linknode: Seq<u8>,
}

impl View for FilenodeInfo {
    type V = FilenodeInfoVw;

    open spec fn view(&self) -> FilenodeInfoVw {
        FilenodeInfoVw {
            path: self.path@,
            filenode: self.filenode@,
            p1: match self.p1 {
                Option::Some(ref h) => Option::Some(h@),
                Option::None => Option::None,
            },
            p2: match self.p2 {
                Option::Some(ref h) => Option::Some(h@),
                Option::None => Option::None,
            },
            copyfrom: match self.copyfrom {
                Option::Some((ref p, ref h)) => Option::Some((p@, h@)),
                Option::None => Option::None,
            },
            linknode: self.linknode@,
        }
    }
}

/// What the blob store holds, as the finalize checks see it: the keys
/// known to be present at the moment the checks run.
pub struct StoreView {
    pub keys: Vec<BlobKey>,
}

/// Whether the store holds this key.
pub open spec fn store_has(s: StoreView, k: (bool, Seq<u8>)) -> bool {
    exists|i: int| 0 <= i < s.keys@.len() && (#[trigger] s.keys@[i]@) == k
}

impl StoreView {
    pub fn new() -> (s: StoreView)
        ensures
            s.keys@.len() == 0,
    {
        StoreView { keys: Vec::new() }
    }

    pub fn insert(&mut self, key: BlobKey)
        ensures
            forall|k: (bool, Seq<u8>)| store_has(*final(self), k) <==> (store_has(*old(self), k)
                || k == key@),
    {
        let ghost pre = *self;
        let ghost kv = key@;
        self.keys.push(key);
        proof {
            assert forall|k: (bool, Seq<u8>)| store_has(*self, k) <==> (store_has(pre, k) || k
                == kv) by {
                if store_has(*self, k) {
                    let i = choose|i: int| 0 <= i < self.keys@.len() && (#[trigger] self.keys@[i]@)
                        == k;
                    if i < pre.keys@.len() {
                        assert(pre.keys@[i]@ == k);
                    }
                }
                if store_has(pre, k) {
                    let i = choose|i: int| 0 <= i < pre.keys@.len() && (#[trigger] pre.keys@[i]@)
                        == k;
                    assert(self.keys@[i]@ == k);
                }
                if k == kv {
                    assert(self.keys@[pre.keys@.len() as int]@ == k);
                }
            }
        }
    }

    /// Whether the store holds this key.
    pub fn contains(&self, key: &BlobKey) -> (r: bool)
        ensures
            r == store_has(*self, key@),
    {
        let mut i: usize = 0;
        while i < self.keys.len()
            invariant
                0 <= i <= self.keys@.len(),
                forall|k: int| 0 <= k < i ==> (#[trigger] self.keys@[k]@) != key@,
            decreases self.keys@.len() - i,
        {
            if self.keys[i].is_tree == key.is_tree && self.keys[i].hash.eq_hash(&key.hash) {
                proof {
                    assert(self.keys@[i as int]@ == key@);
                }
                return true;
            }
            i = i + 1;
        }
        false
    }
}

/// The filenode sink, recording every batch it is handed.
pub struct FilenodeSink {
    pub batches: Vec<(Vec<FilenodeInfo>, RepositoryId)>,
}

/// The number of batches the sink has received.
pub open spec fn sink_len(s: FilenodeSink) -> nat {
    s.batches@.len()
}

impl FilenodeSink {
    pub fn new() -> (s: FilenodeSink)
        ensures
            sink_len(s) == 0,
    {
        FilenodeSink { batches: Vec::new() }
    }

    /// Accepts one batch of filenode records for a repository.
    pub fn add_filenodes(&mut self, records: Vec<FilenodeInfo>, repoid: RepositoryId)
        ensures
            final(self).batches@.len() == old(self).batches@.len() + 1,
            forall|i: int| 0 <= i < old(self).batches@.len() ==> final(self).batches@[i]
                == old(self).batches@[i],
            final(self).batches@.last().0 == records,
            final(self).batches@.last().1 == repoid,
    {
        self.batches.push((records, repoid));
    }
}

/// The state tracked for one commit being built: every blob the commit is
/// known to need, every blob uploaded for it, and every parent reference
/// its blobs carry.
#[derive(Debug)]
pub struct UploadEntries {
    /// Every path the commit needs, with the hash required there. Filled
    /// from the root tree and from every uploaded sub-tree's listing.
    pub required_entries: Vec<(RepoPath, NodeHash)>,
    /// Every blob uploaded in this commit, by path. Drained once, at
    /// finalize time.
    pub uploaded_entries: Vec<(RepoPath, Entry)>,
    /// The parent references of the uploaded blobs. Each must resolve in
    /// the blob store before the commit may complete.
    pub parents: Vec<NodeKey>,
    pub repoid: RepositoryId,
    /// Draft commits have no filenodes recorded.
    pub draft: bool,
}

/// Each tracked map holds any path at most once.
pub open spec fn upload_wf(u: UploadEntries) -> bool {
    &&& forall|i: int, j: int| 0 <= i < j < u.required_entries@.len()
        ==> (#[trigger] u.required_entries@[i].0@) != (#[trigger] u.required_entries@[j].0@)
    &&& forall|i: int, j: int| 0 <= i < j < u.uploaded_entries@.len()
        ==> (#[trigger] u.uploaded_entries@[i].0@) != (#[trigger] u.uploaded_entries@[j].0@)
}

/// Whether a path is required.
pub open spec fn has_req(u: UploadEntries, p: RepoPathVw) -> bool {
    exists|i: int| 0 <= i < u.required_entries@.len() && (#[trigger] u.required_entries@[i].0@)
        == p
}

/// The hash required at a path.
pub open spec fn req_val(u: UploadEntries, p: RepoPathVw) -> Seq<u8> {
    u.required_entries@[choose|i: int|
        0 <= i < u.required_entries@.len() && (#[trigger] u.required_entries@[i].0@) == p].1@
}

/// Whether a path has been uploaded.
pub open spec fn has_upl(u: UploadEntries, p: RepoPathVw) -> bool {
    exists|i: int| 0 <= i < u.uploaded_entries@.len() && (#[trigger] u.uploaded_entries@[i].0@)
        == p
}

/// The entry uploaded at a path.
pub open spec fn upl_val(u: UploadEntries, p: RepoPathVw) -> EntryVw {
    u.uploaded_entries@[choose|i: int|
        0 <= i < u.uploaded_entries@.len() && (#[trigger] u.uploaded_entries@[i].0@) == p].1@
}

/// The parent references recorded so far, as a set.
pub open spec fn parents_set(u: UploadEntries) -> Set<(RepoPathVw, Seq<u8>)> {
    Set::new(|k: (RepoPathVw, Seq<u8>)| exists|i: int|
        0 <= i < u.parents@.len() && (#[trigger] u.parents@[i]@) == k)
}

impl UploadEntries {
    /// A fresh tracker for one commit.
    pub fn new(repoid: RepositoryId, draft: bool) -> (u: UploadEntries)
        ensures
            upload_wf(u),
            u.required_entries@.len() == 0,
            u.uploaded_entries@.len() == 0,
            u.parents@.len() == 0,
            u.repoid == repoid,
            u.draft == draft,
    {
        UploadEntries {
            required_entries: Vec::new(),
            uploaded_entries: Vec::new(),
            parents: Vec::new(),
            repoid,
            draft,
        }
    }

    /// Marks a path as required with this hash. A later requirement for
    /// the same path replaces the earlier one.
    fn insert_required(&mut self, path: RepoPath, hash: NodeHash)
        requires
            upload_wf(*old(self)),
        ensures
            upload_wf(*final(self)),
            forall|p: RepoPathVw| has_req(*final(self), p) <==> (has_req(*old(self), p) || p
                == path@),
            req_val(*final(self), path@) == hash@,
            forall|p: RepoPathVw| p != path@ && has_req(*old(self), p) ==> req_val(
                *final(self),
                p,
            ) == req_val(*old(self), p),
            final(self).uploaded_entries == old(self).uploaded_entries,
            final(self).parents == old(self).parents,
            final(self).repoid == old(self).repoid,
            final(self).draft == old(self).draft,
    {
        let ghost pv = path@;
        let ghost hv = hash@;
        let mut i: usize = 0;
        while i < self.required_entries.len()
            invariant
                0 <= i <= self.required_entries@.len(),
                *self == *old(self),
                upload_wf(*self),
                pv == path@,
                hv == hash@,
                forall|k: int| 0 <= k < i ==> (#[trigger] self.required_entries@[k].0@) != pv,
            decreases self.required_entries@.len() - i,
        {
            if self.required_entries[i].0.eq_repo_path(&path) {
                let ghost pre = *self;
                self.required_entries.set(i, (path, hash));
                proof {
                    lemma_unique_update(pre, *self, i as int, pv, hv);
                }
                return;
            }
            i = i + 1;
        }
        proof {
            assert(!has_req(*self, pv));
        }
        let ghost pre = *self;
        self.required_entries.push((path, hash));
        proof {
            lemma_unique_push(pre, *self, pv, hv);
        }
    }

    /// Records a blob as uploaded at a path. Re-processing the same path
    /// overwrites the earlier record.
    fn insert_uploaded(&mut self, path: RepoPath, entry: Entry)
        requires
            upload_wf(*old(self)),
        ensures
            upload_wf(*final(self)),
            forall|p: RepoPathVw| has_upl(*final(self), p) <==> (has_upl(*old(self), p) || p
                == path@),
            upl_val(*final(self), path@) == entry@,
            forall|p: RepoPathVw| p != path@ && has_upl(*old(self), p) ==> upl_val(
                *final(self),
                p,
            ) == upl_val(*old(self), p),
            final(self).required_entries == old(self).required_entries,
            final(self).parents == old(self).parents,
            final(self).repoid == old(self).repoid,
            final(self).draft == old(self).draft,
    {
        let ghost pv = path@;
        let ghost ev = entry@;
        let mut i: usize = 0;
        while i < self.uploaded_entries.len()
            invariant
                0 <= i <= self.uploaded_entries@.len(),
                *self == *old(self),
                upload_wf(*self),
                pv == path@,
                ev == entry@,
                forall|k: int| 0 <= k < i ==> (#[trigger] self.uploaded_entries@[k].0@) != pv,
            decreases self.uploaded_entries@.len() - i,
        {
            if self.uploaded_entries[i].0.eq_repo_path(&path) {
                let ghost pre = *self;
                self.uploaded_entries.set(i, (path, entry));
                proof {
                    lemma_unique_update_upl(pre, *self, i as int, pv, ev);
                }
                return;
            }
            i = i + 1;
        }
        proof {
            assert(!has_upl(*self, pv));
        }
        let ghost pre = *self;
        self.uploaded_entries.push((path, entry));
        proof {
            lemma_unique_push_upl(pre, *self, pv, ev);
        }
    }
}

/// After replacing the unique entry of a key, lookups behave as a map
/// update.
proof fn lemma_unique_update(
    pre: UploadEntries,
    post: UploadEntries,
    i: int,
    pathv: RepoPathVw,
    hashv: Seq<u8>,
)
    requires
        upload_wf(pre),
        0 <= i < pre.required_entries@.len(),
        post.required_entries@.len() == pre.required_entries@.len(),
        forall|k: int| 0 <= k < pre.required_entries@.len() && k != i
            ==> post.required_entries@[k] == pre.required_entries@[k],
        post.required_entries@[i].0@ == pathv,
        post.required_entries@[i].1@ == hashv,
        pre.required_entries@[i].0@ == pathv,
        post.uploaded_entries == pre.uploaded_entries,
    ensures
        upload_wf(post),
        forall|p: RepoPathVw| has_req(post, p) <==> (has_req(pre, p) || p == pathv),
        req_val(post, pathv) == hashv,
        forall|p: RepoPathVw| p != pathv && has_req(pre, p) ==> req_val(post, p) == req_val(
            pre,
            p,
        ),
{
    assert forall|a: int, b: int| 0 <= a < b < post.required_entries@.len() implies (
    #[trigger] post.required_entries@[a].0@) != (#[trigger] post.required_entries@[b].0@) by {
        assert(post.required_entries@[a].0@ == pre.required_entries@[a].0@ || a == i);
        assert(post.required_entries@[b].0@ == pre.required_entries@[b].0@ || b == i);
    }
    assert forall|p: RepoPathVw| has_req(post, p) implies (has_req(pre, p) || p == pathv) by {
        let k = choose|k: int| 0 <= k < post.required_entries@.len()
            && (#[trigger] post.required_entries@[k].0@) == p;
        if k != i {
            assert(pre.required_entries@[k].0@ == p);
        }
    }
    assert forall|p: RepoPathVw| has_req(pre, p) || p == pathv implies has_req(post, p) by {
        if p == pathv {
            assert(post.required_entries@[i].0@ == p);
        } else {
            let k = choose|k: int| 0 <= k < pre.required_entries@.len()
                && (#[trigger] pre.required_entries@[k].0@) == p;
            assert(k != i);
            assert(post.required_entries@[k].0@ == p);
        }
    }
    assert(post.required_entries@[i].0@ == pathv);
    let j = choose|k: int| 0 <= k < post.required_entries@.len()
        && (#[trigger] post.required_entries@[k].0@) == pathv;
    assert(j == i);
    assert forall|p: RepoPathVw| p != pathv && has_req(pre, p) implies req_val(post, p)
        == req_val(pre, p) by {
        let a = choose|k: int| 0 <= k < pre.required_entries@.len()
            && (#[trigger] pre.required_entries@[k].0@) == p;
        assert(a != i);
        assert(post.required_entries@[a].0@ == p);
        let b = choose|k: int| 0 <= k < post.required_entries@.len()
            && (#[trigger] post.required_entries@[k].0@) == p;
        assert(b != i);
        assert(pre.required_entries@[b].0@ == p);
        assert(a == b);
    }
}

proof fn lemma_unique_update_upl(
    pre: UploadEntries,
    post: UploadEntries,
    i: int,
    pathv: RepoPathVw,
    ev: EntryVw,
)
    requires
        upload_wf(pre),
        0 <= i < pre.uploaded_entries@.len(),
        post.uploaded_entries@.len() == pre.uploaded_entries@.len(),
        forall|k: int| 0 <= k < pre.uploaded_entries@.len() && k != i
            ==> post.uploaded_entries@[k] == pre.uploaded_entries@[k],
        post.uploaded_entries@[i].0@ == pathv,
        post.uploaded_entries@[i].1@ == ev,
        pre.uploaded_entries@[i].0@ == pathv,
        post.required_entries == pre.required_entries,
    ensures
        upload_wf(post),
        forall|p: RepoPathVw| has_upl(post, p) <==> (has_upl(pre, p) || p == pathv),
        upl_val(post, pathv) == ev,
        forall|p: RepoPathVw| p != pathv && has_upl(pre, p) ==> upl_val(post, p) == upl_val(
            pre,
            p,
        ),
{
    assert forall|a: int, b: int| 0 <= a < b < post.uploaded_entries@.len() implies (
    #[trigger] post.uploaded_entries@[a].0@) != (#[trigger] post.uploaded_entries@[b].0@) by {
        assert(post.uploaded_entries@[a].0@ == pre.uploaded_entries@[a].0@ || a == i);
        assert(post.uploaded_entries@[b].0@ == pre.uploaded_entries@[b].0@ || b == i);
    }
    assert forall|p: RepoPathVw| has_upl(post, p) implies (has_upl(pre, p) || p == pathv) by {
        let k = choose|k: int| 0 <= k < post.uploaded_entries@.len()
            && (#[trigger] post.uploaded_entries@[k].0@) == p;
        if k != i {
            assert(pre.uploaded_entries@[k].0@ == p);
        }
    }
    assert forall|p: RepoPathVw| has_upl(pre, p) || p == pathv implies has_upl(post, p) by {
        if p == pathv {
            assert(post.uploaded_entries@[i].0@ == p);
        } else {
            let k = choose|k: int| 0 <= k < pre.uploaded_entries@.len()
                && (#[trigger] pre.uploaded_entries@[k].0@) == p;
            assert(k != i);
            assert(post.uploaded_entries@[k].0@ == p);
        }
    }
    assert(post.uploaded_entries@[i].0@ == pathv);
    let j = choose|k: int| 0 <= k < post.uploaded_entries@.len()
        && (#[trigger] post.uploaded_entries@[k].0@) == pathv;
    assert(j == i);
    assert forall|p: RepoPathVw| p != pathv && has_upl(pre, p) implies upl_val(post, p)
        == upl_val(pre, p) by {
        let a = choose|k: int| 0 <= k < pre.uploaded_entries@.len()
            && (#[trigger] pre.uploaded_entries@[k].0@) == p;
        assert(a != i);
        assert(post.uploaded_entries@[a].0@ == p);
        let b = choose|k: int| 0 <= k < post.uploaded_entries@.len()
            && (#[trigger] post.uploaded_entries@[k].0@) == p;
        assert(b != i);
        assert(pre.uploaded_entries@[b].0@ == p);
        assert(a == b);
    }
}

/// Appending a key that is absent keeps the map unique and adds it.
proof fn lemma_unique_push(pre: UploadEntries, post: UploadEntries, pathv: RepoPathVw, hashv: Seq<u8>)
    requires
        upload_wf(pre),
        !has_req(pre, pathv),
        post.required_entries@.len() == pre.required_entries@.len() + 1,
        forall|k: int| 0 <= k < pre.required_entries@.len() ==> post.required_entries@[k]
            == pre.required_entries@[k],
        post.required_entries@.last().0@ == pathv,
        post.required_entries@.last().1@ == hashv,
        post.uploaded_entries == pre.uploaded_entries,
    ensures
        upload_wf(post),
        forall|p: RepoPathVw| has_req(post, p) <==> (has_req(pre, p) || p == pathv),
        req_val(post, pathv) == hashv,
        forall|p: RepoPathVw| p != pathv && has_req(pre, p) ==> req_val(post, p) == req_val(
            pre,
            p,
        ),
{
    let n = pre.required_entries@.len() as int;
    assert forall|a: int, b: int| 0 <= a < b < post.required_entries@.len() implies (
    #[trigger] post.required_entries@[a].0@) != (#[trigger] post.required_entries@[b].0@) by {
        if b == n {
            assert(post.required_entries@[a] == pre.required_entries@[a]);
            if pre.required_entries@[a].0@ == pathv {
                assert(has_req(pre, pathv));
            }
        } else {
            assert(post.required_entries@[a] == pre.required_entries@[a]);
            assert(post.required_entries@[b] == pre.required_entries@[b]);
        }
    }
    assert(post.required_entries@[n].0@ == pathv);
    assert forall|p: RepoPathVw| has_req(post, p) implies (has_req(pre, p) || p == pathv) by {
        let k = choose|k: int| 0 <= k < post.required_entries@.len()
            && (#[trigger] post.required_entries@[k].0@) == p;
        if k < n {
            assert(pre.required_entries@[k].0@ == p);
        }
    }
    let j = choose|k: int| 0 <= k < post.required_entries@.len()
        && (#[trigger] post.required_entries@[k].0@) == pathv;
    assert(j == n) by {
        if j < n {
            assert(pre.required_entries@[j].0@ == pathv);
        }
    }
    assert forall|p: RepoPathVw| p != pathv && has_req(pre, p) implies req_val(post, p)
        == req_val(pre, p) by {
        let a = choose|k: int| 0 <= k < pre.required_entries@.len()
            && (#[trigger] pre.required_entries@[k].0@) == p;
        assert(post.required_entries@[a].0@ == p);
        let b = choose|k: int| 0 <= k < post.required_entries@.len()
            && (#[trigger] post.required_entries@[k].0@) == p;
        assert(b != n);
        assert(pre.required_entries@[b].0@ == p);
        assert(a == b);
    }
}

proof fn lemma_unique_push_upl(
    pre: UploadEntries,
    post: UploadEntries,
    pathv: RepoPathVw,
    ev: EntryVw,
)
    requires
        upload_wf(pre),
        !has_upl(pre, pathv),
        post.uploaded_entries@.len() == pre.uploaded_entries@.len() + 1,
        forall|k: int| 0 <= k < pre.uploaded_entries@.len() ==> post.uploaded_entries@[k]
            == pre.uploaded_entries@[k],
        post.uploaded_entries@.last().0@ == pathv,
        post.uploaded_entries@.last().1@ == ev,
        post.required_entries == pre.required_entries,
    ensures
        upload_wf(post),
        forall|p: RepoPathVw| has_upl(post, p) <==> (has_upl(pre, p) || p == pathv),
        upl_val(post, pathv) == ev,
        forall|p: RepoPathVw| p != pathv && has_upl(pre, p) ==> upl_val(post, p) == upl_val(
            pre,
            p,
        ),
{
    let n = pre.uploaded_entries@.len() as int;
    assert forall|a: int, b: int| 0 <= a < b < post.uploaded_entries@.len() implies (
    #[trigger] post.uploaded_entries@[a].0@) != (#[trigger] post.uploaded_entries@[b].0@) by {
        if b == n {
            assert(post.uploaded_entries@[a] == pre.uploaded_entries@[a]);
            if pre.uploaded_entries@[a].0@ == pathv {
                assert(has_upl(pre, pathv));
            }
        } else {
            assert(post.uploaded_entries@[a] == pre.uploaded_entries@[a]);
            assert(post.uploaded_entries@[b] == pre.uploaded_entries@[b]);
        }
    }
    assert(post.uploaded_entries@[n].0@ == pathv);
    assert forall|p: RepoPathVw| has_upl(post, p) implies (has_upl(pre, p) || p == pathv) by {
        let k = choose|k: int| 0 <= k < post.uploaded_entries@.len()
            && (#[trigger] post.uploaded_entries@[k].0@) == p;
        if k < n {
            assert(pre.uploaded_entries@[k].0@ == p);
        }
    }
    let j = choose|k: int| 0 <= k < post.uploaded_entries@.len()
        && (#[trigger] post.uploaded_entries@[k].0@) == pathv;
    assert(j == n) by {
        if j < n {
            assert(pre.uploaded_entries@[j].0@ == pathv);
        }
    }
    assert forall|p: RepoPathVw| p != pathv && has_upl(pre, p) implies upl_val(post, p)
        == upl_val(pre, p) by {
        let a = choose|k: int| 0 <= k < pre.uploaded_entries@.len()
            && (#[trigger] pre.uploaded_entries@[k].0@) == p;
        assert(post.uploaded_entries@[a].0@ == p);
        let b = choose|k: int| 0 <= k < post.uploaded_entries@.len()
            && (#[trigger] post.uploaded_entries@[k].0@) == p;
        assert(b != n);
        assert(pre.uploaded_entries@[b].0@ == p);
        assert(a == b);
    }
}


/// The parent references one blob contributes: its own path paired with
/// each recorded parent hash.
pub open spec fn parent_keys(pathv: RepoPathVw, e: EntryVw) -> Set<(RepoPathVw, Seq<u8>)> {
    match collapse_parents(e.p1, e.p2) {
        HgParentsVw::Zero => Set::empty(),
        HgParentsVw::One(a) => set![(pathv, a)],
        HgParentsVw::Two(a, b) => set![(pathv, a)].insert((pathv, b)),
    }
}

/// The path a listing line gives its child: the parent path extended by
/// the child's name, tagged by the child's own kind.
pub open spec fn child_repo_path(base: RepoPathVw, c: ManifestEntryVw) -> RepoPathVw {
    let mp = match base {
        RepoPathVw::Root => seq![c.name],
        RepoPathVw::Dir(p) => p.push(c.name),
        RepoPathVw::File(p) => p.push(c.name),
    };
    match c.kind {
        crate::entry::EntryType::Tree => RepoPathVw::Dir(mp),
        crate::entry::EntryType::File(_) => RepoPathVw::File(mp),
    }
}

/// The hash that a tree's listing requires at a path: that of the last
/// listing line whose derived path is the one asked for.
pub open spec fn child_req_lookup(
    base: RepoPathVw,
    listing: Seq<ManifestEntryVw>,
    p: RepoPathVw,
) -> Option<Seq<u8>>
    decreases listing.len(),
{
    if listing.len() == 0 {
        Option::None
    } else if child_repo_path(base, listing.last()) == p {
        Option::Some(listing.last().hash)
    } else {
        child_req_lookup(base, listing.drop_last(), p)
    }
}

/// The required map mid-walk: what the first lines of a listing have
/// contributed on top of a base state.
pub open spec fn req_stage(
    cur: UploadEntries,
    mid: UploadEntries,
    base: RepoPathVw,
    lst: Seq<ManifestEntryVw>,
) -> bool {
    &&& forall|p: RepoPathVw| has_req(cur, p) <==> (has_req(mid, p) || (
    #[trigger] child_req_lookup(base, lst, p)) is Some)
    &&& forall|p: RepoPathVw| (#[trigger] child_req_lookup(base, lst, p)) is Some ==> req_val(
        cur,
        p,
    ) == child_req_lookup(base, lst, p)->0
    &&& forall|p: RepoPathVw| has_req(mid, p) && (#[trigger] child_req_lookup(base, lst, p))
        is None ==> req_val(cur, p) == req_val(mid, p)
}

/// One more listing line moves the stage forward by one insertion.
proof fn lemma_req_stage_step(
    prev: UploadEntries,
    cur: UploadEntries,
    mid: UploadEntries,
    base: RepoPathVw,
    lst: Seq<ManifestEntryVw>,
    c: ManifestEntryVw,
)
    requires
        req_stage(prev, mid, base, lst),
        forall|p: RepoPathVw| has_req(cur, p) <==> (has_req(prev, p) || p == child_repo_path(
            base,
            c,
        )),
        req_val(cur, child_repo_path(base, c)) == c.hash,
        forall|p: RepoPathVw| p != child_repo_path(base, c) && has_req(prev, p) ==> req_val(
            cur,
            p,
        ) == req_val(prev, p),
    ensures
        req_stage(cur, mid, base, lst.push(c)),
{
    let cp = child_repo_path(base, c);
    let ext = lst.push(c);
    assert(ext.last() == c);
    assert(ext.drop_last() =~= lst);
    assert forall|p: RepoPathVw| has_req(cur, p) <==> (has_req(mid, p) || (
    #[trigger] child_req_lookup(base, ext, p)) is Some) by {
        assert(child_req_lookup(base, lst, p) == child_req_lookup(base, lst, p));
        if p == cp {
            assert(child_req_lookup(base, ext, p) is Some);
        } else {
            assert(child_req_lookup(base, ext, p) == child_req_lookup(base, lst, p));
        }
    }
    assert forall|p: RepoPathVw| (#[trigger] child_req_lookup(base, ext, p)) is Some implies
        req_val(cur, p) == child_req_lookup(base, ext, p)->0 by {
        if p == cp {
            assert(child_req_lookup(base, ext, p) == Option::Some(c.hash));
        } else {
            assert(child_req_lookup(base, ext, p) == child_req_lookup(base, lst, p));
            assert(child_req_lookup(base, lst, p) is Some);
            assert(has_req(prev, p));
            assert(req_val(cur, p) == req_val(prev, p));
        }
    }
    assert forall|p: RepoPathVw| has_req(mid, p) && (#[trigger] child_req_lookup(base, ext, p))
        is None implies req_val(cur, p) == req_val(mid, p) by {
        assert(p != cp);
        assert(child_req_lookup(base, ext, p) == child_req_lookup(base, lst, p));
        assert(has_req(prev, p));
        assert(req_val(cur, p) == req_val(prev, p));
    }
}

/// Appending one parent reference adds exactly it to the recorded set.
proof fn lemma_parents_push(pre: UploadEntries, post: UploadEntries, kv: (RepoPathVw, Seq<u8>))
    requires
        post.parents@.len() == pre.parents@.len() + 1,
        forall|k: int| 0 <= k < pre.parents@.len() ==> post.parents@[k] == pre.parents@[k],
        post.parents@.last()@ == kv,
    ensures
        parents_set(post) == parents_set(pre).insert(kv),
{
    let n = pre.parents@.len() as int;
    assert forall|k: (RepoPathVw, Seq<u8>)| parents_set(post).contains(k) <==> parents_set(
        pre,
    ).insert(kv).contains(k) by {
        if parents_set(post).contains(k) {
            let i = choose|i: int| 0 <= i < post.parents@.len() && (#[trigger] post.parents@[i]@)
                == k;
            if i < n {
                assert(pre.parents@[i]@ == k);
            }
        }
        if parents_set(pre).contains(k) {
            let i = choose|i: int| 0 <= i < pre.parents@.len() && (#[trigger] pre.parents@[i]@)
                == k;
            assert(post.parents@[i]@ == k);
        }
        if k == kv {
            assert(post.parents@[n]@ == k);
        }
    }
    assert(parents_set(post) =~= parents_set(pre).insert(kv));
}

/// Trackers with the same required list answer lookups alike.
proof fn lemma_req_same(a: UploadEntries, b: UploadEntries)
    requires
        a.required_entries == b.required_entries,
    ensures
        forall|p: RepoPathVw| has_req(a, p) == has_req(b, p),
        forall|p: RepoPathVw| has_req(a, p) ==> req_val(a, p) == req_val(b, p),
{
    assert forall|p: RepoPathVw| has_req(a, p) == has_req(b, p) by {
        if has_req(a, p) {
            let k = choose|k: int| 0 <= k < a.required_entries@.len()
                && (#[trigger] a.required_entries@[k].0@) == p;
            assert(b.required_entries@[k].0@ == p);
        }
        if has_req(b, p) {
            let k = choose|k: int| 0 <= k < b.required_entries@.len()
                && (#[trigger] b.required_entries@[k].0@) == p;
            assert(a.required_entries@[k].0@ == p);
        }
    }
    assert forall|p: RepoPathVw| has_req(a, p) implies req_val(a, p) == req_val(b, p) by {
        let k = choose|k: int| 0 <= k < a.required_entries@.len()
            && (#[trigger] a.required_entries@[k].0@) == p;
        let k2 = choose|k2: int| 0 <= k2 < b.required_entries@.len()
            && (#[trigger] b.required_entries@[k2].0@) == p;
        assert(a.required_entries@[k2].0@ == p);
        assert(b.required_entries@[k].0@ == p);
    }
}

/// Trackers with the same uploaded list answer lookups alike.
proof fn lemma_upl_same(a: UploadEntries, b: UploadEntries)
    requires
        a.uploaded_entries == b.uploaded_entries,
    ensures
        forall|p: RepoPathVw| has_upl(a, p) == has_upl(b, p),
        forall|p: RepoPathVw| has_upl(a, p) ==> upl_val(a, p) == upl_val(b, p),
{
    assert forall|p: RepoPathVw| has_upl(a, p) == has_upl(b, p) by {
        if has_upl(a, p) {
            let k = choose|k: int| 0 <= k < a.uploaded_entries@.len()
                && (#[trigger] a.uploaded_entries@[k].0@) == p;
            assert(b.uploaded_entries@[k].0@ == p);
        }
        if has_upl(b, p) {
            let k = choose|k: int| 0 <= k < b.uploaded_entries@.len()
                && (#[trigger] b.uploaded_entries@[k].0@) == p;
            assert(a.uploaded_entries@[k].0@ == p);
        }
    }
    assert forall|p: RepoPathVw| has_upl(a, p) implies upl_val(a, p) == upl_val(b, p) by {
        let k = choose|k: int| 0 <= k < a.uploaded_entries@.len()
            && (#[trigger] a.uploaded_entries@[k].0@) == p;
        let k2 = choose|k2: int| 0 <= k2 < b.uploaded_entries@.len()
            && (#[trigger] b.uploaded_entries@[k2].0@) == p;
        assert(a.uploaded_entries@[k2].0@ == p);
        assert(b.uploaded_entries@[k].0@ == p);
    }
}

/// Trackers with the same parent list record the same set.
proof fn lemma_parents_same(a: UploadEntries, b: UploadEntries)
    requires
        a.parents == b.parents,
    ensures
        parents_set(a) == parents_set(b),
{
    assert forall|k: (RepoPathVw, Seq<u8>)| parents_set(a).contains(k) == parents_set(
        b,
    ).contains(k) by {
        if parents_set(a).contains(k) {
            let i = choose|i: int| 0 <= i < a.parents@.len() && (#[trigger] a.parents@[i]@) == k;
            assert(b.parents@[i]@ == k);
        }
        if parents_set(b).contains(k) {
            let i = choose|i: int| 0 <= i < b.parents@.len() && (#[trigger] b.parents@[i]@) == k;
            assert(a.parents@[i]@ == k);
        }
    }
    assert(parents_set(a) =~= parents_set(b));
}

impl UploadEntries {
    /// Records the parent references that one blob carries, for validation
    /// at finalize time.
    fn find_parents(&mut self, entry: &Entry, path: &RepoPath)
        requires
            upload_wf(*old(self)),
        ensures
            upload_wf(*final(self)),
            parents_set(*final(self)) == parents_set(*old(self)).union(parent_keys(
                path@,
                entry@,
            )),
            final(self).required_entries == old(self).required_entries,
            final(self).uploaded_entries == old(self).uploaded_entries,
            final(self).repoid == old(self).repoid,
            final(self).draft == old(self).draft,
    {
        let parents = entry.get_parents();
        match parents {
            HgParents::Zero => {
                proof {
                    assert(parents_set(*self) =~= parents_set(*self).union(parent_keys(
                        path@,
                        entry@,
                    )));
                }
            },
            HgParents::One(h) => {
                let ghost pre = *self;
                let ghost kv = (path@, h@);
                self.parents.push(NodeKey { path: path.dup(), hash: h.dup() });
                proof {
                    lemma_parents_push(pre, *self, kv);
                    assert(parents_set(pre).insert(kv) =~= parents_set(pre).union(parent_keys(
                        path@,
                        entry@,
                    )));
                }
            },
            HgParents::Two(a, b) => {
                let ghost pre = *self;
                let ghost k1 = (path@, a@);
                let ghost k2 = (path@, b@);
                self.parents.push(NodeKey { path: path.dup(), hash: a.dup() });
                let ghost mid = *self;
                proof {
                    lemma_parents_push(pre, mid, k1);
                }
                self.parents.push(NodeKey { path: path.dup(), hash: b.dup() });
                proof {
                    lemma_parents_push(mid, *self, k2);
                    assert(parents_set(pre).insert(k1).insert(k2) =~= parents_set(pre).union(
                        parent_keys(path@, entry@),
                    ));
                }
            },
        }
    }

    /// Parses a tree's child listing and marks every child as required, so
    /// that finalize knows the commit is complete only once each child is
    /// accounted for. The blob's own parent references are recorded
    /// whatever its content; content other than a tree is refused.
    fn process_manifest(&mut self, entry: &Entry, path: &RepoPath) -> (r: Result<(), ErrorKind>)
        requires
            upload_wf(*old(self)),
        ensures
            upload_wf(*final(self)),
            r is Ok <==> entry@.content is Tree,
            parents_set(*final(self)) == parents_set(*old(self)).union(parent_keys(
                path@,
                entry@,
            )),
            final(self).uploaded_entries == old(self).uploaded_entries,
            final(self).repoid == old(self).repoid,
            final(self).draft == old(self).draft,
            entry@.content matches crate::entry::EntryContentVw::Tree(listing) ==> ({
                &&& forall|p: RepoPathVw| has_req(*final(self), p) <==> (has_req(*old(self), p)
                    || child_req_lookup(path@, listing, p) is Some)
                &&& forall|p: RepoPathVw| (#[trigger] child_req_lookup(path@, listing, p)) matches Some(
                    h,
                ) ==> req_val(*final(self), p) == h
                &&& forall|p: RepoPathVw| has_req(*old(self), p) && child_req_lookup(
                    path@,
                    listing,
                    p,
                ) is None ==> req_val(*final(self), p) == req_val(*old(self), p)
            }),
            !(entry@.content is Tree) ==> final(self).required_entries
                == old(self).required_entries,
            r matches Err(e) ==> e@ == ErrorVw::NotAManifest(entry@.hash, entry@.kind),
    {
        self.find_parents(entry, path);
        let listing = match entry.tree_listing() {
            Some(l) => l,
            None => {
                return Err(ErrorKind::NotAManifest(entry.get_hash().dup(), entry.get_type()));
            },
        };
        let ghost lv = Seq::new(listing@.len(), |i: int| listing@[i]@);
        let ghost base = path@;
        let ghost mid = *self;
        proof {
            assert(lv.take(0) =~= Seq::<ManifestEntryVw>::empty());
            assert forall|p: RepoPathVw| (#[trigger] child_req_lookup(
                base,
                lv.take(0),
                p,
            )) is None by {
            }
            assert(req_stage(*self, mid, base, lv.take(0)));
        }
        let mut i: usize = 0;
        while i < listing.len()
            invariant
                0 <= i <= listing@.len(),
                lv == Seq::new(listing@.len(), |k: int| listing@[k]@),
                base == path@,
                upload_wf(*self),
                req_stage(*self, mid, base, lv.take(i as int)),
                self.uploaded_entries == mid.uploaded_entries,
                self.parents == mid.parents,
                self.repoid == mid.repoid,
                self.draft == mid.draft,
            decreases listing@.len() - i,
        {
            let child = &listing[i];
            let ghost cv = lv[i as int];
            proof {
                assert(cv == listing@[i as int]@);
            }
            let mpath_opt = join_element_opt(path.mpath(), Some(&child.name));
            let mpath = match mpath_opt {
                Some(mp) => mp,
                None => {
                    return Err(ErrorKind::InternalInvariant);
                },
            };
            let child_path = match child.kind {
                crate::entry::EntryType::Tree => RepoPath::DirectoryPath(mpath),
                crate::entry::EntryType::File(_) => RepoPath::FilePath(mpath),
            };
            proof {
                assert(child_path@ == child_repo_path(base, cv)) by {
                    match path@ {
                        RepoPathVw::Root => {
                            assert(mpath@ == seq![child.name@]);
                        },
                        RepoPathVw::Dir(pp) => {
                            assert(mpath@ == pp.push(child.name@));
                        },
                        RepoPathVw::File(pp) => {
                            assert(mpath@ == pp.push(child.name@));
                        },
                    }
                }
            }
            let ghost prev = *self;
            let ghost iprev = i as int;
            self.insert_required(child_path, child.hash.dup());
            i = i + 1;
            proof {
                assert(req_stage(prev, mid, base, lv.take(iprev)));
                lemma_req_stage_step(prev, *self, mid, base, lv.take(iprev), cv);
                assert(lv.take(i as int) =~= lv.take(iprev).push(cv));
                assert(req_stage(*self, mid, base, lv.take(i as int)));
            }
        }
        proof {
            assert(lv.take(lv.len() as int) =~= lv);
            assert(req_stage(*self, mid, base, lv));
            lemma_req_same(mid, *old(self));
            lemma_req_same(*old(self), mid);
        }
        Ok(())
    }

    /// Records one uploaded blob and folds what it implies into the
    /// tracker: its parent references always, and for a tree also every
    /// child its listing requires. Re-processing a path overwrites the
    /// earlier upload record.
    pub fn process_one_entry(&mut self, entry: &Entry, path: RepoPath) -> (r: Result<
        (),
        ErrorKind,
    >)
        requires
            upload_wf(*old(self)),
        ensures
            upload_wf(*final(self)),
            r is Ok <==> (entry@.kind is Tree ==> entry@.content is Tree),
            forall|p: RepoPathVw| has_upl(*final(self), p) <==> (has_upl(*old(self), p) || p
                == path@),
            upl_val(*final(self), path@) == entry@,
            forall|p: RepoPathVw| p != path@ && has_upl(*old(self), p) ==> upl_val(
                *final(self),
                p,
            ) == upl_val(*old(self), p),
            parents_set(*final(self)) == parents_set(*old(self)).union(parent_keys(
                path@,
                entry@,
            )),
            entry@.content matches crate::entry::EntryContentVw::Tree(listing) ==> (
            entry@.kind is Tree ==> ({
                &&& forall|p: RepoPathVw| has_req(*final(self), p) <==> (has_req(*old(self), p)
                    || child_req_lookup(path@, listing, p) is Some)
                &&& forall|p: RepoPathVw| (#[trigger] child_req_lookup(path@, listing, p)) matches Some(
                    h,
                ) ==> req_val(*final(self), p) == h
                &&& forall|p: RepoPathVw| has_req(*old(self), p) && child_req_lookup(
                    path@,
                    listing,
                    p,
                ) is None ==> req_val(*final(self), p) == req_val(*old(self), p)
            })),
            !(entry@.kind is Tree && entry@.content is Tree) ==> final(self).required_entries
                == old(self).required_entries,
            final(self).repoid == old(self).repoid,
            final(self).draft == old(self).draft,
            r matches Err(e) ==> e@ == ErrorVw::NotAManifest(entry@.hash, entry@.kind),
    {
        self.insert_uploaded(path.dup(), entry.dup());
        let ghost mid = *self;
        let is_tree = match entry.get_type() {
            crate::entry::EntryType::Tree => true,
            crate::entry::EntryType::File(_) => false,
        };
        let r = if is_tree {
            self.process_manifest(entry, &path)
        } else {
            self.find_parents(entry, &path);
            Ok(())
        };
        proof {
            lemma_upl_same(*self, mid);
            lemma_parents_same(mid, *old(self));
            if !is_tree {
                lemma_req_same(*self, mid);
                lemma_req_same(mid, *old(self));
            } else {
                lemma_req_same(mid, *old(self));
            }
        }
        r
    }

    /// Enters the root tree: unlike every other blob, the root is required
    /// unconditionally, since nothing else references it. An entry that is
    /// not a tree is refused and leaves the tracker unchanged.
    pub fn process_root_manifest(&mut self, entry: &Entry) -> (r: Result<(), ErrorKind>)
        requires
            upload_wf(*old(self)),
        ensures
            upload_wf(*final(self)),
            r is Ok <==> (entry@.kind is Tree && entry@.content is Tree),
            !(entry@.kind is Tree) ==> *final(self) == *old(self),
            r matches Err(e) ==> e@ == ErrorVw::NotAManifest(entry@.hash, entry@.kind),
            entry@.kind is Tree ==> ({
                &&& forall|p: RepoPathVw| has_upl(*final(self), p) <==> (has_upl(*old(self), p)
                    || p == RepoPathVw::Root)
                &&& upl_val(*final(self), RepoPathVw::Root) == entry@
                &&& parents_set(*final(self)) == parents_set(*old(self)).union(parent_keys(
                    RepoPathVw::Root,
                    entry@,
                ))
                &&& has_req(*final(self), RepoPathVw::Root)
            }),
            entry@.content matches crate::entry::EntryContentVw::Tree(listing) ==> (
            entry@.kind is Tree ==> ({
                &&& forall|p: RepoPathVw| has_req(*final(self), p) <==> (has_req(*old(self), p)
                    || p == RepoPathVw::Root || child_req_lookup(RepoPathVw::Root, listing, p)
                    is Some)
                &&& forall|p: RepoPathVw| (#[trigger] child_req_lookup(
                    RepoPathVw::Root,
                    listing,
                    p,
                )) matches Some(h) ==> req_val(*final(self), p) == h
                &&& child_req_lookup(RepoPathVw::Root, listing, RepoPathVw::Root) is None
                    && req_val(*final(self), RepoPathVw::Root) == entry@.hash
            })),
    {
        let is_tree = match entry.get_type() {
            crate::entry::EntryType::Tree => true,
            crate::entry::EntryType::File(_) => false,
        };
        if !is_tree {
            return Err(ErrorKind::NotAManifest(entry.get_hash().dup(), entry.get_type()));
        }
        self.insert_required(RepoPath::RootPath, entry.get_hash().dup());
        let ghost mid = *self;
        let r = self.process_one_entry(entry, RepoPath::RootPath);
        proof {
            lemma_upl_same(mid, *old(self));
            lemma_parents_same(mid, *old(self));
            match entry@.content {
                crate::entry::EntryContentVw::Tree(listing) => {
                    assert forall|p: RepoPathVw| child_req_lookup(
                        RepoPathVw::Root,
                        listing,
                        p,
                    ) is Some implies !(p is Root) by {
                        lemma_child_lookup_not_root(RepoPathVw::Root, listing, p);
                    }
                    lemma_child_lookup_not_root(RepoPathVw::Root, listing, RepoPathVw::Root);
                },
                _ => {
                    lemma_req_same(*self, mid);
                    lemma_req_same(mid, *self);
                },
            }
        }
        r
    }
}

/// A listing line never derives the root path.
proof fn lemma_child_lookup_not_root(
    base: RepoPathVw,
    listing: Seq<ManifestEntryVw>,
    p: RepoPathVw,
)
    ensures
        child_req_lookup(base, listing, p) is Some ==> !(p is Root),
    decreases listing.len(),
{
    if listing.len() > 0 {
        lemma_child_lookup_not_root(base, listing.drop_last(), p);
    }
}


/// Only a file-path blob with no recorded parents may carry copy
/// provenance. A blob whose only parent was given in the second slot was
/// collapsed onto the first slot when its parents were built, so here it
/// looks like an ordinary single-parent blob and its provenance is not
/// consulted. The collapse makes the two cases indistinguishable here;
/// the behaviour is kept as it stands rather than silently corrected.
pub open spec fn copy_gate(pathv: RepoPathVw, e: EntryVw) -> bool {
    pathv is File && collapse_parents(e.p1, e.p2) is Zero && e.content is File
}

/// What a correct copy-provenance answer looks like for one blob.
pub open spec fn copyfrom_ok(
    cf: Option<(RepoPathVw, Seq<u8>)>,
    pathv: RepoPathVw,
    e: EntryVw,
) -> bool {
    if copy_gate(pathv, e) {
        let bytes = e.content->File_0;
        &&& (cf is Some <==> spec_copied_from(bytes) is Some)
        &&& (cf matches Some((rp, h)) ==> (spec_copied_from(bytes) matches Some(v) && rp
            matches RepoPathVw::File(c) && path_wf(c) && joined(c) == v.0 && h == v.1))
    } else {
        cf is None
    }
}

/// Computes the copy provenance for one uploaded blob: file paths only,
/// and only when the blob records no parents; directories and the root
/// never carry copy information.
pub fn compute_copy_from_info(path: &RepoPath, entry: &Entry) -> (r: Option<(RepoPath, HgFileNodeId)>)
    ensures
        copyfrom_ok(
            match r {
                Option::Some((ref p, ref h)) => Option::Some((p@, h@)),
                Option::None => Option::None,
            },
            path@,
            entry@,
        ),
{
    if !path.is_file() {
        return None;
    }
    let parents = entry.get_parents();
    let zero = match parents {
        HgParents::Zero => true,
        _ => false,
    };
    if !zero {
        return None;
    }
    let bytes = match entry.file_bytes() {
        Some(b) => b,
        None => {
            return None;
        },
    };
    match parse_copy_info(bytes) {
        Some((p, h)) => Some((RepoPath::FilePath(p), HgFileNodeId::new(h))),
        None => None,
    }
}

/// The blob-store key a requirement resolves under: tree-key derivation
/// for the root and directories, file-key derivation for files.
pub open spec fn req_key(pathv: RepoPathVw, h: Seq<u8>) -> (bool, Seq<u8>) {
    (!(pathv is File), h)
}

/// Every required path is either uploaded in this commit or present in the
/// blob store under its derived key.
pub open spec fn required_ok(u: UploadEntries, store: StoreView) -> bool {
    forall|i: int| 0 <= i < u.required_entries@.len() ==> (has_upl(
        u,
        (#[trigger] u.required_entries@[i]).0@,
    ) || store_has(store, req_key(u.required_entries@[i].0@, u.required_entries@[i].1@)))
}

/// Every recorded parent reference resolves in the blob store.
pub open spec fn parents_ok(u: UploadEntries, store: StoreView) -> bool {
    forall|i: int| 0 <= i < u.parents@.len() ==> store_has(
        store,
        req_key((#[trigger] u.parents@[i])@.0, u.parents@[i]@.1),
    )
}

/// The path a `MissingBlob` error may name: a required path that neither
/// the uploads nor the store can satisfy, or an unresolvable parent.
pub open spec fn missing_witness(u: UploadEntries, store: StoreView, pv: RepoPathVw) -> bool {
    ||| exists|i: int| 0 <= i < u.required_entries@.len()
        && (#[trigger] u.required_entries@[i]).0@ == pv && !has_upl(u, pv) && !store_has(
        store,
        req_key(pv, u.required_entries@[i].1@),
    )
    ||| exists|i: int| 0 <= i < u.parents@.len() && (#[trigger] u.parents@[i])@.0 == pv
        && !store_has(store, req_key(pv, u.parents@[i]@.1))
}

/// What one filenode record must say about one uploaded blob.
pub open spec fn record_matches(
    rv: FilenodeInfoVw,
    pathv: RepoPathVw,
    e: EntryVw,
    link: Seq<u8>,
) -> bool {
    &&& rv.path == pathv
    &&& rv.filenode == e.hash
    &&& rv.linknode == link
    &&& match collapse_parents(e.p1, e.p2) {
        HgParentsVw::Zero => rv.p1 is None && rv.p2 is None,
        HgParentsVw::One(a) => rv.p1 == Option::Some(a) && rv.p2 is None,
        HgParentsVw::Two(a, b) => rv.p1 == Option::Some(a) && rv.p2 == Option::Some(b),
    }
    &&& copyfrom_ok(rv.copyfrom, pathv, e)
}

impl UploadEntries {
    /// Whether this path was uploaded in this commit.
    fn has_uploaded(&self, path: &RepoPath) -> (r: bool)
        ensures
            r == has_upl(*self, path@),
    {
        let mut i: usize = 0;
        while i < self.uploaded_entries.len()
            invariant
                0 <= i <= self.uploaded_entries@.len(),
                forall|k: int| 0 <= k < i ==> (#[trigger] self.uploaded_entries@[k].0@)
                    != path@,
            decreases self.uploaded_entries@.len() - i,
        {
            if self.uploaded_entries[i].0.eq_repo_path(path) {
                proof {
                    assert(self.uploaded_entries@[i as int].0@ == path@);
                }
                return true;
            }
            i = i + 1;
        }
        false
    }

    /// Consumes the tracker and validates the commit: every required path
    /// must be uploaded or already in the blob store, and every parent
    /// reference must resolve in the blob store; the first failure is
    /// reported as a missing blob. Unless the commit is a draft, one
    /// filenode record per uploaded blob is handed to the sink in a single
    /// batch, whatever the checks then find: a failing check does not
    /// cancel the materialization running beside it. A draft commit never
    /// touches the sink.
    pub fn finalize(self, store: &StoreView, sink: &mut FilenodeSink, cs_id: NodeHash) -> (r:
        Result<(), ErrorKind>)
        requires
            upload_wf(self),
        ensures
            r is Ok <==> (required_ok(self, *store) && parents_ok(self, *store)),
            r matches Err(e) ==> (e@ matches ErrorVw::MissingBlob(pv) && missing_witness(
                self,
                *store,
                pv,
            )),
            self.draft ==> *final(sink) == *old(sink),
            !self.draft ==> ({
                &&& final(sink).batches@.len() == old(sink).batches@.len() + 1
                &&& forall|i: int| 0 <= i < old(sink).batches@.len() ==> final(sink).batches@[i]
                    == old(sink).batches@[i]
                &&& final(sink).batches@.last().1 == self.repoid
                &&& final(sink).batches@.last().0@.len() == self.uploaded_entries@.len()
                &&& forall|i: int| 0 <= i < self.uploaded_entries@.len() ==> record_matches(
                    (#[trigger] final(sink).batches@.last().0@[i])@,
                    self.uploaded_entries@[i].0@,
                    self.uploaded_entries@[i].1@,
                    cs_id@,
                )
            }),
    {
        if !self.draft {
            let mut records: Vec<FilenodeInfo> = Vec::new();
            let mut i: usize = 0;
            while i < self.uploaded_entries.len()
                invariant
                    0 <= i <= self.uploaded_entries@.len(),
                    records@.len() == i,
                    forall|k: int| 0 <= k < i ==> record_matches(
                        (#[trigger] records@[k])@,
                        self.uploaded_entries@[k].0@,
                        self.uploaded_entries@[k].1@,
                        cs_id@,
                    ),
                decreases self.uploaded_entries@.len() - i,
            {
                let path = &self.uploaded_entries[i].0;
                let entry = &self.uploaded_entries[i].1;
                let parents = entry.get_parents();
                let (p1o, p2o) = parents.get_nodes();
                let p1 = match p1o {
                    Some(h) => Some(HgFileNodeId::new(h.dup())),
                    None => None,
                };
                let p2 = match p2o {
                    Some(h) => Some(HgFileNodeId::new(h.dup())),
                    None => None,
                };
                let copyfrom = compute_copy_from_info(path, entry);
                let record = FilenodeInfo {
                    path: path.dup(),
                    filenode: HgFileNodeId::new(entry.get_hash().dup()),
                    p1,
                    p2,
                    copyfrom,
                    linknode: HgChangesetId::new(cs_id.dup()),
                };
                proof {
                    assert(record_matches(
                        record@,
                        self.uploaded_entries@[i as int].0@,
                        self.uploaded_entries@[i as int].1@,
                        cs_id@,
                    ));
                }
                records.push(record);
                i = i + 1;
            }
            sink.add_filenodes(records, self.repoid);
        }
        let mut i: usize = 0;
        while i < self.required_entries.len()
            invariant
                0 <= i <= self.required_entries@.len(),
                upload_wf(self),
                self.draft ==> *sink == *old(sink),
                !self.draft ==> ({
                    &&& sink.batches@.len() == old(sink).batches@.len() + 1
                    &&& forall|t: int| 0 <= t < old(sink).batches@.len() ==> sink.batches@[t]
                        == old(sink).batches@[t]
                    &&& sink.batches@.last().1 == self.repoid
                    &&& sink.batches@.last().0@.len() == self.uploaded_entries@.len()
                    &&& forall|t: int| 0 <= t < self.uploaded_entries@.len() ==> record_matches(
                        (#[trigger] sink.batches@.last().0@[t])@,
                        self.uploaded_entries@[t].0@,
                        self.uploaded_entries@[t].1@,
                        cs_id@,
                    )
                }),
                forall|k: int| 0 <= k < i ==> (has_upl(
                    self,
                    (#[trigger] self.required_entries@[k]).0@,
                ) || store_has(
                    *store,
                    req_key(self.required_entries@[k].0@, self.required_entries@[k].1@),
                )),
            decreases self.required_entries@.len() - i,
        {
            let path = &self.required_entries[i].0;
            let hash = &self.required_entries[i].1;
            if !self.has_uploaded(path) {
                let key = BlobKey::derive(path.is_tree(), hash);
                if !store.contains(&key) {
                    proof {
                        assert(missing_witness(self, *store, path@));
                    }
                    return Err(ErrorKind::MissingBlob(path.dup()));
                }
            }
            i = i + 1;
        }
        let mut j: usize = 0;
        while j < self.parents.len()
            invariant
                0 <= j <= self.parents@.len(),
                upload_wf(self),
                required_ok(self, *store),
                self.draft ==> *sink == *old(sink),
                !self.draft ==> ({
                    &&& sink.batches@.len() == old(sink).batches@.len() + 1
                    &&& forall|t: int| 0 <= t < old(sink).batches@.len() ==> sink.batches@[t]
                        == old(sink).batches@[t]
                    &&& sink.batches@.last().1 == self.repoid
                    &&& sink.batches@.last().0@.len() == self.uploaded_entries@.len()
                    &&& forall|t: int| 0 <= t < self.uploaded_entries@.len() ==> record_matches(
                        (#[trigger] sink.batches@.last().0@[t])@,
                        self.uploaded_entries@[t].0@,
                        self.uploaded_entries@[t].1@,
                        cs_id@,
                    )
                }),

                forall|k: int| 0 <= k < j ==> store_has(
                    *store,
                    req_key((#[trigger] self.parents@[k])@.0, self.parents@[k]@.1),
                ),
            decreases self.parents@.len() - j,
        {
            let nk = &self.parents[j];
            let key = BlobKey::derive(nk.path.is_tree(), &nk.hash);
            if !store.contains(&key) {
                proof {
                    assert(missing_witness(self, *store, nk.path@));
                }
                return Err(ErrorKind::MissingBlob(nk.path.dup()));
            }
            j = j + 1;
        }
        Ok(())
    }
}

} // verus!


