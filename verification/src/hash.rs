use vstd::prelude::*;

verus! {

/// Copies a byte vector element by element.
pub fn copy_bytes(v: &Vec<u8>) -> (r: Vec<u8>)
    ensures
        r@ == v@,
{
    let mut r: Vec<u8> = Vec::new();
    let mut i: usize = 0;
    while i < v.len()
        invariant
            0 <= i <= v@.len(),
            r@ == v@.take(i as int),
        decreases v@.len() - i,
    {
        r.push(v[i]);
        i = i + 1;
        proof {
            assert(r@ =~= v@.take(i as int));
        }
    }
    proof {
        assert(v@.take(v@.len() as int) =~= v@);
    }
    r
}

/// Compares two byte vectors for equality of contents.
pub fn bytes_eq(a: &Vec<u8>, b: &Vec<u8>) -> (r: bool)
    ensures
        r == (a@ == b@),
{
    if a.len() != b.len() {
        return false;
    }
    let mut i: usize = 0;
    while i < a.len()
        invariant
            0 <= i <= a@.len(),
            a@.len() == b@.len(),
            forall|k: int| 0 <= k < i ==> a@[k] == b@[k],
        decreases a@.len() - i,
    {
        if a[i] != b[i] {
            return false;
        }
        i = i + 1;
    }
    proof {
        assert(a@ =~= b@);
    }
    true
}

/// A 20-byte hash naming one version of a tree or file blob.
#[derive(Debug)]
pub struct NodeHash {
    pub bytes: Vec<u8>,
}

impl View for NodeHash {
    type V = Seq<u8>;

    open spec fn view(&self) -> Seq<u8> {
        self.bytes@
    }
}

/// The bytes of the null hash: twenty zero bytes.
pub open spec fn null_hash_seq() -> Seq<u8> {
    Seq::new(20, |i: int| 0u8)
}

/// A well-formed hash holds exactly twenty bytes.
pub open spec fn hash_wf(h: Seq<u8>) -> bool {
    h.len() == 20
}

impl NodeHash {
    pub fn new(bytes: Vec<u8>) -> (h: NodeHash)
        ensures
            h@ == bytes@,
    {
        NodeHash { bytes }
    }

    pub fn dup(&self) -> (h: NodeHash)
        ensures
            h@ == self@,
    {
        NodeHash { bytes: copy_bytes(&self.bytes) }
    }

    pub fn eq_hash(&self, other: &NodeHash) -> (r: bool)
        ensures
            r == (self@ == other@),
    {
        bytes_eq(&self.bytes, &other.bytes)
    }

    pub fn is_null(&self) -> (r: bool)
        ensures
            r == (self@ == null_hash_seq()),
    {
        if self.bytes.len() != 20 {
            return false;
        }
        let mut i: usize = 0;
        while i < self.bytes.len()
            invariant
                0 <= i <= self.bytes@.len(),
                self.bytes@.len() == 20,
                forall|k: int| 0 <= k < i ==> self.bytes@[k] == 0u8,
            decreases self.bytes@.len() - i,
        {
            if self.bytes[i] != 0 {
                return false;
            }
            i = i + 1;
        }
        proof {
            assert(self@ =~= null_hash_seq());
        }
        true
    }
}

/// The hash that stands for an absent tree: all zero bytes.
pub fn null_hash() -> (h: NodeHash)
    ensures
        h@ == null_hash_seq(),
{
    let mut bytes: Vec<u8> = Vec::new();
    let mut i: usize = 0;
    while i < 20
        invariant
            0 <= i <= 20,
            bytes@.len() == i,
            forall|k: int| 0 <= k < i ==> bytes@[k] == 0u8,
        decreases 20 - i,
    {
        bytes.push(0);
        i = i + 1;
    }
    proof {
        assert(bytes@ =~= null_hash_seq());
    }
    NodeHash { bytes }
}

/// The hash of a tree blob, used where only trees are expected.
#[derive(Debug)]
pub struct HgManifestId {
    pub hash: NodeHash,
}

impl View for HgManifestId {
    type V = Seq<u8>;

    open spec fn view(&self) -> Seq<u8> {
        self.hash@
    }
}

impl HgManifestId {
    pub fn new(hash: NodeHash) -> (r: HgManifestId)
        ensures
            r@ == hash@,
    {
        HgManifestId { hash }
    }

    pub fn dup(&self) -> (r: HgManifestId)
        ensures
            r@ == self@,
    {
        HgManifestId { hash: self.hash.dup() }
    }
}

/// The hash of a file blob, used where only files are expected.
#[derive(Debug)]
pub struct HgFileNodeId {
    pub hash: NodeHash,
}

impl View for HgFileNodeId {
    type V = Seq<u8>;

    open spec fn view(&self) -> Seq<u8> {
        self.hash@
    }
}

impl HgFileNodeId {
    pub fn new(hash: NodeHash) -> (r: HgFileNodeId)
        ensures
            r@ == hash@,
    {
        HgFileNodeId { hash }
    }

    pub fn dup(&self) -> (r: HgFileNodeId)
        ensures
            r@ == self@,
    {
        HgFileNodeId { hash: self.hash.dup() }
    }
}

/// The legacy identity of a whole changeset.
#[derive(Debug)]
pub struct HgChangesetId {
    pub hash: NodeHash,
}

impl View for HgChangesetId {
    type V = Seq<u8>;

    open spec fn view(&self) -> Seq<u8> {
        self.hash@
    }
}

impl HgChangesetId {
    pub fn new(hash: NodeHash) -> (r: HgChangesetId)
        ensures
            r@ == hash@,
    {
        HgChangesetId { hash }
    }

    pub fn dup(&self) -> (r: HgChangesetId)
        ensures
            r@ == self@,
    {
        HgChangesetId { hash: self.hash.dup() }
    }
}

/// The canonical identity of a changeset, opaque to this library.
#[derive(Clone, Copy, Debug, PartialEq, Eq, Structural)]
pub struct ChangesetId {
    pub v: u64,
}

/// Which repository a commit belongs to.
#[derive(Clone, Copy, Debug, PartialEq, Eq, Structural)]
pub struct RepositoryId {
    pub id: i32,
}

/// The key under which a blob is looked up in the blob store. Tree and file
/// content live under distinct key spaces derived from the same hash.
#[derive(Debug)]
pub struct BlobKey {
    pub is_tree: bool,
    pub hash: NodeHash,
}

impl View for BlobKey {
    type V = (bool, Seq<u8>);

    open spec fn view(&self) -> (bool, Seq<u8>) {
        (self.is_tree, self.hash@)
    }
}

impl BlobKey {
    /// Derives the blob-store key for a node: the tree key space when
    /// `is_tree` holds, the file key space otherwise.
    pub fn derive(is_tree: bool, hash: &NodeHash) -> (r: BlobKey)
        ensures
            r@ == (is_tree, hash@),
    {
        BlobKey { is_tree, hash: hash.dup() }
    }

    pub fn dup(&self) -> (r: BlobKey)
        ensures
            r@ == self@,
    {
        BlobKey { is_tree: self.is_tree, hash: self.hash.dup() }
    }
}

} // verus!
