use vstd::prelude::*;
use crate::hash::NodeHash;
use crate::path::MPathElement;

verus! {

/// How a file blob is to be materialized in a working copy.
#[derive(Clone, Copy, Debug, PartialEq, Eq, Structural)]
pub enum FileType {
    Regular,
    Executable,
    Symlink,
}

/// Whether a blob is a tree or a file, and for files of which kind.
#[derive(Clone, Copy, Debug, PartialEq, Eq, Structural)]
pub enum EntryType {
    File(FileType),
    Tree,
}

/// The parent hashes of one blob version. Constructing this from two
/// optional hashes collapses a missing first parent onto the first slot, so
/// a second-parent-only blob cannot be told apart from a single-parent one;
/// downstream copy detection preserves that behaviour deliberately.
#[derive(Debug)]
pub enum HgParents {
    Zero,
    One(NodeHash),
    Two(NodeHash, NodeHash),
}

/// The shape of `HgParents` as seen by specifications.
pub enum HgParentsVw {
    Zero,
    One(Seq<u8>),
    Two(Seq<u8>, Seq<u8>),
}

impl View for HgParents {
    type V = HgParentsVw;

    open spec fn view(&self) -> HgParentsVw {
        match self {
            HgParents::Zero => HgParentsVw::Zero,
            HgParents::One(h) => HgParentsVw::One(h@),
            HgParents::Two(a, b) => HgParentsVw::Two(a@, b@),
        }
    }
}

/// What `HgParents::new` makes of two optional hashes.
pub open spec fn collapse_parents(p1: Option<Seq<u8>>, p2: Option<Seq<u8>>) -> HgParentsVw {
    match (p1, p2) {
        (Option::None, Option::None) => HgParentsVw::Zero,
        (Option::Some(a), Option::None) => HgParentsVw::One(a),
        (Option::None, Option::Some(b)) => HgParentsVw::One(b),
        (Option::Some(a), Option::Some(b)) => HgParentsVw::Two(a, b),
    }
}

impl HgParents {
    pub fn new(p1: Option<&NodeHash>, p2: Option<&NodeHash>) -> (r: HgParents)
        ensures
            r@ == collapse_parents(
                match p1 {
                    Option::Some(h) => Option::Some(h@),
                    Option::None => Option::None,
                },
                match p2 {
                    Option::Some(h) => Option::Some(h@),
                    Option::None => Option::None,
                },
            ),
    {
        match (p1, p2) {
            (None, None) => HgParents::Zero,
            (Some(h), None) => HgParents::One(h.dup()),
            (None, Some(h)) => HgParents::One(h.dup()),
            (Some(a), Some(b)) => HgParents::Two(a.dup(), b.dup()),
        }
    }

    /// The first and second slot. A lone parent always occupies the first
    /// slot, whichever argument it was built from.
    pub fn get_nodes(&self) -> (r: (Option<&NodeHash>, Option<&NodeHash>))
        ensures
            self@ is Zero ==> r.0 is None && r.1 is None,
            self@ matches HgParentsVw::One(a) ==> (r.0 matches Some(h) && h@ == a && r.1 is None),
            self@ matches HgParentsVw::Two(a, b) ==> (r.0 matches Some(h) && h@ == a
                && r.1 is Some && r.1->0@ == b),
    {
        match self {
            HgParents::Zero => (None, None),
            HgParents::One(h) => (Some(h), None),
            HgParents::Two(a, b) => (Some(a), Some(b)),
        }
    }

    /// Every parent hash present, first slot first.
    pub fn hashes(&self) -> (r: Vec<NodeHash>)
        ensures
            self@ is Zero ==> r@.len() == 0,
            self@ matches HgParentsVw::One(a) ==> r@.len() == 1 && r@[0]@ == a,
            self@ matches HgParentsVw::Two(a, b) ==> r@.len() == 2 && r@[0]@ == a && r@[1]@ == b,
    {
        let mut r: Vec<NodeHash> = Vec::new();
        match self {
            HgParents::Zero => {},
            HgParents::One(h) => {
                r.push(h.dup());
            },
            HgParents::Two(a, b) => {
                r.push(a.dup());
                r.push(b.dup());
            },
        }
        r
    }

    pub fn dup(&self) -> (r: HgParents)
        ensures
            r@ == self@,
    {
        match self {
            HgParents::Zero => HgParents::Zero,
            HgParents::One(h) => HgParents::One(h.dup()),
            HgParents::Two(a, b) => HgParents::Two(a.dup(), b.dup()),
        }
    }
}

/// One line of a tree's child listing: a name, the child's hash, and the
/// child's kind.
#[derive(Debug)]
pub struct ManifestEntry {
    pub name: MPathElement,
    pub hash: NodeHash,
    pub kind: EntryType,
}

/// The shape of a `ManifestEntry` as seen by specifications.
pub struct ManifestEntryVw {
    pub name: Seq<u8>,
    pub hash: Seq<u8>,
    pub kind: EntryType,
}

impl View for ManifestEntry {
    type V = ManifestEntryVw;

    open spec fn view(&self) -> ManifestEntryVw {
        ManifestEntryVw { name: self.name@, hash: self.hash@, kind: self.kind }
    }
}

impl ManifestEntry {
    pub fn new(name: MPathElement, hash: NodeHash, kind: EntryType) -> (r: ManifestEntry)
        ensures
            r@.name == name@ && r@.hash == hash@ && r@.kind == kind,
    {
        ManifestEntry { name, hash, kind }
    }

    pub fn dup(&self) -> (r: ManifestEntry)
        ensures
            r@ == self@,
    {
        ManifestEntry { name: self.name.dup(), hash: self.hash.dup(), kind: self.kind }
    }
}

/// What a blob holds: a child listing for a tree, raw bytes for a file.
#[derive(Debug)]
pub enum EntryContent {
    TreeContent(Vec<ManifestEntry>),
    FileBytes(Vec<u8>),
}

/// The shape of `EntryContent` as seen by specifications.
pub enum EntryContentVw {
    Tree(Seq<ManifestEntryVw>),
    File(Seq<u8>),
}

impl View for EntryContent {
    type V = EntryContentVw;

    open spec fn view(&self) -> EntryContentVw {
        match self {
            EntryContent::TreeContent(listing) => EntryContentVw::Tree(
                Seq::new(listing@.len(), |i: int| listing@[i]@),
            ),
            EntryContent::FileBytes(bytes) => EntryContentVw::File(bytes@),
        }
    }
}

/// One blob of a commit in flight: its hash, its kind, the parents of this
/// version, and its content.
#[derive(Debug)]
pub struct Entry {
    pub hash: NodeHash,
    pub kind: EntryType,
    pub p1: Option<NodeHash>,
    pub p2: Option<NodeHash>,
    pub content: EntryContent,
}

/// The shape of an `Entry` as seen by specifications.
pub struct EntryVw {
    pub hash: Seq<u8>,
    pub kind: EntryType,
    pub p1: Option<Seq<u8>>,
    pub p2: Option<Seq<u8>>,
    pub content: EntryContentVw,
}

impl View for Entry {
    type V = EntryVw;

    open spec fn view(&self) -> EntryVw {
        EntryVw {
            hash: self.hash@,
            kind: self.kind,
            p1: match self.p1 {
                Option::Some(ref h) => Option::Some(h@),
                Option::None => Option::None,
            },
            p2: match self.p2 {
                Option::Some(ref h) => Option::Some(h@),
                Option::None => Option::None,
            },
            content: self.content@,
        }
    }
}

impl Entry {
    pub fn get_type(&self) -> (r: EntryType)
        ensures
            r == self@.kind,
    {
        self.kind
    }

    pub fn get_hash(&self) -> (r: &NodeHash)
        ensures
            r@ == self@.hash,
    {
        &self.hash
    }

    /// The recorded parents of this blob version, with a missing first
    /// parent collapsed onto the first slot.
    pub fn get_parents(&self) -> (r: HgParents)
        ensures
            r@ == collapse_parents(self@.p1, self@.p2),
    {
        HgParents::new(self.p1.as_ref(), self.p2.as_ref())
    }

    /// The child listing, when this entry is tree content.
    pub fn tree_listing(&self) -> (r: Option<&Vec<ManifestEntry>>)
        ensures
            self@.content is Tree <==> r is Some,
            r matches Some(listing) ==> self@.content == EntryContentVw::Tree(
                Seq::new(listing@.len(), |i: int| listing@[i]@),
            ),
    {
        match &self.content {
            EntryContent::TreeContent(listing) => Some(listing),
            EntryContent::FileBytes(_) => None,
        }
    }

    /// The raw bytes, when this entry is file content.
    pub fn file_bytes(&self) -> (r: Option<&Vec<u8>>)
        ensures
            self@.content is File <==> r is Some,
            r matches Some(bytes) ==> self@.content == EntryContentVw::File(bytes@),
    {
        match &self.content {
            EntryContent::TreeContent(_) => None,
            EntryContent::FileBytes(bytes) => Some(bytes),
        }
    }

    pub fn dup(&self) -> (r: Entry)
        ensures
            r@ == self@,
    {
        let content = match &self.content {
            EntryContent::TreeContent(listing) => {
                let mut out: Vec<ManifestEntry> = Vec::new();
                let mut i: usize = 0;
                while i < listing.len()
                    invariant
                        0 <= i <= listing@.len(),
                        out@.len() == i,
                        forall|k: int| 0 <= k < i ==> out@[k]@ == listing@[k]@,
                    decreases listing@.len() - i,
                {
                    out.push(listing[i].dup());
                    i = i + 1;
                }
                proof {
                    assert(Seq::new(out@.len(), |i: int| out@[i]@) =~= Seq::new(
                        listing@.len(),
                        |i: int| listing@[i]@,
                    ));
                }
                EntryContent::TreeContent(out)
            },
            EntryContent::FileBytes(bytes) => EntryContent::FileBytes(
                crate::hash::copy_bytes(bytes),
            ),
        };
        Entry {
            hash: self.hash.dup(),
            kind: self.kind,
            p1: match &self.p1 {
                Option::Some(h) => Option::Some(h.dup()),
                Option::None => Option::None,
            },
            p2: match &self.p2 {
                Option::Some(h) => Option::Some(h.dup()),
                Option::None => Option::None,
            },
            content,
        }
    }
}

} // verus!
