use vstd::prelude::*;
use crate::errors::ErrorKind;
use crate::hash::{bytes_eq, copy_bytes};

verus! {

/// One component of a path: a non-empty run of bytes holding neither a
/// separator nor a NUL byte.
#[derive(Debug, PartialEq, Eq, PartialOrd, Ord)]
pub struct MPathElement {
    pub bytes: Vec<u8>,
}

impl View for MPathElement {
    type V = Seq<u8>;

    open spec fn view(&self) -> Seq<u8> {
        self.bytes@
    }
}

/// The path separator byte, `b'/'`.
pub open spec fn sep() -> u8 {
    47u8
}

/// What a path component may hold.
pub open spec fn elem_wf(e: Seq<u8>) -> bool {
    &&& e.len() > 0
    &&& forall|i: int| 0 <= i < e.len() ==> e[i] != sep() && e[i] != 0u8
}

impl MPathElement {
    /// Accepts the bytes as one component if they hold no separator and no
    /// NUL byte and are not empty.
    pub fn new(bytes: Vec<u8>) -> (r: Result<MPathElement, ErrorKind>)
        ensures
            r is Ok <==> elem_wf(bytes@),
            r matches Ok(e) ==> e@ == bytes@,
            r matches Err(e) ==> e@ is InvalidPath,
    {
        if bytes.len() == 0 {
            return Err(ErrorKind::InvalidPath);
        }
        let mut i: usize = 0;
        while i < bytes.len()
            invariant
                0 <= i <= bytes@.len(),
                forall|k: int| 0 <= k < i ==> bytes@[k] != sep() && bytes@[k] != 0u8,
            decreases bytes@.len() - i,
        {
            if bytes[i] == 47 || bytes[i] == 0 {
                return Err(ErrorKind::InvalidPath);
            }
            i = i + 1;
        }
        Ok(MPathElement { bytes })
    }

    pub fn dup(&self) -> (r: MPathElement)
        ensures
            r@ == self@,
    {
        MPathElement { bytes: copy_bytes(&self.bytes) }
    }

    pub fn eq_elem(&self, other: &MPathElement) -> (r: bool)
        ensures
            r == (self@ == other@),
    {
        bytes_eq(&self.bytes, &other.bytes)
    }
}

/// A non-empty file or directory path, kept as its components.
#[derive(Debug, PartialEq, Eq, PartialOrd, Ord)]
pub struct MPath {
    pub elements: Vec<MPathElement>,
}

impl View for MPath {
    type V = Seq<Seq<u8>>;

    open spec fn view(&self) -> Seq<Seq<u8>> {
        Seq::new(self.elements@.len(), |i: int| self.elements@[i]@)
    }
}

/// What a whole path may hold: at least one component, each well formed.
pub open spec fn path_wf(p: Seq<Seq<u8>>) -> bool {
    &&& p.len() > 0
    &&& forall|i: int| 0 <= i < p.len() ==> elem_wf(#[trigger] p[i])
}

/// The byte form of a path: its components joined by the separator.
pub open spec fn joined(p: Seq<Seq<u8>>) -> Seq<u8>
    decreases p.len(),
{
    if p.len() == 0 {
        Seq::empty()
    } else if p.len() == 1 {
        p[0]
    } else {
        p[0] + seq![sep()] + joined(p.drop_first())
    }
}

pub proof fn lemma_joined_snoc(p: Seq<Seq<u8>>, e: Seq<u8>)
    ensures
        p.len() == 0 ==> joined(p.push(e)) == e,
        p.len() > 0 ==> joined(p.push(e)) == joined(p) + seq![sep()] + e,
    decreases p.len(),
{
    if p.len() == 0 {
        assert(p.push(e)[0] == e);
    } else if p.len() == 1 {
        assert(p.push(e).drop_first() =~= seq![e]);
        assert(joined(seq![e]) == e);
        assert(p.push(e)[0] == p[0]);
        assert(joined(p.push(e)) == p[0] + seq![sep()] + e);
    } else {
        assert(p.push(e).drop_first() =~= p.drop_first().push(e));
        lemma_joined_snoc(p.drop_first(), e);
        assert(p[0] + seq![sep()] + (joined(p.drop_first()) + seq![sep()] + e)
            =~= (p[0] + seq![sep()] + joined(p.drop_first())) + seq![sep()] + e);
    }
}

/// Bytes that parse as a path: non-empty, free of NUL bytes, and with no
/// separator at the start, at the end, or doubled.
pub open spec fn valid_path_bytes(s: Seq<u8>) -> bool {
    &&& s.len() > 0
    &&& s[0] != sep()
    &&& s[s.len() - 1] != sep()
    &&& forall|i: int| 0 <= i < s.len() ==> s[i] != 0u8
    &&& forall|i: int| 0 <= i < s.len() - 1 ==> !(s[i] == sep() && #[trigger] s[i + 1] == sep())
}

/// The byte form of a well-formed path is never empty.
pub proof fn lemma_joined_nonempty(p: Seq<Seq<u8>>)
    requires
        path_wf(p),
    ensures
        joined(p).len() > 0,
    decreases p.len(),
{
    if p.len() == 1 {
    } else {
        assert(elem_wf(p[0]));
    }
}

/// The byte form of a well-formed path is itself valid path bytes.
pub proof fn lemma_joined_valid(p: Seq<Seq<u8>>)
    requires
        path_wf(p),
    ensures
        valid_path_bytes(joined(p)),
    decreases p.len(),
{
    if p.len() == 1 {
        assert(elem_wf(p[0]));
    } else {
        let rest = p.drop_first();
        assert(path_wf(rest)) by {
            assert(forall|i: int| 0 <= i < rest.len() ==> rest[i] == p[i + 1]
                && elem_wf(#[trigger] p[i + 1]));
        }
        lemma_joined_valid(rest);
        lemma_joined_nonempty(rest);
        let e = p[0];
        let s = joined(p);
        let t = joined(rest);
        assert(elem_wf(e));
        assert(s == e + seq![sep()] + t);
        assert(s.len() == e.len() + 1 + t.len());
        assert forall|i: int| 0 <= i < s.len() implies s[i] != 0u8 by {
            if i < e.len() {
                assert(s[i] == e[i]);
            } else if i == e.len() {
                assert(s[i] == sep());
            } else {
                assert(s[i] == t[i - e.len() - 1]);
            }
        }
        assert(s[0] == e[0]);
        assert(s[s.len() - 1] == t[t.len() - 1]);
        assert forall|i: int| 0 <= i < s.len() - 1 implies !(s[i] == sep()
            && #[trigger] s[i + 1] == sep()) by {
            if i + 1 < e.len() {
                assert(s[i + 1] == e[i + 1]);
                assert(e[i + 1] != sep());
            } else if i + 1 == e.len() {
                assert(s[i] == e[i]);
                assert(e[i] != sep());
            } else if i == e.len() {
                assert(s[i + 1] == t[0]);
                assert(t[0] != sep());
            } else {
                let j = i - e.len() - 1;
                assert(s[i] == t[j]);
                assert(s[i + 1] == t[j + 1]);
                assert(!(t[j] == sep() && t[j + 1] == sep()));
            }
        }
    }
}

impl MPath {
    /// Splits the bytes at each separator into components. Succeeds exactly
    /// when the bytes are a valid path; the components then join back to the
    /// input bytes.
    pub fn new(s: &[u8]) -> (r: Result<MPath, ErrorKind>)
        ensures
            r is Ok <==> valid_path_bytes(s@),
            r matches Ok(p) ==> path_wf(p@) && joined(p@) == s@,
            r matches Err(e) ==> e@ is InvalidPath,
    {
        let ghost sv = s@;
        let mut elements: Vec<MPathElement> = Vec::new();
        let mut cur: Vec<u8> = Vec::new();
        let mut i: usize = 0;
        while i < s.len()
            invariant
                0 <= i <= sv.len(),
                s@ == sv,
                forall|k: int| 0 <= k < i ==> sv[k] != 0u8,
                forall|k: int| 0 <= k < cur@.len() ==> cur@[k] != sep() && cur@[k] != 0u8,
                path_view(elements@).len() == 0 ==> cur@ == sv.take(i as int),
                path_view(elements@).len() > 0 ==> joined(path_view(elements@)) + seq![sep()]
                    + cur@ == sv.take(i as int),
                forall|k: int| 0 <= k < path_view(elements@).len()
                    ==> elem_wf(#[trigger] path_view(elements@)[k]),
                cur@.len() == 0 ==> i == 0 || sv[i - 1] == sep(),
            decreases sv.len() - i,
        {
            let b = s[i];
            if b == 0 {
                return Err(ErrorKind::InvalidPath);
            }
            if b == 47 {
                if cur.len() == 0 {
                    proof {
                        if i == 0 {
                            assert(!valid_path_bytes(sv));
                        } else {
                            assert(sv[i - 1] == sep() && sv[i as int] == sep());
                            assert(!valid_path_bytes(sv));
                        }
                    }
                    return Err(ErrorKind::InvalidPath);
                }
                let ghost pre = path_view(elements@);
                let ghost curv = cur@;
                elements.push(MPathElement { bytes: cur });
                cur = Vec::new();
                proof {
                    assert(path_view(elements@) =~= pre.push(curv));
                    lemma_joined_snoc(pre, curv);
                    assert(joined(path_view(elements@)) + seq![sep()] + cur@
                        =~= sv.take(i + 1));
                }
            } else {
                cur.push(b);
                proof {
                    if path_view(elements@).len() == 0 {
                        assert(cur@ =~= sv.take(i + 1));
                    } else {
                        assert(joined(path_view(elements@)) + seq![sep()] + cur@
                            =~= sv.take(i + 1));
                    }
                }
            }
            i = i + 1;
        }
        if cur.len() == 0 {
            proof {
                if sv.len() > 0 {
                    assert(sv[sv.len() - 1] == sep());
                }
                assert(!valid_path_bytes(sv));
            }
            return Err(ErrorKind::InvalidPath);
        }
        let ghost pre = path_view(elements@);
        let ghost curv = cur@;
        elements.push(MPathElement { bytes: cur });
        let p = MPath { elements };
        proof {
            assert(p@ =~= pre.push(curv));
            lemma_joined_snoc(pre, curv);
            assert(sv.take(sv.len() as int) =~= sv);
            assert(joined(p@) == sv);
            assert(path_wf(p@));
            lemma_joined_valid(p@);
        }
        Ok(p)
    }

    pub fn dup(&self) -> (r: MPath)
        ensures
            r@ == self@,
    {
        let mut elements: Vec<MPathElement> = Vec::new();
        let mut i: usize = 0;
        while i < self.elements.len()
            invariant
                0 <= i <= self.elements@.len(),
                elements@.len() == i,
                forall|k: int| 0 <= k < i ==> elements@[k]@ == self.elements@[k]@,
            decreases self.elements@.len() - i,
        {
            elements.push(self.elements[i].dup());
            i = i + 1;
        }
        let r = MPath { elements };
        proof {
            assert(r@ =~= self@);
        }
        r
    }

    pub fn eq_path(&self, other: &MPath) -> (r: bool)
        ensures
            r == (self@ == other@),
    {
        if self.elements.len() != other.elements.len() {
            proof {
                assert(self@.len() != other@.len());
            }
            return false;
        }
        let mut i: usize = 0;
        while i < self.elements.len()
            invariant
                0 <= i <= self.elements@.len(),
                self.elements@.len() == other.elements@.len(),
                forall|k: int| 0 <= k < i ==> self@[k] == other@[k],
            decreases self.elements@.len() - i,
        {
            if !self.elements[i].eq_elem(&other.elements[i]) {
                proof {
                    assert(self@[i as int] != other@[i as int]);
                }
                return false;
            }
            i = i + 1;
        }
        proof {
            assert(self@ =~= other@);
        }
        true
    }

    /// The byte form of this path, components joined by the separator.
    pub fn to_vec(&self) -> (r: Vec<u8>)
        ensures
            r@ == joined(self@),
    {
        let mut r: Vec<u8> = Vec::new();
        let mut i: usize = 0;
        while i < self.elements.len()
            invariant
                0 <= i <= self.elements@.len(),
                r@ == joined(self@.take(i as int)),
            decreases self.elements@.len() - i,
        {
            if i > 0 {
                r.push(47);
            }
            let mut j: usize = 0;
            let ghost mid = r@;
            while j < self.elements[i].bytes.len()
                invariant
                    0 <= j <= self.elements@[i as int].bytes@.len(),
                    0 <= i < self.elements@.len(),
                    r@ == mid + self.elements@[i as int].bytes@.take(j as int),
                decreases self.elements@[i as int].bytes@.len() - j,
            {
                r.push(self.elements[i].bytes[j]);
                j = j + 1;
                proof {
                    assert(r@ =~= mid + self.elements@[i as int].bytes@.take(j as int));
                }
            }
            proof {
                assert(self.elements@[i as int].bytes@.take(
                    self.elements@[i as int].bytes@.len() as int,
                ) =~= self@[i as int]);
                lemma_joined_snoc(self@.take(i as int), self@[i as int]);
                assert(self@.take(i + 1) =~= self@.take(i as int).push(self@[i as int]));
                if i == 0 {
                    assert(r@ =~= joined(self@.take(i + 1)));
                } else {
                    assert(r@ =~= joined(self@.take(i + 1)));
                }
            }
            i = i + 1;
        }
        proof {
            assert(self@.take(self@.len() as int) =~= self@);
        }
        r
    }
}

/// The view of a vector of components, as a sequence of byte sequences.
pub open spec fn path_view(elements: Seq<MPathElement>) -> Seq<Seq<u8>> {
    Seq::new(elements.len(), |i: int| elements[i]@)
}

/// Joins a path and one more component. `None` comes back only when there is
/// nothing to join on either side.
pub fn join_element_opt(path: Option<&MPath>, elem: Option<&MPathElement>) -> (r: Option<MPath>)
    ensures
        path is None && elem is None ==> r is None,
        path is Some || elem is Some ==> r is Some,
        path is Some && elem is None ==> (r is Some && r->0@ == path->0@),
        path is None && elem is Some ==> (r is Some && r->0@ == seq![elem->0@]),
        path is Some && elem is Some ==> (r is Some && r->0@ == path->0@.push(elem->0@)),
{
    match (path, elem) {
        (None, None) => None,
        (Some(p), None) => Some(p.dup()),
        (None, Some(e)) => {
            let mut elements: Vec<MPathElement> = Vec::new();
            elements.push(e.dup());
            let q = MPath { elements };
            proof {
                assert(q@ =~= seq![e@]);
            }
            Some(q)
        },
        (Some(p), Some(e)) => {
            let mut q = p.dup();
            q.elements.push(e.dup());
            proof {
                assert(q@ =~= p@.push(e@));
            }
            Some(q)
        },
    }
}

/// A place a blob can occupy in the repository: the root, a directory, or a
/// file. The tag decides which blob-store key space the content lives in.
#[derive(Debug)]
pub enum RepoPath {
    RootPath,
    DirectoryPath(MPath),
    FilePath(MPath),
}

/// The shape of a `RepoPath` as seen by specifications.
pub enum RepoPathVw {
    Root,
    Dir(Seq<Seq<u8>>),
    File(Seq<Seq<u8>>),
}

impl View for RepoPath {
    type V = RepoPathVw;

    open spec fn view(&self) -> RepoPathVw {
        match self {
            RepoPath::RootPath => RepoPathVw::Root,
            RepoPath::DirectoryPath(p) => RepoPathVw::Dir(p@),
            RepoPath::FilePath(p) => RepoPathVw::File(p@),
        }
    }
}

impl RepoPath {
    /// Roots and directories hold tree blobs; files hold file blobs.
    pub fn is_tree(&self) -> (r: bool)
        ensures
            r == !(self@ is File),
    {
        match self {
            RepoPath::FilePath(_) => false,
            _ => true,
        }
    }

    pub fn is_file(&self) -> (r: bool)
        ensures
            r == (self@ is File),
    {
        match self {
            RepoPath::FilePath(_) => true,
            _ => false,
        }
    }

    /// The path inside the repository, absent for the root.
    pub fn mpath(&self) -> (r: Option<&MPath>)
        ensures
            self@ is Root <==> r is None,
            self@ matches RepoPathVw::Dir(p) ==> (r matches Some(q) && q@ == p),
            self@ matches RepoPathVw::File(p) ==> (r matches Some(q) && q@ == p),
    {
        match self {
            RepoPath::RootPath => None,
            RepoPath::DirectoryPath(p) => Some(p),
            RepoPath::FilePath(p) => Some(p),
        }
    }

    pub fn dup(&self) -> (r: RepoPath)
        ensures
            r@ == self@,
    {
        match self {
            RepoPath::RootPath => RepoPath::RootPath,
            RepoPath::DirectoryPath(p) => RepoPath::DirectoryPath(p.dup()),
            RepoPath::FilePath(p) => RepoPath::FilePath(p.dup()),
        }
    }

    pub fn eq_repo_path(&self, other: &RepoPath) -> (r: bool)
        ensures
            r == (self@ == other@),
    {
        match (self, other) {
            (RepoPath::RootPath, RepoPath::RootPath) => true,
            (RepoPath::DirectoryPath(a), RepoPath::DirectoryPath(b)) => a.eq_path(b),
            (RepoPath::FilePath(a), RepoPath::FilePath(b)) => a.eq_path(b),
            _ => false,
        }
    }
}

} // verus!
