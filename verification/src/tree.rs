use vstd::prelude::*;
use crate::hash::NodeHash;
use crate::path::{elem_wf, MPathElement};

verus! {

/// A resolved tree: file children with their content hashes, and named
/// sub-trees. This is the form over which the diff engine runs.
pub struct Tree {
    pub files: Vec<(MPathElement, NodeHash)>,
    pub dirs: Vec<(MPathElement, Tree)>,
}

/// Well-formed: every name is a valid component, no name is used twice at
/// one level (files and sub-trees share one namespace), and every sub-tree
/// is itself well formed.
pub open spec fn tree_wf(t: Tree) -> bool
    decreases t,
{
    &&& forall|i: int| 0 <= i < t.files@.len() ==> elem_wf(#[trigger] t.files@[i].0@)
    &&& forall|i: int| 0 <= i < t.dirs@.len() ==> elem_wf(#[trigger] t.dirs@[i].0@)
    &&& forall|i: int, j: int| 0 <= i < j < t.files@.len() ==> (#[trigger] t.files@[i].0@)
        != (#[trigger] t.files@[j].0@)
    &&& forall|i: int, j: int| 0 <= i < j < t.dirs@.len() ==> (#[trigger] t.dirs@[i].0@)
        != (#[trigger] t.dirs@[j].0@)
    &&& forall|i: int, j: int| 0 <= i < t.files@.len() && 0 <= j < t.dirs@.len()
        ==> (#[trigger] t.files@[i].0@) != (#[trigger] t.dirs@[j].0@)
    &&& forall|i: int| 0 <= i < t.dirs@.len() ==> tree_wf(#[trigger] t.dirs@[i].1)
}

/// Whether this level has a file child of that name.
pub open spec fn has_file(t: Tree, name: Seq<u8>) -> bool {
    exists|i: int| 0 <= i < t.files@.len() && (#[trigger] t.files@[i].0@) == name
}

/// The hash of the file child of that name.
pub open spec fn file_hash(t: Tree, name: Seq<u8>) -> Seq<u8> {
    t.files@[choose|i: int| 0 <= i < t.files@.len() && (#[trigger] t.files@[i].0@) == name].1@
}

/// Whether this level has a sub-tree of that name.
pub open spec fn has_dir(t: Tree, name: Seq<u8>) -> bool {
    exists|i: int| 0 <= i < t.dirs@.len() && (#[trigger] t.dirs@[i].0@) == name
}

/// The sub-tree of that name.
pub open spec fn dir_at(t: Tree, name: Seq<u8>) -> Tree {
    t.dirs@[choose|i: int| 0 <= i < t.dirs@.len() && (#[trigger] t.dirs@[i].0@) == name].1
}

/// The hash of the file at that name, if there is one.
pub open spec fn lookup_file(t: Tree, name: Seq<u8>) -> Option<Seq<u8>> {
    if has_file(t, name) {
        Option::Some(file_hash(t, name))
    } else {
        Option::None
    }
}

/// The hash of the file that the path leads to, or `None` where the path
/// leads to no file: a path of a directory, of nothing, or the empty path.
pub open spec fn file_at(t: Tree, p: Seq<Seq<u8>>) -> Option<Seq<u8>>
    decreases p.len(),
{
    if p.len() == 0 {
        Option::None
    } else if p.len() == 1 {
        lookup_file(t, p[0])
    } else if has_dir(t, p[0]) {
        file_at(dir_at(t, p[0]), p.drop_first())
    } else {
        Option::None
    }
}

/// Whether the path leads to anything at all, file or directory.
pub open spec fn node_at(t: Tree, p: Seq<Seq<u8>>) -> bool
    decreases p.len(),
{
    if p.len() == 0 {
        false
    } else if p.len() == 1 {
        has_file(t, p[0]) || has_dir(t, p[0])
    } else if has_dir(t, p[0]) {
        node_at(dir_at(t, p[0]), p.drop_first())
    } else {
        false
    }
}

/// How much tree hangs below, used as a termination measure for walks.
pub open spec fn tree_size(t: Tree) -> nat
    decreases t,
{
    t.files@.len() + dirs_size(t.dirs@)
}

pub open spec fn dirs_size(s: Seq<(MPathElement, Tree)>) -> nat
    decreases s,
{
    if s.len() == 0 {
        0
    } else {
        1 + tree_size(s[0].1) + dirs_size(s.drop_first())
    }
}

/// Every sub-tree weighs strictly less than the level that holds it.
pub proof fn lemma_dirs_size_element(s: Seq<(MPathElement, Tree)>, i: int)
    requires
        0 <= i < s.len(),
    ensures
        tree_size(s[i].1) < dirs_size(s),
    decreases s.len(),
{
    if i == 0 {
    } else {
        lemma_dirs_size_element(s.drop_first(), i - 1);
        assert(s.drop_first()[i - 1] == s[i]);
    }
}

pub proof fn lemma_subtree_size(t: Tree, i: int)
    requires
        0 <= i < t.dirs@.len(),
    ensures
        tree_size(t.dirs@[i].1) < tree_size(t),
{
    lemma_dirs_size_element(t.dirs@, i);
}

impl Tree {
    /// The tree with nothing in it, standing for an absent parent.
    pub fn empty() -> (t: Tree)
        ensures
            t.files@.len() == 0,
            t.dirs@.len() == 0,
            tree_wf(t),
            tree_size(t) == 0,
    {
        Tree { files: Vec::new(), dirs: Vec::new() }
    }
}

/// Nothing is in the empty tree.
pub proof fn lemma_empty_file_at(t: Tree, p: Seq<Seq<u8>>)
    requires
        t.files@.len() == 0,
        t.dirs@.len() == 0,
    ensures
        file_at(t, p) is None,
        !node_at(t, p),
{
}

/// Finds the file child of that name, where one exists.
pub fn find_file<'a>(t: &'a Tree, name: &MPathElement) -> (r: Option<&'a NodeHash>)
    requires
        tree_wf(*t),
    ensures
        r is Some <==> has_file(*t, name@),
        r matches Some(h) ==> h@ == file_hash(*t, name@),
{
    let mut i: usize = 0;
    while i < t.files.len()
        invariant
            0 <= i <= t.files@.len(),
            tree_wf(*t),
            forall|k: int| 0 <= k < i ==> (#[trigger] t.files@[k].0@) != name@,
        decreases t.files@.len() - i,
    {
        if t.files[i].0.eq_elem(name) {
            proof {
                let j = choose|j: int| 0 <= j < t.files@.len() && (#[trigger] t.files@[j].0@)
                    == name@;
                assert(j == i);
            }
            return Some(&t.files[i].1);
        }
        i = i + 1;
    }
    None
}

/// Finds the sub-tree of that name, where one exists.
pub fn find_dir<'a>(t: &'a Tree, name: &MPathElement) -> (r: Option<&'a Tree>)
    requires
        tree_wf(*t),
    ensures
        r is Some <==> has_dir(*t, name@),
        r matches Some(s) ==> *s == dir_at(*t, name@) && tree_wf(*s),
{
    let mut i: usize = 0;
    while i < t.dirs.len()
        invariant
            0 <= i <= t.dirs@.len(),
            tree_wf(*t),
            forall|k: int| 0 <= k < i ==> (#[trigger] t.dirs@[k].0@) != name@,
        decreases t.dirs@.len() - i,
    {
        if t.dirs[i].0.eq_elem(name) {
            proof {
                let j = choose|j: int| 0 <= j < t.dirs@.len() && (#[trigger] t.dirs@[j].0@)
                    == name@;
                assert(j == i);
            }
            return Some(&t.dirs[i].1);
        }
        i = i + 1;
    }
    None
}

} // verus!
