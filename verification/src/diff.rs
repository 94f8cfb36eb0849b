use vstd::prelude::*;
use crate::path::{elem_wf, path_wf, MPath, MPathElement};
use crate::tree::{
    dir_at, file_at, has_dir, has_file, lookup_file, node_at, tree_size, tree_wf, Tree,
    lemma_empty_file_at, lemma_subtree_size, find_dir, find_file,
};

verus! {

/// Whether the sequence holds a path with this view.
pub open spec fn in_paths(s: Seq<MPath>, p: Seq<Seq<u8>>) -> bool {
    exists|k: int| 0 <= k < s.len() && (#[trigger] s[k]@) == p
}

/// A path differs between the two trees when it leads to different file
/// content: present in one only, or present in both with another hash.
pub open spec fn changed(to: Tree, from: Tree, p: Seq<Seq<u8>>) -> bool {
    file_at(to, p) != file_at(from, p)
}

/// Well-formed paths, no view twice.
pub open spec fn wf_distinct(s: Seq<MPath>) -> bool {
    &&& forall|k: int| 0 <= k < s.len() ==> path_wf((#[trigger] s[k])@)
    &&& forall|k1: int, k2: int| 0 <= k1 < k2 < s.len() ==> (#[trigger] s[k1]@)
        != (#[trigger] s[k2]@)
}

pub proof fn lemma_in_paths_push(s: Seq<MPath>, x: MPath)
    ensures
        forall|p: Seq<Seq<u8>>| in_paths(s.push(x), p) <==> (in_paths(s, p) || p == x@),
{
    assert forall|p: Seq<Seq<u8>>| in_paths(s.push(x), p) <==> (in_paths(s, p) || p == x@) by {
        if in_paths(s.push(x), p) {
            let k = choose|k: int| 0 <= k < s.push(x).len() && (#[trigger] s.push(x)[k]@) == p;
            if k < s.len() {
                assert(s[k]@ == p);
            } else {
                assert(s.push(x)[k] == x);
            }
        }
        if in_paths(s, p) {
            let k = choose|k: int| 0 <= k < s.len() && (#[trigger] s[k]@) == p;
            assert(s.push(x)[k]@ == p);
        }
        if p == x@ {
            assert(s.push(x)[s.len() as int]@ == p);
        }
    }
}

pub proof fn lemma_push_distinct(s: Seq<MPath>, x: MPath)
    requires
        wf_distinct(s),
        path_wf(x@),
        !in_paths(s, x@),
    ensures
        wf_distinct(s.push(x)),
{
    assert forall|k1: int, k2: int| 0 <= k1 < k2 < s.push(x).len() implies (#[trigger] s.push(
        x,
    )[k1]@) != (#[trigger] s.push(x)[k2]@) by {
        if k2 == s.len() {
            assert(s.push(x)[k1] == s[k1]);
            if s[k1]@ == x@ {
                assert(in_paths(s, x@));
            }
        } else {
            assert(s.push(x)[k1] == s[k1] && s.push(x)[k2] == s[k2]);
        }
    }
}

/// Appends a path known to be new: the collection stays well formed and
/// distinct, and gains exactly that path.
pub(crate) fn push_unique(out: &mut Vec<MPath>, x: MPath)
    requires
        wf_distinct(old(out)@),
        path_wf(x@),
        !in_paths(old(out)@, x@),
    ensures
        wf_distinct(final(out)@),
        forall|p: Seq<Seq<u8>>| #[trigger] in_paths(final(out)@, p) <==> (in_paths(
            old(out)@,
            p,
        ) || p == x@),
{
    proof {
        lemma_push_distinct(out@, x);
        lemma_in_paths_push(out@, x);
    }
    out.push(x);
}

/// The file child at an index is what lookup by its name finds.
pub proof fn lemma_lookup_at_index(t: Tree, i: int)
    requires
        tree_wf(t),
        0 <= i < t.files@.len(),
    ensures
        lookup_file(t, t.files@[i].0@) == Option::Some(t.files@[i].1@),
{
    assert(has_file(t, t.files@[i].0@));
    let j = choose|j: int| 0 <= j < t.files@.len() && (#[trigger] t.files@[j].0@)
        == t.files@[i].0@;
    assert(j == i);
}

/// The sub-tree at an index is what lookup by its name finds.
pub proof fn lemma_dir_at_index(t: Tree, i: int)
    requires
        tree_wf(t),
        0 <= i < t.dirs@.len(),
    ensures
        has_dir(t, t.dirs@[i].0@),
        dir_at(t, t.dirs@[i].0@) == t.dirs@[i].1,
{
    assert(has_dir(t, t.dirs@[i].0@));
    let j = choose|j: int| 0 <= j < t.dirs@.len() && (#[trigger] t.dirs@[j].0@) == t.dirs@[i].0@;
    assert(j == i);
}

/// A single-component path.
pub fn single(name: &MPathElement) -> (r: MPath)
    ensures
        r@ == seq![name@],
{
    let mut elements: Vec<MPathElement> = Vec::new();
    elements.push(name.dup());
    let r = MPath { elements };
    proof {
        assert(r@ =~= seq![name@]);
    }
    r
}

/// The path one level down, put back under its directory name.
pub fn prepend(name: &MPathElement, p: &MPath) -> (r: MPath)
    ensures
        r@ == seq![name@] + p@,
{
    let mut elements: Vec<MPathElement> = Vec::new();
    elements.push(name.dup());
    let mut i: usize = 0;
    while i < p.elements.len()
        invariant
            0 <= i <= p.elements@.len(),
            elements@.len() == i + 1,
            elements@[0]@ == name@,
            forall|k: int| 1 <= k < i + 1 ==> elements@[k]@ == p.elements@[k - 1]@,
        decreases p.elements@.len() - i,
    {
        elements.push(p.elements[i].dup());
        i = i + 1;
    }
    let r = MPath { elements };
    proof {
        assert(r@ =~= seq![name@] + p@);
    }
    r
}

/// Stepping through the first component of a deep path: the path differs
/// between the trees exactly when its remainder differs between the
/// sub-trees of its first component (an absent side standing as empty).
pub proof fn lemma_changed_through_dir(to: Tree, from: Tree, e: Tree, p: Seq<Seq<u8>>)
    requires
        p.len() >= 2,
        has_dir(to, p[0]),
        e.files@.len() == 0,
        e.dirs@.len() == 0,
    ensures
        has_dir(from, p[0]) ==> changed(to, from, p) == changed(
            dir_at(to, p[0]),
            dir_at(from, p[0]),
            p.drop_first(),
        ),
        !has_dir(from, p[0]) ==> changed(to, from, p) == changed(
            dir_at(to, p[0]),
            e,
            p.drop_first(),
        ),
{
    lemma_empty_file_at(e, p.drop_first());
}

/// The same, when only the second tree has the directory.
pub proof fn lemma_changed_through_dir_from(to: Tree, from: Tree, e: Tree, p: Seq<Seq<u8>>)
    requires
        p.len() >= 2,
        !has_dir(to, p[0]),
        has_dir(from, p[0]),
        e.files@.len() == 0,
        e.dirs@.len() == 0,
    ensures
        changed(to, from, p) == changed(e, dir_at(from, p[0]), p.drop_first()),
{
    lemma_empty_file_at(e, p.drop_first());
}

/// Stage one of the walk: single-component paths whose name stands among
/// the first `i` file children of `to` and whose content differs.
pub open spec fn stage1(to: Tree, from: Tree, p: Seq<Seq<u8>>, i: int) -> bool {
    &&& p.len() == 1
    &&& exists|k: int| 0 <= k < i && (#[trigger] to.files@[k].0@) == p[0]
    &&& lookup_file(to, p[0]) != lookup_file(from, p[0])
}

/// Stage two: single-component paths named among the first `i` file
/// children of `from` with no file of that name in `to`.
pub open spec fn stage2(to: Tree, from: Tree, p: Seq<Seq<u8>>, i: int) -> bool {
    &&& p.len() == 1
    &&& !has_file(to, p[0])
    &&& exists|k: int| 0 <= k < i && (#[trigger] from.files@[k].0@) == p[0]
}

/// After both file stages: exactly the changed single-component paths.
pub open spec fn len1_changed(to: Tree, from: Tree, p: Seq<Seq<u8>>) -> bool {
    p.len() == 1 && changed(to, from, p)
}

/// Stage three: deeper changed paths entering one of the first `i`
/// sub-trees of `to`.
pub open spec fn stage3(to: Tree, from: Tree, p: Seq<Seq<u8>>, i: int) -> bool {
    &&& p.len() >= 2
    &&& changed(to, from, p)
    &&& exists|k: int| 0 <= k < i && (#[trigger] to.dirs@[k].0@) == p[0]
}

/// Stage four: deeper changed paths entering one of the first `i`
/// sub-trees of `from`, with no sub-tree of that name in `to`.
pub open spec fn stage4(to: Tree, from: Tree, p: Seq<Seq<u8>>, i: int) -> bool {
    &&& p.len() >= 2
    &&& changed(to, from, p)
    &&& !has_dir(to, p[0])
    &&& exists|k: int| 0 <= k < i && (#[trigger] from.dirs@[k].0@) == p[0]
}

/// Walks two trees together and collects every path that leads to
/// different file content, including files present on one side only.
pub fn compute_changed_files_pair(to: &Tree, from: &Tree) -> (r: Vec<MPath>)
    requires
        tree_wf(*to),
        tree_wf(*from),
    ensures
        wf_distinct(r@),
        forall|p: Seq<Seq<u8>>| #[trigger] in_paths(r@, p) <==> changed(*to, *from, p),
    decreases tree_size(*to) + tree_size(*from),
{
    let mut out: Vec<MPath> = Vec::new();

    // Files of `to`: changed when `from` has no such file or another hash.
    let mut i: usize = 0;
    while i < to.files.len()
        invariant
            0 <= i <= to.files@.len(),
            tree_wf(*to),
            tree_wf(*from),
            wf_distinct(out@),
            forall|p: Seq<Seq<u8>>| #[trigger] in_paths(out@, p) <==> stage1(
                *to,
                *from,
                p,
                i as int,
            ),
        decreases to.files@.len() - i,
    {
        let name = &to.files[i].0;
        let ghost nv = name@;
        proof {
            lemma_lookup_at_index(*to, i as int);
        }
        let differs = match find_file(from, name) {
            Some(h2) => !to.files[i].1.eq_hash(h2),
            None => true,
        };
        if differs {
            let x = single(name);
            let ghost out_old = out@;
            proof {
                assert(x@[0] == nv);
                assert(elem_wf(nv));
                assert(path_wf(x@));
                assert(!in_paths(out@, x@)) by {
                    if stage1(*to, *from, x@, i as int) {
                        let k = choose|k: int| 0 <= k < i && (#[trigger] to.files@[k].0@)
                            == x@[0];
                        assert(to.files@[k].0@ == to.files@[i as int].0@);
                    }
                }
            }
            push_unique(&mut out, x);
            proof {
                assert(forall|p: Seq<Seq<u8>>| #[trigger] in_paths(out@, p) <==> (in_paths(
                    out_old,
                    p,
                ) || p == seq![nv]));
                assert forall|p: Seq<Seq<u8>>| #[trigger] in_paths(out@, p) <==> stage1(
                    *to,
                    *from,
                    p,
                    i + 1,
                ) by {
                    if p == seq![nv] {
                        assert(p[0] == nv);
                        assert(to.files@[i as int].0@ == p[0]);
                        assert(stage1(*to, *from, p, i + 1));
                    }
                    if stage1(*to, *from, p, i + 1) && !stage1(*to, *from, p, i as int) {
                        let k = choose|k: int| 0 <= k < i + 1 && (#[trigger] to.files@[k].0@)
                            == p[0];
                        assert(k == i);
                        assert(p =~= seq![nv]);
                    }
                }
            }
        } else {
            proof {
                assert forall|p: Seq<Seq<u8>>| stage1(*to, *from, p, i + 1) implies stage1(
                    *to,
                    *from,
                    p,
                    i as int,
                ) by {
                    let k = choose|k: int| 0 <= k < i + 1 && (#[trigger] to.files@[k].0@)
                        == p[0];
                    if k == i {
                        assert(lookup_file(*to, p[0]) == lookup_file(*from, p[0]));
                    }
                }
            }
        }
        i = i + 1;
    }

    // Files of `from` with no file of that name in `to`: deleted content.
    let mut j: usize = 0;
    while j < from.files.len()
        invariant
            0 <= j <= from.files@.len(),
            tree_wf(*to),
            tree_wf(*from),
            wf_distinct(out@),
            forall|p: Seq<Seq<u8>>| #[trigger] in_paths(out@, p) <==> stage1(
                *to,
                *from,
                p,
                to.files@.len() as int,
            ) || stage2(*to, *from, p, j as int),
        decreases from.files@.len() - j,
    {
        let name = &from.files[j].0;
        let ghost nv = name@;
        if find_file(to, name).is_none() {
            let x = single(name);
            let ghost out_old = out@;
            proof {
                lemma_lookup_at_index(*from, j as int);
                assert(x@[0] == nv);
                assert(elem_wf(nv));
                assert(path_wf(x@));
                assert(!in_paths(out@, x@)) by {
                    if stage2(*to, *from, x@, j as int) {
                        let k = choose|k: int| 0 <= k < j && (#[trigger] from.files@[k].0@)
                            == x@[0];
                        assert(from.files@[k].0@ == from.files@[j as int].0@);
                    }
                    assert(!stage1(*to, *from, x@, to.files@.len() as int));
                }
            }
            push_unique(&mut out, x);
            proof {
                assert(forall|p: Seq<Seq<u8>>| #[trigger] in_paths(out@, p) <==> (in_paths(
                    out_old,
                    p,
                ) || p == seq![nv]));
                assert forall|p: Seq<Seq<u8>>| #[trigger] in_paths(out@, p) <==> (stage1(
                    *to,
                    *from,
                    p,
                    to.files@.len() as int,
                ) || stage2(*to, *from, p, j + 1)) by {
                    if p == seq![nv] {
                        assert(from.files@[j as int].0@ == p[0]);
                        assert(stage2(*to, *from, p, j + 1));
                    }
                    if stage2(*to, *from, p, j + 1) && !stage2(*to, *from, p, j as int) {
                        let k = choose|k: int| 0 <= k < j + 1 && (#[trigger] from.files@[k].0@)
                            == p[0];
                        assert(k == j);
                        assert(p =~= seq![nv]);
                    }
                }
            }
        } else {
            proof {
                assert forall|p: Seq<Seq<u8>>| stage2(*to, *from, p, j + 1) implies stage2(
                    *to,
                    *from,
                    p,
                    j as int,
                ) by {
                    let k = choose|k: int| 0 <= k < j + 1 && (#[trigger] from.files@[k].0@)
                        == p[0];
                    if k == j {
                        assert(has_file(*to, p[0]));
                    }
                }
            }
        }
        j = j + 1;
    }

    proof {
        assert forall|p: Seq<Seq<u8>>| #[trigger] in_paths(out@, p) <==> len1_changed(
            *to,
            *from,
            p,
        ) by {
            if stage1(*to, *from, p, to.files@.len() as int) {
                assert(changed(*to, *from, p));
            }
            if stage2(*to, *from, p, from.files@.len() as int) {
                let k = choose|k: int| 0 <= k < from.files@.len()
                    && (#[trigger] from.files@[k].0@) == p[0];
                lemma_lookup_at_index(*from, k);
                assert(changed(*to, *from, p));
            }
            if len1_changed(*to, *from, p) {
                if has_file(*to, p[0]) {
                    let k = choose|k: int| 0 <= k < to.files@.len()
                        && (#[trigger] to.files@[k].0@) == p[0];
                    assert(stage1(*to, *from, p, to.files@.len() as int));
                } else {
                    assert(has_file(*from, p[0]));
                    assert(stage2(*to, *from, p, from.files@.len() as int));
                }
            }
        }
    }

    // Sub-trees of `to`: recurse, against the matching sub-tree of `from`
    // or against nothing.
    let empty = Tree::empty();
    let mut i: usize = 0;
    while i < to.dirs.len()
        invariant
            0 <= i <= to.dirs@.len(),
            tree_wf(*to),
            tree_wf(*from),
            empty.files@.len() == 0 && empty.dirs@.len() == 0 && tree_wf(empty),
            tree_size(empty) == 0,
            wf_distinct(out@),
            forall|p: Seq<Seq<u8>>| #[trigger] in_paths(out@, p) <==> (len1_changed(
                *to,
                *from,
                p,
            ) || stage3(*to, *from, p, i as int)),
        decreases to.dirs@.len() - i,
    {
        let name = &to.dirs[i].0;
        let ghost nv = name@;
        let sub = &to.dirs[i].1;
        proof {
            lemma_dir_at_index(*to, i as int);
            lemma_subtree_size(*to, i as int);
        }
        let rs = match find_dir(from, name) {
            Some(sub2) => {
                proof {
                    let k = choose|k: int| 0 <= k < from.dirs@.len()
                        && (#[trigger] from.dirs@[k].0@) == nv;
                    lemma_subtree_size(*from, k);
                }
                compute_changed_files_pair(sub, sub2)
            },
            None => compute_changed_files_pair(sub, &empty),
        };
        let ghost rsv = rs@;
        let ghost subtree2 = if has_dir(*from, nv) {
            dir_at(*from, nv)
        } else {
            empty
        };
        proof {
            assert(forall|q: Seq<Seq<u8>>| #[trigger] in_paths(rsv, q) <==> changed(
                to.dirs@[i as int].1,
                subtree2,
                q,
            ));
        }
        let mut m: usize = 0;
        while m < rs.len()
            invariant
                0 <= m <= rs@.len(),
                rs@ == rsv,
                tree_wf(*to),
                tree_wf(*from),
                0 <= i < to.dirs@.len(),
                nv == to.dirs@[i as int].0@,
                name@ == nv,
                elem_wf(nv),
                wf_distinct(rsv),
                forall|q: Seq<Seq<u8>>| #[trigger] in_paths(rsv, q) <==> changed(
                    to.dirs@[i as int].1,
                    subtree2,
                    q,
                ),
                subtree2 == if has_dir(*from, nv) { dir_at(*from, nv) } else { empty },
                empty.files@.len() == 0 && empty.dirs@.len() == 0,
                wf_distinct(out@),
                forall|p: Seq<Seq<u8>>| #[trigger] in_paths(out@, p) <==> (len1_changed(
                    *to,
                    *from,
                    p,
                ) || stage3(*to, *from, p, i as int) || exists|mm: int|
                    0 <= mm < m && p == seq![nv] + (#[trigger] rsv[mm]@)),
            decreases rs@.len() - m,
        {
            let x = prepend(name, &rs[m]);
            let ghost out_old = out@;
            let ghost qv = rs@[m as int]@;
            proof {
                assert(rsv[m as int]@ == qv);
                assert(in_paths(rsv, qv));
                assert(path_wf(qv));
                assert(x@ == seq![nv] + qv);
                assert(x@.len() == 1 + qv.len());
                assert(qv.len() >= 1) by {
                    assert(changed(to.dirs@[i as int].1, subtree2, qv));
                }
                assert(x@[0] == nv);
                assert(path_wf(x@)) by {
                    assert forall|c: int| 0 <= c < x@.len() implies elem_wf(x@[c]) by {
                        if c == 0 {
                            assert(x@[c] == nv);
                        } else {
                            assert(x@[c] == qv[c - 1]);
                        }
                    }
                }
                assert(!in_paths(out@, x@)) by {
                    if stage3(*to, *from, x@, i as int) {
                        let k = choose|k: int| 0 <= k < i && (#[trigger] to.dirs@[k].0@)
                            == x@[0];
                        assert(to.dirs@[k].0@ == to.dirs@[i as int].0@);
                    }
                    if exists|mm: int| 0 <= mm < m && x@ == seq![nv] + (#[trigger] rsv[mm]@) {
                        let mm = choose|mm: int| 0 <= mm < m && x@ == seq![nv]
                            + (#[trigger] rsv[mm]@);
                        assert((seq![nv] + rsv[mm]@).skip(1) =~= rsv[mm]@);
                        assert((seq![nv] + qv).skip(1) =~= qv);
                        assert(rsv[mm]@ == qv);
                    }
                }
            }
            push_unique(&mut out, x);
            m = m + 1;
            proof {
                assert(forall|p: Seq<Seq<u8>>| #[trigger] in_paths(out@, p) <==> (in_paths(
                    out_old,
                    p,
                ) || p == seq![nv] + qv));
                assert forall|p: Seq<Seq<u8>>| #[trigger] in_paths(out@, p) <==> (len1_changed(
                    *to,
                    *from,
                    p,
                ) || stage3(*to, *from, p, i as int) || exists|mm: int|
                    0 <= mm < m && p == seq![nv] + (#[trigger] rsv[mm]@)) by {
                    if p == seq![nv] + qv {
                        assert(rsv[m - 1]@ == qv);
                        assert(0 <= m - 1 < m && p == seq![nv] + rsv[m - 1]@);
                    }
                }
            }
        }
        i = i + 1;
        proof {
            assert forall|p: Seq<Seq<u8>>| #[trigger] in_paths(out@, p) <==> (len1_changed(
                *to,
                *from,
                p,
            ) || stage3(*to, *from, p, i as int)) by {
                if exists|mm: int| 0 <= mm < rsv.len() && p == seq![nv]
                    + (#[trigger] rsv[mm]@) {
                    let mm = choose|mm: int| 0 <= mm < rsv.len() && p == seq![nv]
                        + (#[trigger] rsv[mm]@);
                    assert(in_paths(rsv, rsv[mm]@));
                    assert(changed(to.dirs@[i - 1].1, subtree2, rsv[mm]@));
                    assert(p[0] == nv);
                    assert(p.drop_first() =~= rsv[mm]@);
                    assert(p.len() >= 2);
                    lemma_changed_through_dir(*to, *from, empty, p);
                    assert(changed(*to, *from, p));
                    assert(to.dirs@[i - 1].0@ == p[0]);
                    assert(stage3(*to, *from, p, i as int));
                }
                if stage3(*to, *from, p, i as int) && !stage3(*to, *from, p, i - 1)
                    && !len1_changed(*to, *from, p) {
                    let k = choose|k: int| 0 <= k < i && (#[trigger] to.dirs@[k].0@) == p[0];
                    assert(k == i - 1);
                    assert(p[0] == nv);
                    lemma_changed_through_dir(*to, *from, empty, p);
                    assert(changed(to.dirs@[i - 1].1, subtree2, p.drop_first()));
                    assert(in_paths(rsv, p.drop_first()));
                    let mm = choose|mm: int| 0 <= mm < rsv.len() && (#[trigger] rsv[mm]@)
                        == p.drop_first();
                    assert(p =~= seq![nv] + rsv[mm]@);
                }
            }
        }
    }

    // Sub-trees of `from` with no sub-tree of that name in `to`.
    let mut j: usize = 0;
    while j < from.dirs.len()
        invariant
            0 <= j <= from.dirs@.len(),
            tree_wf(*to),
            tree_wf(*from),
            empty.files@.len() == 0 && empty.dirs@.len() == 0 && tree_wf(empty),
            tree_size(empty) == 0,
            wf_distinct(out@),
            forall|p: Seq<Seq<u8>>| #[trigger] in_paths(out@, p) <==> (len1_changed(
                *to,
                *from,
                p,
            ) || stage3(*to, *from, p, to.dirs@.len() as int) || stage4(*to, *from, p, j as int)),
        decreases from.dirs@.len() - j,
    {
        let name = &from.dirs[j].0;
        let ghost nv = name@;
        let sub2 = &from.dirs[j].1;
        proof {
            lemma_dir_at_index(*from, j as int);
            lemma_subtree_size(*from, j as int);
        }
        if find_dir(to, name).is_none() {
            let rs = compute_changed_files_pair(&empty, sub2);
            let ghost rsv = rs@;
            let mut m: usize = 0;
            while m < rs.len()
                invariant
                    0 <= m <= rs@.len(),
                    rs@ == rsv,
                    tree_wf(*to),
                    tree_wf(*from),
                    empty.files@.len() == 0 && empty.dirs@.len() == 0,
                    0 <= j < from.dirs@.len(),
                    nv == from.dirs@[j as int].0@,
                    name@ == nv,
                    elem_wf(nv),
                    !has_dir(*to, nv),
                    wf_distinct(rsv),
                    forall|q: Seq<Seq<u8>>| #[trigger] in_paths(rsv, q) <==> changed(
                        empty,
                        from.dirs@[j as int].1,
                        q,
                    ),
                    forall|q: Seq<Seq<u8>>| #[trigger] in_paths(rsv, q) ==> path_wf(q),
                    wf_distinct(out@),
                    forall|p: Seq<Seq<u8>>| #[trigger] in_paths(out@, p) <==> (len1_changed(
                        *to,
                        *from,
                        p,
                    ) || stage3(*to, *from, p, to.dirs@.len() as int) || stage4(
                        *to,
                        *from,
                        p,
                        j as int,
                    ) || exists|mm: int| 0 <= mm < m && p == seq![nv] + (#[trigger] rsv[mm]@)),
                decreases rs@.len() - m,
            {
                let x = prepend(name, &rs[m]);
                let ghost out_old = out@;
                let ghost qv = rs@[m as int]@;
                proof {
                    assert(rsv[m as int]@ == qv);
                    assert(in_paths(rsv, qv));
                    assert(path_wf(qv));
                    assert(x@ == seq![nv] + qv);
                    assert(x@.len() == 1 + qv.len());
                    assert(qv.len() >= 1) by {
                        assert(changed(empty, from.dirs@[j as int].1, qv));
                        lemma_empty_file_at(empty, qv);
                    }
                    assert(x@[0] == nv);
                    assert(path_wf(x@)) by {
                        assert forall|c: int| 0 <= c < x@.len() implies elem_wf(x@[c]) by {
                            if c == 0 {
                                assert(x@[c] == nv);
                            } else {
                                assert(x@[c] == qv[c - 1]);
                            }
                        }
                    }
                    assert(!in_paths(out@, x@)) by {
                        if stage3(*to, *from, x@, to.dirs@.len() as int) {
                            let k = choose|k: int| 0 <= k < to.dirs@.len()
                                && (#[trigger] to.dirs@[k].0@) == x@[0];
                            assert(has_dir(*to, nv));
                        }
                        if stage4(*to, *from, x@, j as int) {
                            let k = choose|k: int| 0 <= k < j && (#[trigger] from.dirs@[k].0@)
                                == x@[0];
                            assert(from.dirs@[k].0@ == from.dirs@[j as int].0@);
                        }
                        if exists|mm: int| 0 <= mm < m && x@ == seq![nv]
                            + (#[trigger] rsv[mm]@) {
                            let mm = choose|mm: int| 0 <= mm < m && x@ == seq![nv]
                                + (#[trigger] rsv[mm]@);
                            assert((seq![nv] + rsv[mm]@).skip(1) =~= rsv[mm]@);
                            assert((seq![nv] + qv).skip(1) =~= qv);
                            assert(rsv[mm]@ == qv);
                        }
                    }
                }
                push_unique(&mut out, x);
                m = m + 1;
                proof {
                    assert(forall|p: Seq<Seq<u8>>| #[trigger] in_paths(out@, p) <==> (in_paths(
                        out_old,
                        p,
                    ) || p == seq![nv] + qv));
                    assert forall|p: Seq<Seq<u8>>| #[trigger] in_paths(out@, p)
                        <==> (len1_changed(*to, *from, p) || stage3(
                        *to,
                        *from,
                        p,
                        to.dirs@.len() as int,
                    ) || stage4(*to, *from, p, j as int) || exists|mm: int|
                        0 <= mm < m && p == seq![nv] + (#[trigger] rsv[mm]@)) by {
                        if p == seq![nv] + qv {
                            assert(rsv[m - 1]@ == qv);
                            assert(0 <= m - 1 < m && p == seq![nv] + rsv[m - 1]@);
                        }
                    }
                }
            }
            j = j + 1;
            proof {
                assert forall|p: Seq<Seq<u8>>| #[trigger] in_paths(out@, p) <==> (len1_changed(
                    *to,
                    *from,
                    p,
                ) || stage3(*to, *from, p, to.dirs@.len() as int) || stage4(
                    *to,
                    *from,
                    p,
                    j as int,
                )) by {
                    if exists|mm: int| 0 <= mm < rsv.len() && p == seq![nv]
                        + (#[trigger] rsv[mm]@) {
                        let mm = choose|mm: int| 0 <= mm < rsv.len() && p == seq![nv]
                            + (#[trigger] rsv[mm]@);
                        assert(in_paths(rsv, rsv[mm]@));
                        assert(changed(empty, from.dirs@[j - 1].1, rsv[mm]@));
                        assert(p[0] == nv);
                        assert(p.drop_first() =~= rsv[mm]@);
                        assert(p.len() >= 2) by {
                            lemma_empty_file_at(empty, rsv[mm]@);
                        }
                        lemma_changed_through_dir_from(*to, *from, empty, p);
                        assert(changed(*to, *from, p));
                        assert(from.dirs@[j - 1].0@ == p[0]);
                        assert(stage4(*to, *from, p, j as int));
                    }
                    if stage4(*to, *from, p, j as int) && !stage4(*to, *from, p, j - 1)
                        && !len1_changed(*to, *from, p) && !stage3(
                        *to,
                        *from,
                        p,
                        to.dirs@.len() as int,
                    ) {
                        let k = choose|k: int| 0 <= k < j && (#[trigger] from.dirs@[k].0@)
                            == p[0];
                        assert(k == j - 1);
                        assert(p[0] == nv);
                        lemma_changed_through_dir_from(*to, *from, empty, p);
                        assert(changed(empty, from.dirs@[j - 1].1, p.drop_first()));
                        assert(in_paths(rsv, p.drop_first()));
                        let mm = choose|mm: int| 0 <= mm < rsv.len() && (#[trigger] rsv[mm]@)
                            == p.drop_first();
                        assert(p =~= seq![nv] + rsv[mm]@);
                    }
                }
            }
        } else {
            j = j + 1;
            proof {
                assert forall|p: Seq<Seq<u8>>| stage4(*to, *from, p, j as int) implies stage4(
                    *to,
                    *from,
                    p,
                    j - 1,
                ) by {
                    let k = choose|k: int| 0 <= k < j && (#[trigger] from.dirs@[k].0@) == p[0];
                    if k == j - 1 {
                        assert(has_dir(*to, p[0]));
                    }
                }
            }
        }
    }

    proof {
        assert forall|p: Seq<Seq<u8>>| #[trigger] in_paths(out@, p) <==> changed(
            *to,
            *from,
            p,
        ) by {
            if changed(*to, *from, p) && !len1_changed(*to, *from, p) {
                assert(p.len() >= 2) by {
                    if p.len() == 0 {
                        assert(!changed(*to, *from, p));
                    }
                }
                if has_dir(*to, p[0]) {
                    let k = choose|k: int| 0 <= k < to.dirs@.len()
                        && (#[trigger] to.dirs@[k].0@) == p[0];
                    assert(stage3(*to, *from, p, to.dirs@.len() as int));
                } else if has_dir(*from, p[0]) {
                    let k = choose|k: int| 0 <= k < from.dirs@.len()
                        && (#[trigger] from.dirs@[k].0@) == p[0];
                    assert(stage4(*to, *from, p, from.dirs@.len() as int));
                } else {
                    assert(file_at(*to, p) is None);
                    assert(file_at(*from, p) is None);
                    assert(!changed(*to, *from, p));
                }
            }
            if stage3(*to, *from, p, to.dirs@.len() as int) || stage4(
                *to,
                *from,
                p,
                from.dirs@.len() as int,
            ) {
                assert(changed(*to, *from, p));
            }
        }
    }
    out
}


/// The tree behind an optional reference.
pub open spec fn opt_tree(o: Option<&Tree>) -> Option<Tree> {
    match o {
        Option::Some(t) => Option::Some(*t),
        Option::None => Option::None,
    }
}

/// Well-formedness of a parent that may be absent.
pub open spec fn opt_wf(o: Option<Tree>) -> bool {
    match o {
        Option::Some(t) => tree_wf(t),
        Option::None => true,
    }
}

/// Whether the path leads to anything in a parent that may be absent.
pub open spec fn node_at_opt(o: Option<Tree>, p: Seq<Seq<u8>>) -> bool {
    match o {
        Option::Some(t) => node_at(t, p),
        Option::None => false,
    }
}

/// A file newly introduced by `child`: the path leads to a file in `child`
/// and to nothing at all, file or directory, in the parent.
pub open spec fn added(child: Tree, parent: Option<Tree>, p: Seq<Seq<u8>>) -> bool {
    file_at(child, p) is Some && !node_at_opt(parent, p)
}

/// The parent to compare a sub-tree against: the parent's sub-tree of the
/// same name, or nothing.
pub open spec fn sub_parent(parent: Option<Tree>, name: Seq<u8>) -> Option<Tree> {
    match parent {
        Option::Some(t) => if has_dir(t, name) {
            Option::Some(dir_at(t, name))
        } else {
            Option::None
        },
        Option::None => Option::None,
    }
}

/// Stepping through the first component: a deep path is added exactly when
/// its remainder is added in the sub-tree, against the parent's matching
/// sub-tree.
pub proof fn lemma_added_through_dir(child: Tree, parent: Option<Tree>, p: Seq<Seq<u8>>)
    requires
        p.len() >= 2,
        has_dir(child, p[0]),
    ensures
        added(child, parent, p) == added(dir_at(child, p[0]), sub_parent(parent, p[0]),
            p.drop_first()),
{
}

/// Single-component paths named among the first `i` file children of
/// `child`, absent from the parent.
pub open spec fn astage1(child: Tree, parent: Option<Tree>, p: Seq<Seq<u8>>, i: int) -> bool {
    &&& p.len() == 1
    &&& exists|k: int| 0 <= k < i && (#[trigger] child.files@[k].0@) == p[0]
    &&& !node_at_opt(parent, p)
}

/// Deeper added paths entering one of the first `i` sub-trees of `child`.
pub open spec fn astage2(child: Tree, parent: Option<Tree>, p: Seq<Seq<u8>>, i: int) -> bool {
    &&& p.len() >= 2
    &&& added(child, parent, p)
    &&& exists|k: int| 0 <= k < i && (#[trigger] child.dirs@[k].0@) == p[0]
}

/// Collects the files newly introduced by `child` relative to a single
/// parent tree, or to nothing when the parent is absent. Only file paths
/// are reported; a file is not "added" while the parent holds a file or a
/// directory at the same path.
pub fn compute_added_files(child: &Tree, parent: Option<&Tree>) -> (r: Vec<MPath>)
    requires
        tree_wf(*child),
        opt_wf(opt_tree(parent)),
    ensures
        wf_distinct(r@),
        forall|p: Seq<Seq<u8>>| #[trigger] in_paths(r@, p) <==> added(*child, opt_tree(parent), p),
    decreases tree_size(*child),
{
    let mut out: Vec<MPath> = Vec::new();
    let ghost pv = opt_tree(parent);

    let mut i: usize = 0;
    while i < child.files.len()
        invariant
            0 <= i <= child.files@.len(),
            tree_wf(*child),
            pv == opt_tree(parent),
            opt_wf(pv),
            wf_distinct(out@),
            forall|p: Seq<Seq<u8>>| #[trigger] in_paths(out@, p) <==> astage1(
                *child,
                pv,
                p,
                i as int,
            ),
        decreases child.files@.len() - i,
    {
        let name = &child.files[i].0;
        let ghost nv = name@;
        let absent = match parent {
            Some(t) => find_file(t, name).is_none() && find_dir(t, name).is_none(),
            None => true,
        };
        if absent {
            let x = single(name);
            let ghost out_old = out@;
            proof {
                assert(x@[0] == nv);
                assert(elem_wf(nv));
                assert(path_wf(x@));
                assert(!node_at_opt(pv, x@));
                assert(!in_paths(out@, x@)) by {
                    if astage1(*child, pv, x@, i as int) {
                        let k = choose|k: int| 0 <= k < i && (#[trigger] child.files@[k].0@)
                            == x@[0];
                        assert(child.files@[k].0@ == child.files@[i as int].0@);
                    }
                }
            }
            push_unique(&mut out, x);
            proof {
                assert(forall|p: Seq<Seq<u8>>| #[trigger] in_paths(out@, p) <==> (in_paths(
                    out_old,
                    p,
                ) || p == seq![nv]));
                assert forall|p: Seq<Seq<u8>>| #[trigger] in_paths(out@, p) <==> astage1(
                    *child,
                    pv,
                    p,
                    i + 1,
                ) by {
                    if p == seq![nv] {
                        assert(child.files@[i as int].0@ == p[0]);
                        assert(astage1(*child, pv, p, i + 1));
                    }
                    if astage1(*child, pv, p, i + 1) && !astage1(*child, pv, p, i as int) {
                        let k = choose|k: int| 0 <= k < i + 1 && (#[trigger] child.files@[k].0@)
                            == p[0];
                        assert(k == i);
                        assert(p =~= seq![nv]);
                    }
                }
            }
        } else {
            proof {
                assert(node_at_opt(pv, seq![nv]));
                assert forall|p: Seq<Seq<u8>>| astage1(*child, pv, p, i + 1) implies astage1(
                    *child,
                    pv,
                    p,
                    i as int,
                ) by {
                    let k = choose|k: int| 0 <= k < i + 1 && (#[trigger] child.files@[k].0@)
                        == p[0];
                    if k == i {
                        assert(p =~= seq![nv]);
                    }
                }
            }
        }
        i = i + 1;
    }

    proof {
        assert forall|p: Seq<Seq<u8>>| #[trigger] in_paths(out@, p) <==> (p.len() == 1 && added(
            *child,
            pv,
            p,
        )) by {
            if astage1(*child, pv, p, child.files@.len() as int) {
                let k = choose|k: int| 0 <= k < child.files@.len()
                    && (#[trigger] child.files@[k].0@) == p[0];
                lemma_lookup_at_index(*child, k);
            }
            if p.len() == 1 && added(*child, pv, p) {
                assert(has_file(*child, p[0]));
                let k = choose|k: int| 0 <= k < child.files@.len()
                    && (#[trigger] child.files@[k].0@) == p[0];
                assert(astage1(*child, pv, p, child.files@.len() as int));
            }
        }
    }

    let mut j: usize = 0;
    while j < child.dirs.len()
        invariant
            0 <= j <= child.dirs@.len(),
            tree_wf(*child),
            pv == opt_tree(parent),
            opt_wf(pv),
            wf_distinct(out@),
            forall|p: Seq<Seq<u8>>| #[trigger] in_paths(out@, p) <==> ((p.len() == 1 && added(
                *child,
                pv,
                p,
            )) || astage2(*child, pv, p, j as int)),
        decreases child.dirs@.len() - j,
    {
        let name = &child.dirs[j].0;
        let ghost nv = name@;
        let sub = &child.dirs[j].1;
        proof {
            lemma_dir_at_index(*child, j as int);
            lemma_subtree_size(*child, j as int);
        }
        let subparent: Option<&Tree> = match parent {
            Some(t) => find_dir(t, name),
            None => None,
        };
        let ghost spv = opt_tree(subparent);
        proof {
            assert(spv == sub_parent(pv, nv));
            assert(opt_wf(spv));
        }
        let rs = compute_added_files(sub, subparent);
        let ghost rsv = rs@;
        let mut m: usize = 0;
        while m < rs.len()
            invariant
                0 <= m <= rs@.len(),
                rs@ == rsv,
                tree_wf(*child),
                pv == opt_tree(parent),
                opt_wf(pv),
                0 <= j < child.dirs@.len(),
                nv == child.dirs@[j as int].0@,
                name@ == nv,
                elem_wf(nv),
                spv == sub_parent(pv, nv),
                wf_distinct(rsv),
                forall|q: Seq<Seq<u8>>| #[trigger] in_paths(rsv, q) <==> added(
                    child.dirs@[j as int].1,
                    spv,
                    q,
                ),
                wf_distinct(out@),
                forall|p: Seq<Seq<u8>>| #[trigger] in_paths(out@, p) <==> ((p.len() == 1
                    && added(*child, pv, p)) || astage2(*child, pv, p, j as int) || exists|mm: int|
                    0 <= mm < m && p == seq![nv] + (#[trigger] rsv[mm]@)),
            decreases rs@.len() - m,
        {
            let x = prepend(name, &rs[m]);
            let ghost out_old = out@;
            let ghost qv = rs@[m as int]@;
            proof {
                assert(rsv[m as int]@ == qv);
                assert(in_paths(rsv, qv));
                assert(path_wf(qv));
                assert(x@ == seq![nv] + qv);
                assert(x@.len() == 1 + qv.len());
                assert(qv.len() >= 1) by {
                    assert(added(child.dirs@[j as int].1, spv, qv));
                }
                assert(x@[0] == nv);
                assert(path_wf(x@)) by {
                    assert forall|c: int| 0 <= c < x@.len() implies elem_wf(x@[c]) by {
                        if c == 0 {
                            assert(x@[c] == nv);
                        } else {
                            assert(x@[c] == qv[c - 1]);
                        }
                    }
                }
                assert(!in_paths(out@, x@)) by {
                    if astage2(*child, pv, x@, j as int) {
                        let k = choose|k: int| 0 <= k < j && (#[trigger] child.dirs@[k].0@)
                            == x@[0];
                        assert(child.dirs@[k].0@ == child.dirs@[j as int].0@);
                    }
                    if exists|mm: int| 0 <= mm < m && x@ == seq![nv] + (#[trigger] rsv[mm]@) {
                        let mm = choose|mm: int| 0 <= mm < m && x@ == seq![nv]
                            + (#[trigger] rsv[mm]@);
                        assert((seq![nv] + rsv[mm]@).skip(1) =~= rsv[mm]@);
                        assert((seq![nv] + qv).skip(1) =~= qv);
                        assert(rsv[mm]@ == qv);
                    }
                }
            }
            push_unique(&mut out, x);
            m = m + 1;
            proof {
                assert(forall|p: Seq<Seq<u8>>| #[trigger] in_paths(out@, p) <==> (in_paths(
                    out_old,
                    p,
                ) || p == seq![nv] + qv));
                assert forall|p: Seq<Seq<u8>>| #[trigger] in_paths(out@, p) <==> ((p.len() == 1
                    && added(*child, pv, p)) || astage2(*child, pv, p, j as int) || exists|mm: int|
                    0 <= mm < m && p == seq![nv] + (#[trigger] rsv[mm]@)) by {
                    if p == seq![nv] + qv {
                        assert(rsv[m - 1]@ == qv);
                        assert(0 <= m - 1 < m && p == seq![nv] + rsv[m - 1]@);
                    }
                }
            }
        }
        j = j + 1;
        proof {
            assert forall|p: Seq<Seq<u8>>| #[trigger] in_paths(out@, p) <==> ((p.len() == 1
                && added(*child, pv, p)) || astage2(*child, pv, p, j as int)) by {
                if exists|mm: int| 0 <= mm < rsv.len() && p == seq![nv] + (#[trigger] rsv[mm]@) {
                    let mm = choose|mm: int| 0 <= mm < rsv.len() && p == seq![nv]
                        + (#[trigger] rsv[mm]@);
                    assert(in_paths(rsv, rsv[mm]@));
                    assert(added(child.dirs@[j - 1].1, spv, rsv[mm]@));
                    assert(p[0] == nv);
                    assert(p.drop_first() =~= rsv[mm]@);
                    assert(p.len() >= 2);
                    lemma_added_through_dir(*child, pv, p);
                    assert(added(*child, pv, p));
                    assert(child.dirs@[j - 1].0@ == p[0]);
                    assert(astage2(*child, pv, p, j as int));
                }
                if astage2(*child, pv, p, j as int) && !astage2(*child, pv, p, j - 1) {
                    let k = choose|k: int| 0 <= k < j && (#[trigger] child.dirs@[k].0@) == p[0];
                    assert(k == j - 1);
                    assert(p[0] == nv);
                    lemma_added_through_dir(*child, pv, p);
                    assert(added(child.dirs@[j - 1].1, spv, p.drop_first()));
                    assert(in_paths(rsv, p.drop_first()));
                    let mm = choose|mm: int| 0 <= mm < rsv.len() && (#[trigger] rsv[mm]@)
                        == p.drop_first();
                    assert(p =~= seq![nv] + rsv[mm]@);
                }
            }
        }
    }

    proof {
        assert forall|p: Seq<Seq<u8>>| #[trigger] in_paths(out@, p) <==> added(*child, pv, p) by {
            if added(*child, pv, p) && p.len() != 1 {
                assert(p.len() >= 2) by {
                    if p.len() == 0 {
                        assert(file_at(*child, p) is None);
                    }
                }
                assert(has_dir(*child, p[0]));
                let k = choose|k: int| 0 <= k < child.dirs@.len()
                    && (#[trigger] child.dirs@[k].0@) == p[0];
                assert(astage2(*child, pv, p, child.dirs@.len() as int));
            }
            if astage2(*child, pv, p, child.dirs@.len() as int) {
                assert(added(*child, pv, p));
            }
        }
    }
    out
}

/// Whether the collection holds a path equal to this one.
pub fn paths_contains(v: &Vec<MPath>, x: &MPath) -> (r: bool)
    ensures
        r == in_paths(v@, x@),
{
    let mut i: usize = 0;
    while i < v.len()
        invariant
            0 <= i <= v@.len(),
            forall|k: int| 0 <= k < i ==> (#[trigger] v@[k]@) != x@,
        decreases v@.len() - i,
    {
        if v[i].eq_path(x) {
            proof {
                assert(v@[i as int]@ == x@);
            }
            return true;
        }
        i = i + 1;
    }
    false
}

/// The paths present in both collections, in the order of the first.
pub fn intersect_paths(a: Vec<MPath>, b: &Vec<MPath>) -> (r: Vec<MPath>)
    requires
        wf_distinct(a@),
    ensures
        wf_distinct(r@),
        forall|p: Seq<Seq<u8>>| #[trigger] in_paths(r@, p) <==> (in_paths(a@, p) && in_paths(
            b@,
            p,
        )),
{
    let mut out: Vec<MPath> = Vec::new();
    let mut i: usize = 0;
    while i < a.len()
        invariant
            0 <= i <= a@.len(),
            wf_distinct(a@),
            wf_distinct(out@),
            forall|p: Seq<Seq<u8>>| #[trigger] in_paths(out@, p) <==> ((exists|k: int|
                0 <= k < i && (#[trigger] a@[k]@) == p) && in_paths(b@, p)),
        decreases a@.len() - i,
    {
        if paths_contains(b, &a[i]) {
            let x = a[i].dup();
            let ghost out_old = out@;
            let ghost xv = a@[i as int]@;
            proof {
                assert(x@ == xv);
                assert(path_wf(xv));
                assert(!in_paths(out@, xv)) by {
                    if exists|k: int| 0 <= k < i && (#[trigger] a@[k]@) == xv {
                        let k = choose|k: int| 0 <= k < i && (#[trigger] a@[k]@) == xv;
                        assert(a@[k]@ == a@[i as int]@);
                    }
                }
            }
            push_unique(&mut out, x);
            proof {
                assert forall|p: Seq<Seq<u8>>| #[trigger] in_paths(out@, p) <==> ((exists|k: int|
                    0 <= k < i + 1 && (#[trigger] a@[k]@) == p) && in_paths(b@, p)) by {
                    if p == xv {
                        assert(a@[i as int]@ == p);
                    }
                    if (exists|k: int| 0 <= k < i + 1 && (#[trigger] a@[k]@) == p) && !(exists|
                        k: int|
                        0 <= k < i && (#[trigger] a@[k]@) == p) {
                        let k = choose|k: int| 0 <= k < i + 1 && (#[trigger] a@[k]@) == p;
                        assert(k == i);
                    }
                }
            }
        } else {
            proof {
                assert forall|p: Seq<Seq<u8>>| ((exists|k: int| 0 <= k < i + 1
                    && (#[trigger] a@[k]@) == p) && in_paths(b@, p)) implies ((exists|k: int|
                    0 <= k < i && (#[trigger] a@[k]@) == p) && in_paths(b@, p)) by {
                    let k = choose|k: int| 0 <= k < i + 1 && (#[trigger] a@[k]@) == p;
                    if k == i {
                        assert(in_paths(b@, a@[i as int]@));
                    }
                }
            }
        }
        i = i + 1;
    }
    proof {
        assert forall|p: Seq<Seq<u8>>| #[trigger] in_paths(out@, p) <==> (in_paths(a@, p)
            && in_paths(b@, p)) by {
            if in_paths(a@, p) {
                let k = choose|k: int| 0 <= k < a@.len() && (#[trigger] a@[k]@) == p;
            }
        }
    }
    out
}

/// Two collections with the same multiset of path views hold the same
/// paths.
pub proof fn lemma_in_paths_multiset(a: Seq<MPath>, b: Seq<MPath>)
    requires
        crate::order::paths_view(a).to_multiset() == crate::order::paths_view(b).to_multiset(),
    ensures
        forall|p: Seq<Seq<u8>>| in_paths(a, p) <==> in_paths(b, p),
{
    let av = crate::order::paths_view(a);
    let bv = crate::order::paths_view(b);
    av.to_multiset_ensures();
    bv.to_multiset_ensures();
    assert forall|p: Seq<Seq<u8>>| in_paths(a, p) <==> in_paths(b, p) by {
        if in_paths(a, p) {
            let k = choose|k: int| 0 <= k < a.len() && (#[trigger] a[k]@) == p;
            assert(av[k] == p);
            assert(av.contains(p));
            assert(av.to_multiset().count(p) > 0);
            assert(bv.to_multiset().count(p) > 0);
            assert(bv.contains(p));
            let k2 = choose|k2: int| 0 <= k2 < bv.len() && bv[k2] == p;
            assert(b[k2]@ == p);
        }
        if in_paths(b, p) {
            let k = choose|k: int| 0 <= k < b.len() && (#[trigger] b[k]@) == p;
            assert(bv[k] == p);
            assert(bv.contains(p));
            assert(bv.to_multiset().count(p) > 0);
            assert(av.to_multiset().count(p) > 0);
            assert(av.contains(p));
            let k2 = choose|k2: int| 0 <= k2 < av.len() && av[k2] == p;
            assert(a[k2]@ == p);
        }
    }
}

/// Which paths belong in the changed-file list, by parent shape: against
/// no parent every file of the root; against one parent the files that
/// differ from it; against two parents only the files that differ from
/// both.
pub open spec fn changed_files_sel(
    root: Tree,
    p1: Option<Tree>,
    p2: Option<Tree>,
    p: Seq<Seq<u8>>,
) -> bool {
    match (p1, p2) {
        (Option::None, Option::None) => file_at(root, p) is Some,
        (Option::Some(t), Option::None) => changed(root, t, p),
        (Option::None, Option::Some(t)) => changed(root, t, p),
        (Option::Some(a), Option::Some(b)) => changed(root, a, p) && changed(root, b, p),
    }
}

/// The legacy changed-file list: the paths selected by `changed_files_sel`,
/// each exactly once, sorted by raw byte comparison of their
/// component-joined byte form.
pub fn compute_changed_files(root: &Tree, p1: Option<&Tree>, p2: Option<&Tree>) -> (r: Vec<MPath>)
    requires
        tree_wf(*root),
        opt_wf(opt_tree(p1)),
        opt_wf(opt_tree(p2)),
    ensures
        forall|p: Seq<Seq<u8>>| #[trigger] in_paths(r@, p) <==> changed_files_sel(
            *root,
            opt_tree(p1),
            opt_tree(p2),
            p,
        ),
        crate::order::strictly_sorted(crate::order::paths_view(r@)),
        forall|k: int| 0 <= k < r@.len() ==> path_wf((#[trigger] r@[k])@),
{
    let empty = Tree::empty();
    let unsorted = match (p1, p2) {
        (None, None) => {
            let u = compute_changed_files_pair(root, &empty);
            proof {
                assert forall|p: Seq<Seq<u8>>| #[trigger] in_paths(u@, p) <==> changed_files_sel(
                    *root,
                    opt_tree(p1),
                    opt_tree(p2),
                    p,
                ) by {
                    lemma_empty_file_at(empty, p);
                }
            }
            u
        },
        (Some(t), None) => compute_changed_files_pair(root, t),
        (None, Some(t)) => compute_changed_files_pair(root, t),
        (Some(a), Some(b)) => {
            let left = compute_changed_files_pair(root, a);
            let right = compute_changed_files_pair(root, b);
            intersect_paths(left, &right)
        },
    };
    proof {
        assert forall|i: int, j: int| 0 <= i < j < unsorted@.len() implies crate::path::joined(
            #[trigger] unsorted@[i]@,
        ) != crate::path::joined(#[trigger] unsorted@[j]@) by {
            if crate::path::joined(unsorted@[i]@) == crate::path::joined(unsorted@[j]@) {
                crate::order::lemma_joined_injective(unsorted@[i]@, unsorted@[j]@);
            }
        }
    }
    let ghost uv = unsorted@;
    let r = crate::order::sort_paths(unsorted);
    proof {
        lemma_in_paths_multiset(r@, uv);
        assert forall|k: int| 0 <= k < r@.len() implies path_wf((#[trigger] r@[k])@) by {
            assert(in_paths(r@, r@[k]@));
            assert(in_paths(uv, r@[k]@));
            let m = choose|m: int| 0 <= m < uv.len() && (#[trigger] uv[m]@) == r@[k]@;
        }
    }
    r
}

} // verus!

