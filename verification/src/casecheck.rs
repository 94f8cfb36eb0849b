use vstd::prelude::*;
use crate::casefold::{case_conflict_pair, check_case_conflicts as list_case_conflicts, fold_elem,
    fold_path, has_case_conflict};
use crate::diff::{added, compute_added_files, in_paths, opt_tree, opt_wf};
use crate::errors::{ErrorKind, ErrorVw};
use crate::order::paths_view;
use crate::path::{MPath, MPathElement};
use crate::tree::{dir_at, find_dir, has_dir, tree_wf, Tree};

verus! {

/// A case-insensitive collision between the path and the tree: some level
/// of the tree, walked down along the path's own components, holds a name
/// that folds to the same bytes as the next component without being it.
pub open spec fn case_conflict_with_tree(t: Tree, p: Seq<Seq<u8>>) -> bool
    decreases p.len(),
{
    if p.len() == 0 {
        false
    } else {
        ||| exists|i: int| 0 <= i < t.files@.len() && fold_elem(#[trigger] t.files@[i].0@)
            == fold_elem(p[0]) && t.files@[i].0@ != p[0]
        ||| exists|i: int| 0 <= i < t.dirs@.len() && fold_elem(#[trigger] t.dirs@[i].0@)
            == fold_elem(p[0]) && t.dirs@[i].0@ != p[0]
        ||| (p.len() >= 2 && has_dir(t, p[0]) && case_conflict_with_tree(
            dir_at(t, p[0]),
            p.drop_first(),
        ))
    }
}

/// Whether one level of the tree holds a name that folds like this one
/// without being it.
fn level_fold_conflict(t: &Tree, name: &MPathElement) -> (r: bool)
    requires
        tree_wf(*t),
    ensures
        r == ((exists|i: int| 0 <= i < t.files@.len() && fold_elem(#[trigger] t.files@[i].0@)
            == fold_elem(name@) && t.files@[i].0@ != name@) || (exists|i: int|
            0 <= i < t.dirs@.len() && fold_elem(#[trigger] t.dirs@[i].0@) == fold_elem(name@)
            && t.dirs@[i].0@ != name@)),
{
    let mut i: usize = 0;
    while i < t.files.len()
        invariant
            0 <= i <= t.files@.len(),
            tree_wf(*t),
            forall|k: int| 0 <= k < i ==> !(fold_elem(#[trigger] t.files@[k].0@) == fold_elem(
                name@,
            ) && t.files@[k].0@ != name@),
        decreases t.files@.len() - i,
    {
        if crate::casefold::bytes_fold_eq(&t.files[i].0.bytes, &name.bytes)
            && !t.files[i].0.eq_elem(name) {
            return true;
        }
        i = i + 1;
    }
    let mut j: usize = 0;
    while j < t.dirs.len()
        invariant
            0 <= j <= t.dirs@.len(),
            tree_wf(*t),
            forall|k: int| 0 <= k < j ==> !(fold_elem(#[trigger] t.dirs@[k].0@) == fold_elem(
                name@,
            ) && t.dirs@[k].0@ != name@),
        decreases t.dirs@.len() - j,
    {
        if crate::casefold::bytes_fold_eq(&t.dirs[j].0.bytes, &name.bytes)
            && !t.dirs[j].0.eq_elem(name) {
            return true;
        }
        j = j + 1;
    }
    false
}

/// Walks the path down the tree and reports any case-insensitive collision
/// along the way.
pub fn case_conflict_in_tree(t: &Tree, f: &MPath) -> (r: bool)
    requires
        tree_wf(*t),
    ensures
        r == case_conflict_with_tree(*t, f@),
{
    let mut cur: &Tree = t;
    let mut d: usize = 0;
    proof {
        assert(f@.skip(0) =~= f@);
    }
    while d < f.elements.len()
        invariant
            0 <= d <= f@.len(),
            tree_wf(*cur),
            case_conflict_with_tree(*t, f@) == case_conflict_with_tree(*cur, f@.skip(d as int)),
        decreases f@.len() - d,
    {
        let name = &f.elements[d];
        proof {
            assert(f@.skip(d as int)[0] == f@[d as int]);
            assert(f@[d as int] == name@);
        }
        if level_fold_conflict(cur, name) {
            proof {
                assert(case_conflict_with_tree(*cur, f@.skip(d as int)));
            }
            return true;
        }
        if d + 1 == f.elements.len() {
            proof {
                assert(f@.skip(d as int).len() == 1);
                assert(!case_conflict_with_tree(*cur, f@.skip(d as int)));
            }
            return false;
        }
        match find_dir(cur, name) {
            Some(sub) => {
                proof {
                    assert(f@.skip(d as int).drop_first() =~= f@.skip(d + 1));
                    assert(case_conflict_with_tree(*cur, f@.skip(d as int))
                        == case_conflict_with_tree(*sub, f@.skip(d + 1)));
                }
                cur = sub;
                d = d + 1;
            },
            None => {
                proof {
                    assert(!case_conflict_with_tree(*cur, f@.skip(d as int)));
                }
                return false;
            },
        }
    }
    proof {
        assert(f@.skip(d as int).len() == 0);
    }
    false
}

/// Two added paths that collide once case is folded away.
pub open spec fn intra_conflict(child: Tree, parent: Option<Tree>) -> bool {
    exists|p: Seq<Seq<u8>>, q: Seq<Seq<u8>>|
        added(child, parent, p) && added(child, parent, q) && p != q && fold_path(p) == fold_path(
            q,
        )
}

/// An added path that collides case-insensitively with the parent's tree.
pub open spec fn parent_conflict(child: Tree, parent: Tree) -> bool {
    exists|p: Seq<Seq<u8>>|
        added(child, Option::Some(parent), p) && case_conflict_with_tree(parent, p)
}

/// Validates one new commit against case collisions, in two phases: first
/// that no two of its added files differ only by letter case, then — only
/// when a parent exists — that no added file collides case-insensitively
/// with anything in the parent's tree. A first commit has no parent and
/// cannot conflict with pre-existing history.
pub fn check_case_conflicts(child: &Tree, parent: Option<&Tree>) -> (r: Result<(), ErrorKind>)
    requires
        tree_wf(*child),
        opt_wf(opt_tree(parent)),
    ensures
        r is Ok <==> (!intra_conflict(*child, opt_tree(parent)) && (opt_tree(parent) is Some
            ==> !parent_conflict(*child, opt_tree(parent)->0))),
        r matches Err(e) ==> (e@ matches ErrorVw::CaseConflict(p) && added(
            *child,
            opt_tree(parent),
            p,
        ) && ((exists|q: Seq<Seq<u8>>|
            added(*child, opt_tree(parent), q) && q != p && fold_path(q) == fold_path(p)) || (
        opt_tree(parent) is Some && case_conflict_with_tree(opt_tree(parent)->0, p)))),
{
    let ghost pv = opt_tree(parent);
    let added_files = compute_added_files(child, parent);
    let ghost av = added_files@;
    match list_case_conflicts(&added_files) {
        Some(path) => {
            proof {
                let (i, j) = choose|i: int, j: int| 0 <= i < j < av.len() && case_conflict_pair(
                    #[trigger] av[i]@,
                    #[trigger] av[j]@,
                ) && path@ == av[j]@;
                assert(in_paths(av, av[i]@));
                assert(in_paths(av, av[j]@));
                assert(added(*child, pv, av[i]@));
                assert(added(*child, pv, av[j]@));
                assert(intra_conflict(*child, pv));
            }
            Err(ErrorKind::CaseConflict(path))
        },
        None => {
            proof {
                assert(!intra_conflict(*child, pv)) by {
                    if intra_conflict(*child, pv) {
                        let (p, q) = choose|p: Seq<Seq<u8>>, q: Seq<Seq<u8>>|
                            added(*child, pv, p) && added(*child, pv, q) && p != q && fold_path(
                                p,
                            ) == fold_path(q);
                        assert(in_paths(av, p));
                        assert(in_paths(av, q));
                        let i = choose|i: int| 0 <= i < av.len() && (#[trigger] av[i]@) == p;
                        let j = choose|j: int| 0 <= j < av.len() && (#[trigger] av[j]@) == q;
                        assert(paths_view(av)[i] == p);
                        assert(paths_view(av)[j] == q);
                        if i < j {
                            assert(case_conflict_pair(paths_view(av)[i], paths_view(av)[j]));
                        } else {
                            assert(case_conflict_pair(paths_view(av)[j], paths_view(av)[i]));
                        }
                        assert(has_case_conflict(paths_view(av)));
                    }
                }
            }
            match parent {
                Some(parent_tree) => {
                    let mut i: usize = 0;
                    while i < added_files.len()
                        invariant
                            0 <= i <= av.len(),
                            added_files@ == av,
                            tree_wf(*child),
                            tree_wf(*parent_tree),
                            pv == Option::Some(*parent_tree),
                            pv == opt_tree(parent),
                            forall|q: Seq<Seq<u8>>| #[trigger] in_paths(av, q) <==> added(
                                *child,
                                pv,
                                q,
                            ),
                            forall|k: int| 0 <= k < i ==> !case_conflict_with_tree(
                                *parent_tree,
                                (#[trigger] av[k])@,
                            ),
                        decreases av.len() - i,
                    {
                        if case_conflict_in_tree(parent_tree, &added_files[i]) {
                            proof {
                                assert(in_paths(av, av[i as int]@));
                                assert(added(*child, pv, av[i as int]@));
                                assert(parent_conflict(*child, *parent_tree));
                            }
                            return Err(ErrorKind::CaseConflict(added_files[i].dup()));
                        }
                        i = i + 1;
                    }
                    proof {
                        assert(!parent_conflict(*child, *parent_tree)) by {
                            if parent_conflict(*child, *parent_tree) {
                                let p = choose|p: Seq<Seq<u8>>|
                                    added(*child, Option::Some(*parent_tree), p)
                                        && case_conflict_with_tree(*parent_tree, p);
                                assert(in_paths(av, p));
                                let k = choose|k: int| 0 <= k < av.len() && (#[trigger] av[k]@)
                                    == p;
                            }
                        }
                    }
                    Ok(())
                },
                None => Ok(()),
            }
        },
    }
}

} // verus!
