use vstd::prelude::*;
use crate::diff::{changed_files_sel, in_paths};
use crate::order::{lemma_lex_asym, lemma_lex_trans, path_lt, paths_view, strictly_sorted};
use crate::path::MPath;
use crate::tree::{file_at, Tree};

verus! {

/// Two strictly sorted path lists with the same members are the same
/// list.
pub proof fn lemma_sorted_unique(a: Seq<Seq<Seq<u8>>>, b: Seq<Seq<Seq<u8>>>)
    requires
        strictly_sorted(a),
        strictly_sorted(b),
        forall|p: Seq<Seq<u8>>| a.contains(p) <==> b.contains(p),
    ensures
        a == b,
    decreases a.len(),
{
    if a.len() == 0 {
        if b.len() > 0 {
            assert(b.contains(b[0]));
            assert(a.contains(b[0]));
        }
        assert(a =~= b);
    } else {
        assert(a.contains(a[0]));
        assert(b.contains(a[0]));
        assert(b.len() > 0);
        assert(b.contains(b[0]));
        assert(a.contains(b[0]));
        let i = choose|i: int| 0 <= i < b.len() && b[i] == a[0];
        let k = choose|k: int| 0 <= k < a.len() && a[k] == b[0];
        assert(a[0] == b[0]) by {
            if i > 0 && k > 0 {
                assert(path_lt(b[0], b[i]));
                assert(path_lt(a[0], a[k]));
                lemma_lex_trans(
                    crate::path::joined(a[0]),
                    crate::path::joined(a[k]),
                    crate::path::joined(b[i]),
                );
                lemma_lex_asym(crate::path::joined(a[0]), crate::path::joined(b[i]));
            }
        }
        let at = a.drop_first();
        let bt = b.drop_first();
        assert forall|p: Seq<Seq<u8>>| at.contains(p) <==> bt.contains(p) by {
            if at.contains(p) {
                let m = choose|m: int| 0 <= m < at.len() && at[m] == p;
                assert(a[m + 1] == p);
                assert(a.contains(p));
                assert(path_lt(a[0], p));
                assert(b.contains(p));
                let m2 = choose|m2: int| 0 <= m2 < b.len() && b[m2] == p;
                assert(m2 != 0) by {
                    if m2 == 0 {
                        lemma_lex_asym(crate::path::joined(a[0]), crate::path::joined(p));
                    }
                }
                assert(bt[m2 - 1] == p);
            }
            if bt.contains(p) {
                let m = choose|m: int| 0 <= m < bt.len() && bt[m] == p;
                assert(b[m + 1] == p);
                assert(b.contains(p));
                assert(path_lt(b[0], p));
                assert(a.contains(p));
                let m2 = choose|m2: int| 0 <= m2 < a.len() && a[m2] == p;
                assert(m2 != 0) by {
                    if m2 == 0 {
                        lemma_lex_asym(crate::path::joined(b[0]), crate::path::joined(p));
                    }
                }
                assert(at[m2 - 1] == p);
            }
        }
        assert(strictly_sorted(at)) by {
            assert(forall|x: int, y: int| 0 <= x < y < at.len() ==> at[x] == a[x + 1] && at[y]
                == a[y + 1]);
        }
        assert(strictly_sorted(bt)) by {
            assert(forall|x: int, y: int| 0 <= x < y < bt.len() ==> bt[x] == b[x + 1] && bt[y]
                == b[y + 1]);
        }
        lemma_sorted_unique(at, bt);
        assert(a =~= b) by {
            assert(forall|x: int| 1 <= x < a.len() ==> a[x] == at[x - 1] && b[x] == bt[x - 1]);
        }
    }
}

/// Computing the changed-file list twice over the same trees gives the
/// same list, however the two runs went about it: the contract pins both
/// membership and order completely, so the computation is deterministic
/// and idempotent.
pub proof fn lemma_changed_files_deterministic(
    r1: Seq<MPath>,
    r2: Seq<MPath>,
    root: Tree,
    p1: Option<Tree>,
    p2: Option<Tree>,
)
    requires
        forall|p: Seq<Seq<u8>>| #[trigger] in_paths(r1, p) <==> changed_files_sel(
            root,
            p1,
            p2,
            p,
        ),
        forall|p: Seq<Seq<u8>>| #[trigger] in_paths(r2, p) <==> changed_files_sel(
            root,
            p1,
            p2,
            p,
        ),
        strictly_sorted(paths_view(r1)),
        strictly_sorted(paths_view(r2)),
    ensures
        paths_view(r1) == paths_view(r2),
{
    assert forall|p: Seq<Seq<u8>>| paths_view(r1).contains(p) <==> paths_view(r2).contains(
        p,
    ) by {
        if paths_view(r1).contains(p) {
            let k = choose|k: int| 0 <= k < r1.len() && paths_view(r1)[k] == p;
            assert(r1[k]@ == p);
            assert(in_paths(r1, p));
            assert(in_paths(r2, p));
            let m = choose|m: int| 0 <= m < r2.len() && (#[trigger] r2[m]@) == p;
            assert(paths_view(r2)[m] == p);
        }
        if paths_view(r2).contains(p) {
            let k = choose|k: int| 0 <= k < r2.len() && paths_view(r2)[k] == p;
            assert(r2[k]@ == p);
            assert(in_paths(r2, p));
            assert(in_paths(r1, p));
            let m = choose|m: int| 0 <= m < r1.len() && (#[trigger] r1[m]@) == p;
            assert(paths_view(r1)[m] == p);
        }
    }
    lemma_sorted_unique(paths_view(r1), paths_view(r2));
}

/// In a merge, a file that differs from the first parent alone — its
/// content identical to the second parent's — never appears in the
/// changed-file list: only files differing from both parents are
/// reported.
pub proof fn lemma_merge_intersection(
    r: Seq<MPath>,
    root: Tree,
    a: Tree,
    b: Tree,
    p: Seq<Seq<u8>>,
)
    requires
        forall|q: Seq<Seq<u8>>| #[trigger] in_paths(r, q) <==> changed_files_sel(
            root,
            Option::Some(a),
            Option::Some(b),
            q,
        ),
        file_at(root, p) != file_at(a, p),
        file_at(root, p) == file_at(b, p),
    ensures
        !in_paths(r, p),
{
}

/// Against no parent at all, every file of the root tree stands in the
/// changed-file list.
pub proof fn lemma_zero_parent_all_files(r: Seq<MPath>, root: Tree, p: Seq<Seq<u8>>)
    requires
        forall|q: Seq<Seq<u8>>| #[trigger] in_paths(r, q) <==> changed_files_sel(
            root,
            Option::None,
            Option::None,
            q,
        ),
        file_at(root, p) is Some,
    ensures
        in_paths(r, p),
{
}

} // verus!
