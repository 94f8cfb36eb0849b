use vstd::prelude::*;
use crate::path::MPath;

verus! {

/// Folds one byte to lower case: ASCII letters lose their case, every other
/// byte stays as it is.
pub open spec fn fold_byte(b: u8) -> u8 {
    if 65 <= b <= 90 {
        (b + 32) as u8
    } else {
        b
    }
}

/// A path component with its case folded away.
pub open spec fn fold_elem(e: Seq<u8>) -> Seq<u8> {
    Seq::new(e.len(), |i: int| fold_byte(e[i]))
}

/// A whole path with its case folded away.
pub open spec fn fold_path(p: Seq<Seq<u8>>) -> Seq<Seq<u8>> {
    Seq::new(p.len(), |i: int| fold_elem(p[i]))
}

/// Two distinct paths that collide once case is folded away.
pub open spec fn case_conflict_pair(p: Seq<Seq<u8>>, q: Seq<Seq<u8>>) -> bool {
    fold_path(p) == fold_path(q) && p != q
}

/// Folds one byte to lower case.
pub fn fold_byte_exec(b: u8) -> (r: u8)
    ensures
        r == fold_byte(b),
{
    if 65 <= b && b <= 90 {
        b + 32
    } else {
        b
    }
}

/// Decides whether two byte runs are equal once case is folded away.
pub fn bytes_fold_eq(a: &Vec<u8>, b: &Vec<u8>) -> (r: bool)
    ensures
        r == (fold_elem(a@) == fold_elem(b@)),
{
    if a.len() != b.len() {
        proof {
            assert(fold_elem(a@).len() != fold_elem(b@).len());
        }
        return false;
    }
    let mut i: usize = 0;
    while i < a.len()
        invariant
            0 <= i <= a@.len(),
            a@.len() == b@.len(),
            forall|k: int| 0 <= k < i ==> fold_byte(a@[k]) == fold_byte(b@[k]),
        decreases a@.len() - i,
    {
        if fold_byte_exec(a[i]) != fold_byte_exec(b[i]) {
            proof {
                assert(fold_elem(a@)[i as int] != fold_elem(b@)[i as int]);
            }
            return false;
        }
        i = i + 1;
    }
    proof {
        assert(fold_elem(a@) =~= fold_elem(b@));
    }
    true
}

/// Decides whether two paths are equal once case is folded away.
pub fn paths_fold_eq(a: &MPath, b: &MPath) -> (r: bool)
    ensures
        r == (fold_path(a@) == fold_path(b@)),
{
    if a.elements.len() != b.elements.len() {
        proof {
            assert(fold_path(a@).len() != fold_path(b@).len());
        }
        return false;
    }
    let mut i: usize = 0;
    while i < a.elements.len()
        invariant
            0 <= i <= a.elements@.len(),
            a.elements@.len() == b.elements@.len(),
            forall|k: int| 0 <= k < i ==> fold_elem(a@[k]) == fold_elem(b@[k]),
        decreases a.elements@.len() - i,
    {
        if !bytes_fold_eq(&a.elements[i].bytes, &b.elements[i].bytes) {
            proof {
                assert(fold_path(a@)[i as int] != fold_path(b@)[i as int]);
            }
            return false;
        }
        i = i + 1;
    }
    proof {
        assert(fold_path(a@) =~= fold_path(b@));
    }
    true
}

/// Whether some two paths in the sequence differ only by letter case.
pub open spec fn has_case_conflict(paths: Seq<Seq<Seq<u8>>>) -> bool {
    exists|i: int, j: int| 0 <= i < j < paths.len() && case_conflict_pair(
        #[trigger] paths[i],
        #[trigger] paths[j],
    )
}

/// Looks for two paths that differ only by letter case. Returns one of the
/// offending paths exactly when such a pair exists.
pub fn check_case_conflicts(paths: &Vec<MPath>) -> (r: Option<MPath>)
    ensures
        r is Some <==> has_case_conflict(crate::order::paths_view(paths@)),
        r matches Some(p) ==> exists|i: int, j: int| 0 <= i < j < paths@.len()
            && case_conflict_pair(#[trigger] paths@[i]@, #[trigger] paths@[j]@) && p@ == paths@[j]@,
{
    let ghost pv = crate::order::paths_view(paths@);
    let mut j: usize = 1;
    if paths.len() < 2 {
        return None;
    }
    while j < paths.len()
        invariant
            1 <= j <= paths@.len(),
            pv == crate::order::paths_view(paths@),
            forall|a: int, b: int| 0 <= a < b < j ==> !case_conflict_pair(
                #[trigger] pv[a],
                #[trigger] pv[b],
            ),
        decreases paths@.len() - j,
    {
        let mut i: usize = 0;
        while i < j
            invariant
                0 <= i <= j < paths@.len(),
                pv == crate::order::paths_view(paths@),
                forall|a: int| 0 <= a < i ==> !case_conflict_pair(
                    #[trigger] pv[a],
                    pv[j as int],
                ),
            decreases j - i,
        {
            if paths_fold_eq(&paths[i], &paths[j]) && !paths[i].eq_path(&paths[j]) {
                proof {
                    assert(pv[i as int] == paths@[i as int]@);
                    assert(pv[j as int] == paths@[j as int]@);
                    assert(case_conflict_pair(paths@[i as int]@, paths@[j as int]@));
                }
                return Some(paths[j].dup());
            }
            proof {
                assert(pv[i as int] == paths@[i as int]@);
                assert(pv[j as int] == paths@[j as int]@);
            }
            i = i + 1;
        }
        j = j + 1;
    }
    proof {
        assert(!has_case_conflict(pv));
    }
    None
}

} // verus!
