use vstd::prelude::*;
use core::cmp::Ordering;
use crate::path::{joined, path_wf, MPath};

verus! {

/// Strict lexicographic order on byte sequences: the order of the raw byte
/// form of paths in the legacy changed-file list.
pub open spec fn lex_lt(a: Seq<u8>, b: Seq<u8>) -> bool
    decreases a.len(),
{
    if b.len() == 0 {
        false
    } else if a.len() == 0 {
        true
    } else if a[0] < b[0] {
        true
    } else if a[0] > b[0] {
        false
    } else {
        lex_lt(a.drop_first(), b.drop_first())
    }
}

/// The reflexive closure of `lex_lt`.
pub open spec fn lex_le(a: Seq<u8>, b: Seq<u8>) -> bool {
    lex_lt(a, b) || a == b
}

/// Any two byte sequences are ordered or equal.
pub proof fn lemma_lex_total(a: Seq<u8>, b: Seq<u8>)
    ensures
        lex_lt(a, b) || lex_lt(b, a) || a == b,
    decreases a.len(),
{
    if a.len() == 0 && b.len() == 0 {
        assert(a =~= b);
    } else if a.len() > 0 && b.len() > 0 && a[0] == b[0] {
        lemma_lex_total(a.drop_first(), b.drop_first());
        if a.drop_first() == b.drop_first() {
            assert(a.len() == b.len());
            assert forall|k: int| 0 <= k < a.len() implies a[k] == b[k] by {
                if k >= 1 {
                    assert(a[k] == a.drop_first()[k - 1]);
                    assert(b[k] == b.drop_first()[k - 1]);
                }
            }
            assert(a =~= b);
        }
    }
}

/// The order is strict: it never holds both ways, and never on equals.
pub proof fn lemma_lex_asym(a: Seq<u8>, b: Seq<u8>)
    ensures
        !(lex_lt(a, b) && lex_lt(b, a)),
        lex_lt(a, b) ==> a != b,
    decreases a.len(),
{
    if a.len() > 0 && b.len() > 0 && a[0] == b[0] {
        lemma_lex_asym(a.drop_first(), b.drop_first());
        if lex_lt(a, b) && a == b {
            assert(a.drop_first() == b.drop_first());
        }
    }
}

/// The order is transitive.
pub proof fn lemma_lex_trans(a: Seq<u8>, b: Seq<u8>, c: Seq<u8>)
    requires
        lex_lt(a, b),
        lex_lt(b, c),
    ensures
        lex_lt(a, c),
    decreases a.len(),
{
    if a.len() == 0 {
    } else if a[0] < b[0] || b[0] < c[0] {
    } else {
        lemma_lex_trans(a.drop_first(), b.drop_first(), c.drop_first());
    }
}

/// Dropping an equal prefix from both sides leaves the order unchanged.
pub proof fn lemma_lex_skip(a: Seq<u8>, b: Seq<u8>, i: int)
    requires
        0 <= i <= a.len(),
        i <= b.len(),
        forall|k: int| 0 <= k < i ==> a[k] == b[k],
    ensures
        lex_lt(a, b) == lex_lt(a.skip(i), b.skip(i)),
    decreases i,
{
    if i == 0 {
        assert(a.skip(0) =~= a);
        assert(b.skip(0) =~= b);
    } else {
        assert(a.len() > 0 && b.len() > 0 && a[0] == b[0]);
        assert(forall|k: int| 0 <= k < i - 1 ==> a.drop_first()[k] == b.drop_first()[k]);
        lemma_lex_skip(a.drop_first(), b.drop_first(), i - 1);
        assert(a.drop_first().skip(i - 1) =~= a.skip(i));
        assert(b.drop_first().skip(i - 1) =~= b.skip(i));
    }
}

/// Two well-formed paths with the same byte form are the same path: the
/// separator can never occur inside a component, so the byte form splits
/// back in only one way.
pub proof fn lemma_joined_injective(p: Seq<Seq<u8>>, q: Seq<Seq<u8>>)
    requires
        path_wf(p),
        path_wf(q),
        joined(p) == joined(q),
    ensures
        p == q,
    decreases p.len(),
{
    let s = joined(p);
    if p.len() == 1 && q.len() == 1 {
        assert(p =~= q);
    } else if p.len() == 1 && q.len() >= 2 {
        lemma_one_deep_distinct(p, q);
    } else if p.len() >= 2 && q.len() == 1 {
        lemma_one_deep_distinct(q, p);
    } else {
        let p0 = p[0];
        let q0 = q[0];
        let pr = p.drop_first();
        let qr = q.drop_first();
        assert(path_wf(pr)) by {
            assert(forall|i: int| 0 <= i < pr.len() ==> pr[i] == p[i + 1]
                && crate::path::elem_wf(#[trigger] p[i + 1]));
        }
        assert(path_wf(qr)) by {
            assert(forall|i: int| 0 <= i < qr.len() ==> qr[i] == q[i + 1]
                && crate::path::elem_wf(#[trigger] q[i + 1]));
        }
        assert(s == p0 + seq![crate::path::sep()] + joined(pr));
        assert(s == q0 + seq![crate::path::sep()] + joined(qr));
        assert(p0.len() == q0.len()) by {
            if p0.len() < q0.len() {
                assert(s[p0.len() as int] == crate::path::sep());
                assert(s[p0.len() as int] == q0[p0.len() as int]);
                assert(crate::path::elem_wf(q0));
            }
            if q0.len() < p0.len() {
                assert(s[q0.len() as int] == crate::path::sep());
                assert(s[q0.len() as int] == p0[q0.len() as int]);
                assert(crate::path::elem_wf(p0));
            }
        }
        assert(p0 =~= q0) by {
            assert(forall|i: int| 0 <= i < p0.len() ==> s[i] == p0[i] && s[i] == q0[i]);
        }
        assert(joined(pr) =~= joined(qr)) by {
            assert(forall|i: int| 0 <= i < joined(pr).len() ==> joined(pr)[i] == s[p0.len() + 1
                + i] && joined(qr)[i] == s[p0.len() + 1 + i]);
        }
        lemma_joined_injective(pr, qr);
        assert(p =~= q) by {
            assert(forall|i: int| 1 <= i < p.len() ==> p[i] == pr[i - 1] && q[i] == qr[i - 1]);
        }
    }
}

/// A one-component path and a deeper path never share a byte form.
proof fn lemma_one_deep_distinct(p: Seq<Seq<u8>>, q: Seq<Seq<u8>>)
    requires
        path_wf(p),
        path_wf(q),
        p.len() == 1,
        q.len() >= 2,
    ensures
        joined(p) != joined(q),
{
    let q0 = q[0];
    let qr = q.drop_first();
    assert(path_wf(qr)) by {
        assert(forall|i: int| 0 <= i < qr.len() ==> qr[i] == q[i + 1]
            && crate::path::elem_wf(#[trigger] q[i + 1]));
    }
    crate::path::lemma_joined_nonempty(qr);
    assert(joined(q) == q0 + seq![crate::path::sep()] + joined(qr));
    if joined(p) == joined(q) {
        assert(p[0][q0.len() as int] == crate::path::sep());
        assert(crate::path::elem_wf(p[0]));
    }
}

/// Compares two byte vectors in lexicographic order.
pub fn cmp_bytes(a: &Vec<u8>, b: &Vec<u8>) -> (r: Ordering)
    ensures
        r is Less <==> lex_lt(a@, b@),
        r is Equal <==> a@ == b@,
        r is Greater <==> lex_lt(b@, a@),
{
    let n: usize = if a.len() < b.len() {
        a.len()
    } else {
        b.len()
    };
    let mut i: usize = 0;
    while i < n
        invariant
            0 <= i <= n,
            n <= a@.len(),
            n <= b@.len(),
            n == a@.len() || n == b@.len(),
            forall|k: int| 0 <= k < i ==> a@[k] == b@[k],
        decreases n - i,
    {
        if a[i] < b[i] {
            proof {
                lemma_lex_skip(a@, b@, i as int);
                assert(a@.skip(i as int)[0] == a@[i as int]);
                assert(b@.skip(i as int)[0] == b@[i as int]);
                assert(lex_lt(a@, b@));
                lemma_lex_asym(a@, b@);
            }
            return Ordering::Less;
        }
        if a[i] > b[i] {
            proof {
                lemma_lex_skip(b@, a@, i as int);
                assert(b@.skip(i as int)[0] == b@[i as int]);
                assert(a@.skip(i as int)[0] == a@[i as int]);
                assert(lex_lt(b@, a@));
                lemma_lex_asym(b@, a@);
            }
            return Ordering::Greater;
        }
        i = i + 1;
    }
    if a.len() < b.len() {
        proof {
            lemma_lex_skip(a@, b@, n as int);
            assert(a@.skip(n as int).len() == 0);
            assert(b@.skip(n as int).len() > 0);
            assert(lex_lt(a@, b@));
            lemma_lex_asym(a@, b@);
        }
        Ordering::Less
    } else if a.len() > b.len() {
        proof {
            lemma_lex_skip(b@, a@, n as int);
            assert(b@.skip(n as int).len() == 0);
            assert(a@.skip(n as int).len() > 0);
            assert(lex_lt(b@, a@));
            lemma_lex_asym(b@, a@);
        }
        Ordering::Greater
    } else {
        proof {
            assert(a@ =~= b@);
            lemma_lex_asym(a@, b@);
            lemma_lex_asym(b@, a@);
        }
        Ordering::Equal
    }
}

/// The order of two paths in the legacy changed-file list: raw byte
/// comparison of the component-joined byte form of each path.
pub fn mercurial_mpath_comparator(a: &MPath, b: &MPath) -> (r: Ordering)
    ensures
        r is Less <==> lex_lt(joined(a@), joined(b@)),
        r is Equal <==> joined(a@) == joined(b@),
        r is Greater <==> lex_lt(joined(b@), joined(a@)),
{
    let av = a.to_vec();
    let bv = b.to_vec();
    cmp_bytes(&av, &bv)
}

/// The strict path order used by the changed-file list.
pub open spec fn path_lt(a: Seq<Seq<u8>>, b: Seq<Seq<u8>>) -> bool {
    lex_lt(joined(a), joined(b))
}

/// The views of a vector of paths.
pub open spec fn paths_view(v: Seq<MPath>) -> Seq<Seq<Seq<u8>>> {
    Seq::new(v.len(), |i: int| v[i]@)
}

/// A sequence of paths in strictly ascending byte order.
pub open spec fn strictly_sorted(v: Seq<Seq<Seq<u8>>>) -> bool {
    forall|i: int, j: int| 0 <= i < j < v.len() ==> path_lt(#[trigger] v[i], #[trigger] v[j])
}

/// Every path in `outv` has the byte form of one of the first `i` paths of
/// `all`.
pub open spec fn drawn_from(outv: Seq<Seq<Seq<u8>>>, all: Seq<MPath>, i: int) -> bool {
    forall|k: int| 0 <= k < outv.len() ==> exists|m: int|
        0 <= m < i && joined(#[trigger] outv[k]) == joined(all[m]@)
}

/// Sorts paths by their raw byte form. The input must hold no two paths
/// with the same byte form; the output is the same multiset of paths, in
/// strictly ascending order.
pub fn sort_paths(v: Vec<MPath>) -> (r: Vec<MPath>)
    requires
        forall|i: int, j: int| 0 <= i < j < v@.len() ==> joined(#[trigger] v@[i]@) != joined(
            #[trigger] v@[j]@,
        ),
    ensures
        paths_view(r@).to_multiset() == paths_view(v@).to_multiset(),
        strictly_sorted(paths_view(r@)),
{
    let mut out: Vec<MPath> = Vec::new();
    let mut i: usize = 0;
    proof {
        assert(paths_view(v@.take(0)) =~= Seq::<Seq<Seq<u8>>>::empty());
        assert(paths_view(out@) =~= Seq::<Seq<Seq<u8>>>::empty());
    }
    while i < v.len()
        invariant
            0 <= i <= v@.len(),
            forall|a: int, b: int| 0 <= a < b < v@.len() ==> joined(#[trigger] v@[a]@) != joined(
                #[trigger] v@[b]@,
            ),
            paths_view(out@).to_multiset() == paths_view(v@.take(i as int)).to_multiset(),
            strictly_sorted(paths_view(out@)),
            drawn_from(paths_view(out@), v@, i as int),
        decreases v@.len() - i,
    {
        let x = v[i].dup();
        let ghost xv = x@;
        let mut j: usize = 0;
        let ghost outv0 = paths_view(out@);
        while j < out.len()
            invariant
                0 <= j <= out@.len(),
                paths_view(out@) == outv0,
                x@ == xv,
                forall|k: int| 0 <= k < j ==> lex_lt(
                    joined(#[trigger] paths_view(out@)[k]),
                    joined(xv),
                ),
            ensures
                0 <= j <= out@.len(),
                paths_view(out@) == outv0,
                x@ == xv,
                forall|k: int| 0 <= k < j ==> lex_lt(
                    joined(#[trigger] paths_view(out@)[k]),
                    joined(xv),
                ),
                j < out@.len() ==> !lex_lt(joined(paths_view(out@)[j as int]), joined(xv)),
            decreases out@.len() - j,
        {
            let c = mercurial_mpath_comparator(&out[j], &x);
            let stop = match c {
                Ordering::Less => false,
                _ => true,
            };
            if stop {
                proof {
                    assert(paths_view(out@)[j as int] == out@[j as int]@);
                }
                break;
            }
            proof {
                assert(paths_view(out@)[j as int] == out@[j as int]@);
            }
            j = j + 1;
        }
        proof {
            insert_sorted_hold(xv, paths_view(out@), j as int, v@, i as int);
        }
        out.insert(j, x);
        i = i + 1;
        proof {
            assert(paths_view(out@) =~= outv0.insert(j as int, xv));
            lemma_paths_multiset_insert(outv0, j as int, xv);
            assert(paths_view(v@.take(i as int)) =~= paths_view(v@.take(i - 1)).push(xv));
            paths_view(v@.take(i - 1)).to_multiset_ensures();
            assert(paths_view(v@.take(i as int)).to_multiset() == paths_view(
                v@.take(i - 1),
            ).to_multiset().insert(xv));
        }
    }
    proof {
        assert(v@.take(v@.len() as int) =~= v@);
    }
    out
}

/// Inserting an element into a sequence adds it to the multiset.
proof fn lemma_paths_multiset_insert(s: Seq<Seq<Seq<u8>>>, j: int, x: Seq<Seq<u8>>)
    requires
        0 <= j <= s.len(),
    ensures
        s.insert(j, x).to_multiset() == s.to_multiset().insert(x),
{
    assert(s.insert(j, x) =~= s.take(j).push(x) + s.skip(j));
    vstd::seq_lib::lemma_multiset_commutative(s.take(j).push(x), s.skip(j));
    vstd::seq_lib::lemma_multiset_commutative(s.take(j), s.skip(j));
    s.take(j).to_multiset_ensures();
    assert(s.take(j) + s.skip(j) =~= s);
}

/// Where the scan stopped is where the new path belongs: everything before
/// it is smaller, everything from there on is larger.
proof fn insert_sorted_hold(
    x: Seq<Seq<u8>>,
    outv: Seq<Seq<Seq<u8>>>,
    j: int,
    all: Seq<MPath>,
    i: int,
)
    requires
        strictly_sorted(outv),
        0 <= j <= outv.len(),
        forall|k: int| 0 <= k < j ==> lex_lt(joined(#[trigger] outv[k]), joined(x)),
        j < outv.len() ==> !lex_lt(joined(outv[j]), joined(x)),
        0 <= i < all.len(),
        x == all[i]@,
        forall|a: int, b: int| 0 <= a < b < all.len() ==> joined(#[trigger] all[a]@) != joined(
            #[trigger] all[b]@,
        ),
        drawn_from(outv, all, i),
    ensures
        strictly_sorted(outv.insert(j, x)),
        drawn_from(outv.insert(j, x), all, i + 1),
{
    let s = outv.insert(j, x);
    assert forall|k: int| j < k < s.len() implies lex_lt(joined(x), joined(s[k])) by {
        assert(s[k] == outv[k - 1]);
        let prev = outv[k - 1];
        let m = choose|m: int| 0 <= m < i && joined(prev) == joined(all[m]@);
        assert(joined(all[m]@) != joined(all[i]@));
        assert(joined(prev) != joined(x));
        if j < outv.len() {
            if k - 1 > j {
                assert(path_lt(outv[j], prev));
            }
            lemma_lex_total(joined(outv[j]), joined(x));
            if k - 1 > j {
                if joined(outv[j]) == joined(x) {
                    assert(lex_lt(joined(x), joined(prev)));
                } else {
                    lemma_lex_trans(joined(x), joined(outv[j]), joined(prev));
                }
            } else {
                if joined(outv[j]) != joined(x) {
                    assert(lex_lt(joined(x), joined(prev)));
                }
            }
        }
    }
    assert forall|a: int, b: int| 0 <= a < b < s.len() implies path_lt(s[a], s[b]) by {
        if a < j && b < j {
            assert(s[a] == outv[a] && s[b] == outv[b]);
        } else if a < j && b == j {
            assert(s[a] == outv[a] && s[b] == x);
        } else if a < j && b > j {
            assert(s[a] == outv[a] && s[b] == outv[b - 1]);
            assert(lex_lt(joined(outv[a]), joined(x)));
            assert(lex_lt(joined(x), joined(s[b])));
            lemma_lex_trans(joined(outv[a]), joined(x), joined(s[b]));
        } else if a == j {
            assert(s[a] == x && s[b] == outv[b - 1]);
        } else {
            assert(s[a] == outv[a - 1] && s[b] == outv[b - 1]);
        }
    }
    assert forall|k: int| 0 <= k < s.len() implies exists|m: int| 0 <= m < i + 1 && joined(
        #[trigger] s[k],
    ) == joined(all[m]@) by {
        if k == j {
            assert(joined(s[k]) == joined(all[i]@));
        } else if k < j {
            let m = choose|m: int| 0 <= m < i && joined(outv[k]) == joined(all[m]@);
            assert(joined(s[k]) == joined(all[m]@));
        } else {
            let m = choose|m: int| 0 <= m < i && joined(outv[k - 1]) == joined(all[m]@);
            assert(joined(s[k]) == joined(all[m]@));
        }
    }
}

} // verus!
