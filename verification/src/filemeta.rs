use vstd::prelude::*;
use crate::hash::NodeHash;
use crate::path::{joined, path_wf, valid_path_bytes, MPath};

verus! {

/// The first position at or after `i` where the two-byte metadata marker
/// `0x01 0x0a` stands.
pub open spec fn find_marker(c: Seq<u8>, i: int) -> Option<int>
    decreases c.len() - i,
{
    if i < 0 || i + 1 >= c.len() {
        Option::None
    } else if c[i] == 1 && c[i + 1] == 10 {
        Option::Some(i)
    } else {
        find_marker(c, i + 1)
    }
}

/// The first position at or after `i` holding the byte `b`.
pub open spec fn find_byte(m: Seq<u8>, i: int, b: u8) -> Option<int>
    decreases m.len() - i,
{
    if i < 0 || i >= m.len() {
        Option::None
    } else if m[i] == b {
        Option::Some(i)
    } else {
        find_byte(m, i + 1, b)
    }
}

/// The metadata region of file content: the bytes between a leading
/// `0x01 0x0a` marker and the next such marker. Content without the
/// leading marker, or with no closing marker, carries no metadata.
pub open spec fn file_meta(c: Seq<u8>) -> Option<Seq<u8>> {
    if c.len() >= 2 && c[0] == 1 && c[1] == 10 {
        match find_marker(c, 2) {
            Option::Some(e) => Option::Some(c.subrange(2, e)),
            Option::None => Option::None,
        }
    } else {
        Option::None
    }
}

/// The value of a metadata line of the form `<key>: <value>`.
pub open spec fn line_value(line: Seq<u8>, key: Seq<u8>) -> Option<Seq<u8>> {
    if line.len() >= key.len() + 2 && line.take(key.len() as int) == key && line[key.len() as int]
        == 58 && line[key.len() as int + 1] == 32 {
        Option::Some(line.skip(key.len() as int + 2))
    } else {
        Option::None
    }
}

/// The value of the first metadata line carrying this key, among lines
/// separated by `0x0a`.
pub open spec fn lookup_meta(m: Seq<u8>, key: Seq<u8>) -> Option<Seq<u8>>
    decreases m.len(),
{
    let e = match find_byte(m, 0, 10u8) {
        Option::Some(j) => j,
        Option::None => m.len() as int,
    };
    if 0 <= e < m.len() {
        match line_value(m.take(e), key) {
            Option::Some(v) => Option::Some(v),
            Option::None => lookup_meta(m.skip(e + 1), key),
        }
    } else {
        line_value(m, key)
    }
}

/// The bytes of the key `copy`.
pub open spec fn copy_key() -> Seq<u8> {
    seq![99u8, 111u8, 112u8, 121u8]
}

/// The bytes of the key `copyrev`.
pub open spec fn copyrev_key() -> Seq<u8> {
    seq![99u8, 111u8, 112u8, 121u8, 114u8, 101u8, 118u8]
}

pub open spec fn is_hex_digit(b: u8) -> bool {
    (48 <= b <= 57) || (97 <= b <= 102) || (65 <= b <= 70)
}

pub open spec fn hex_val(b: u8) -> u8 {
    if 48 <= b <= 57 {
        (b - 48) as u8
    } else if 97 <= b <= 102 {
        (b - 87) as u8
    } else {
        (b - 55) as u8
    }
}

/// Forty hex digits.
pub open spec fn hex40_ok(s: Seq<u8>) -> bool {
    s.len() == 40 && forall|i: int| 0 <= i < 40 ==> is_hex_digit(#[trigger] s[i])
}

/// The twenty bytes written as forty hex digits.
pub open spec fn hex_decode20(s: Seq<u8>) -> Seq<u8> {
    Seq::new(20, |i: int| (16 * hex_val(s[2 * i]) + hex_val(s[2 * i + 1])) as u8)
}

/// The copy provenance embedded in file content: present exactly when the
/// metadata region exists and carries both a `copy` path that parses and a
/// `copyrev` of forty hex digits. The result pairs the source path's bytes
/// with the decoded source hash.
pub open spec fn spec_copied_from(c: Seq<u8>) -> Option<(Seq<u8>, Seq<u8>)> {
    match file_meta(c) {
        Option::None => Option::None,
        Option::Some(m) => match (lookup_meta(m, copy_key()), lookup_meta(m, copyrev_key())) {
            (Option::Some(pb), Option::Some(rh)) => if valid_path_bytes(pb) && hex40_ok(rh) {
                Option::Some((pb, hex_decode20(rh)))
            } else {
                Option::None
            },
            _ => Option::None,
        },
    }
}

/// Whether the line `m[start..end]` is `<key>: <value>`, and the value.
fn match_line(m: &Vec<u8>, start: usize, end: usize, key: &Vec<u8>) -> (r: Option<Vec<u8>>)
    requires
        0 <= start <= end <= m@.len(),
    ensures
        r is Some <==> line_value(m@.subrange(start as int, end as int), key@) is Some,
        r matches Some(v) ==> line_value(m@.subrange(start as int, end as int), key@)
            == Option::Some(v@),
{
    let ghost line = m@.subrange(start as int, end as int);
    if end - start < key.len() {
        return None;
    }
    if end - start - key.len() < 2 {
        return None;
    }
    let mut t: usize = 0;
    while t < key.len()
        invariant
            0 <= t <= key@.len(),
            0 <= start <= end <= m@.len(),
            end - start >= key@.len() + 2,
            line == m@.subrange(start as int, end as int),
            forall|k: int| 0 <= k < t ==> line[k] == key@[k],
        decreases key@.len() - t,
    {
        if m[start + t] != key[t] {
            proof {
                assert(line[t as int] == m@[start + t]);
                assert(line.take(key@.len() as int)[t as int] != key@[t as int]);
            }
            return None;
        }
        proof {
            assert(line[t as int] == m@[start + t]);
        }
        t = t + 1;
    }
    let ghost kl = key@.len() as int;
    if m[start + key.len()] != 58 || m[start + key.len() + 1] != 32 {
        proof {
            assert(line[kl] == m@[start + kl]);
            assert(line[kl + 1] == m@[start + kl + 1]);
        }
        return None;
    }
    let mut v: Vec<u8> = Vec::new();
    let mut u: usize = start + key.len() + 2;
    while u < end
        invariant
            start + key@.len() + 2 <= u <= end,
            end <= m@.len(),
            line == m@.subrange(start as int, end as int),
            v@ == m@.subrange(start + key@.len() + 2, u as int),
        decreases end - u,
    {
        v.push(m[u]);
        u = u + 1;
        proof {
            assert(v@ =~= m@.subrange(start + key@.len() + 2, u as int));
        }
    }
    proof {
        assert(line.take(kl) =~= key@);
        assert(line[kl] == m@[start + kl]);
        assert(line[kl + 1] == m@[start + kl + 1]);
        assert(line.skip(kl + 2) =~= m@.subrange(start + kl + 2, end as int));
        assert(line_value(line, key@) == Option::Some(v@));
    }
    Some(v)
}

/// Finds the value of the first metadata line carrying this key.
fn lookup_meta_exec(m: &Vec<u8>, key: &Vec<u8>) -> (r: Option<Vec<u8>>)
    ensures
        r is Some <==> lookup_meta(m@, key@) is Some,
        r matches Some(v) ==> lookup_meta(m@, key@) == Option::Some(v@),
{
    let mut pos: usize = 0;
    proof {
        assert(m@.skip(0) =~= m@);
    }
    while pos < m.len()
        invariant
            0 <= pos <= m@.len(),
            lookup_meta(m@, key@) == lookup_meta(m@.skip(pos as int), key@),
        decreases m@.len() - pos,
    {
        let ghost suffix = m@.skip(pos as int);
        // Find the end of the current line.
        let mut j: usize = pos;
        while j < m.len() && m[j] != 10
            invariant
                pos <= j <= m@.len(),
                forall|k: int| pos <= k < j ==> m@[k] != 10u8,
            decreases m@.len() - j,
        {
            j = j + 1;
        }
        proof {
            lemma_find_byte_scan(m@, pos as int, j as int);
            if j < m@.len() {
                assert(find_byte(suffix, 0, 10u8) == Option::Some(j - pos));
            } else {
                assert(find_byte(suffix, 0, 10u8) is None);
            }
            assert(suffix.take(j - pos) =~= m@.subrange(pos as int, j as int));
        }
        match match_line(m, pos, j, key) {
            Some(v) => {
                proof {
                    if j < m@.len() {
                        assert(lookup_meta(suffix, key@) == Option::Some(v@));
                    } else {
                        assert(suffix =~= m@.subrange(pos as int, j as int));
                        assert(lookup_meta(suffix, key@) == Option::Some(v@));
                    }
                }
                return Some(v);
            },
            None => {
                proof {
                    if j < m@.len() {
                        assert(suffix.skip((j - pos) + 1) =~= m@.skip(j + 1));
                        assert(lookup_meta(suffix, key@) == lookup_meta(m@.skip(j + 1), key@));
                    } else {
                        assert(suffix =~= m@.subrange(pos as int, j as int));
                        assert(lookup_meta(suffix, key@) is None);
                    }
                }
                if j >= m.len() {
                    return None;
                }
                pos = j + 1;
            },
        }
    }
    proof {
        assert(m@.skip(pos as int).len() == 0);
        let empty = m@.skip(pos as int);
        assert(find_byte(empty, 0, 10u8) is None);
        assert(line_value(empty, key@) is None);
        assert(lookup_meta(empty, key@) is None);
    }
    None
}

/// Where the scan stopped is the first `0x0a` of the suffix, or its end.
pub proof fn lemma_find_byte_scan(m: Seq<u8>, pos: int, j: int)
    requires
        0 <= pos <= j <= m.len(),
        forall|k: int| pos <= k < j ==> m[k] != 10u8,
        j < m.len() ==> m[j] == 10u8,
    ensures
        j < m.len() ==> find_byte(m.skip(pos), 0, 10u8) == Option::Some(j - pos),
        j == m.len() ==> find_byte(m.skip(pos), 0, 10u8) is None,
{
    lemma_find_byte_from(m.skip(pos), 0, j - pos);
}

/// Scanning up to the first hit resolves `find_byte`.
proof fn lemma_find_byte_from(s: Seq<u8>, i: int, j: int)
    requires
        0 <= i <= j <= s.len(),
        forall|k: int| i <= k < j ==> s[k] != 10u8,
        j < s.len() ==> s[j] == 10u8,
    ensures
        j < s.len() ==> find_byte(s, i, 10u8) == Option::Some(j),
        j == s.len() ==> find_byte(s, i, 10u8) is None,
    decreases j - i,
{
    if i < j {
        lemma_find_byte_from(s, i + 1, j);
    }
}

/// Extracts the metadata region of file content, where one exists.
fn extract_meta(c: &Vec<u8>) -> (r: Option<Vec<u8>>)
    ensures
        r is Some <==> file_meta(c@) is Some,
        r matches Some(m) ==> file_meta(c@) == Option::Some(m@),
{
    if c.len() < 2 {
        return None;
    }
    if c[0] != 1 || c[1] != 10 {
        return None;
    }
    let mut i: usize = 2;
    while i < c.len() - 1 && !(c[i] == 1 && c[i + 1] == 10)
        invariant
            2 <= i,
            i <= c@.len(),
            c@.len() >= 2,
            forall|k: int| 2 <= k < i ==> !((#[trigger] c@[k]) == 1u8 && c@[k + 1] == 10u8),
        decreases c@.len() - i,
    {
        i = i + 1;
    }
    proof {
        lemma_find_marker_from(c@, 2, i as int);
    }
    if i >= c.len() - 1 {
        proof {
            assert(find_marker(c@, i as int) is None);
        }
        return None;
    }
    proof {
        assert(find_marker(c@, i as int) == Option::Some(i as int));
        assert(find_marker(c@, 2) == Option::Some(i as int));
    }
    let mut m: Vec<u8> = Vec::new();
    let mut k: usize = 2;
    while k < i
        invariant
            2 <= k <= i,
            i <= c@.len(),
            m@ == c@.subrange(2, k as int),
        decreases i - k,
    {
        m.push(c[k]);
        k = k + 1;
        proof {
            assert(m@ =~= c@.subrange(2, k as int));
        }
    }
    Some(m)
}

/// Scanning up to the first marker resolves `find_marker`.
proof fn lemma_find_marker_from(c: Seq<u8>, i: int, j: int)
    requires
        0 <= i <= j,
        forall|k: int| i <= k < j ==> !((#[trigger] c[k]) == 1u8 && c[k + 1] == 10u8),
    ensures
        find_marker(c, i) == find_marker(c, j),
    decreases j - i,
{
    if i < j {
        lemma_find_marker_from(c, i + 1, j);
    }
}

/// Decodes forty hex digits into a twenty-byte hash.
fn decode_hex40(s: &Vec<u8>) -> (r: Option<NodeHash>)
    ensures
        r is Some <==> hex40_ok(s@),
        r matches Some(h) ==> h@ == hex_decode20(s@),
{
    if s.len() != 40 {
        return None;
    }
    let mut i: usize = 0;
    while i < 40
        invariant
            0 <= i <= 40,
            s@.len() == 40,
            forall|k: int| 0 <= k < i ==> is_hex_digit(#[trigger] s@[k]),
        decreases 40 - i,
    {
        let b = s[i];
        if !((48 <= b && b <= 57) || (97 <= b && b <= 102) || (65 <= b && b <= 70)) {
            return None;
        }
        i = i + 1;
    }
    let mut bytes: Vec<u8> = Vec::new();
    let mut k: usize = 0;
    while k < 20
        invariant
            0 <= k <= 20,
            s@.len() == 40,
            hex40_ok(s@),
            bytes@.len() == k,
            forall|t: int| 0 <= t < k ==> bytes@[t] == (16 * hex_val(s@[2 * t]) + hex_val(
                s@[2 * t + 1],
            )) as u8,
        decreases 20 - k,
    {
        let hi = s[2 * k];
        let lo = s[2 * k + 1];
        let hv: u8 = if 48 <= hi && hi <= 57 {
            hi - 48
        } else if 97 <= hi && hi <= 102 {
            hi - 87
        } else {
            hi - 55
        };
        let lv: u8 = if 48 <= lo && lo <= 57 {
            lo - 48
        } else if 97 <= lo && lo <= 102 {
            lo - 87
        } else {
            lo - 55
        };
        proof {
            assert(is_hex_digit(s@[2 * (k as int)]));
            assert(is_hex_digit(s@[2 * (k as int) + 1]));
        }
        bytes.push(16 * hv + lv);
        k = k + 1;
    }
    proof {
        assert(bytes@ =~= hex_decode20(s@));
    }
    Some(NodeHash::new(bytes))
}

/// Parses the copy provenance embedded in raw file content. The result is
/// present exactly when the content's metadata region names both a `copy`
/// source path and a `copyrev` source hash that parse.
pub fn parse_copy_info(c: &Vec<u8>) -> (r: Option<(MPath, NodeHash)>)
    ensures
        r is Some <==> spec_copied_from(c@) is Some,
        r matches Some((p, h)) ==> (spec_copied_from(c@) matches Some(v) && path_wf(p@) && joined(
            p@,
        ) == v.0 && h@ == v.1),
{
    let meta = match extract_meta(c) {
        Some(m) => m,
        None => {
            return None;
        },
    };
    let mut ck: Vec<u8> = Vec::new();
    ck.push(99);
    ck.push(111);
    ck.push(112);
    ck.push(121);
    proof {
        assert(ck@ =~= copy_key());
    }
    let mut rk: Vec<u8> = Vec::new();
    rk.push(99);
    rk.push(111);
    rk.push(112);
    rk.push(121);
    rk.push(114);
    rk.push(101);
    rk.push(118);
    proof {
        assert(rk@ =~= copyrev_key());
    }
    let path_bytes = match lookup_meta_exec(&meta, &ck) {
        Some(v) => v,
        None => {
            return None;
        },
    };
    let rev_bytes = match lookup_meta_exec(&meta, &rk) {
        Some(v) => v,
        None => {
            return None;
        },
    };
    let path = match MPath::new(path_bytes.as_slice()) {
        Ok(p) => p,
        Err(_) => {
            return None;
        },
    };
    let hash = match decode_hex40(&rev_bytes) {
        Some(h) => h,
        None => {
            return None;
        },
    };
    Some((path, hash))
}

} // verus!
