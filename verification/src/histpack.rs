use vstd::prelude::*;
use crate::hash::{hash_wf, null_hash_seq, NodeHash};
use crate::order::{cmp_bytes, lemma_lex_trans, lex_lt};

verus! {

/// Failures of the history-pack codec.
#[derive(Debug)]
pub enum PackError {
    /// The header byte names no known pack version.
    InvalidVersion(u8),
    /// The buffer ends before the record does.
    ShortBuffer,
    /// The key is not present in the in-memory index.
    NotInIndex,
    /// The records' parent links close a cycle, so no order puts every
    /// record before its parents.
    CyclicHistory,
}

/// The on-disk format version of a history pack.
#[derive(Clone, Copy, Debug, PartialEq, Eq, Structural)]
pub enum HistoryPackVersion {
    Zero,
    One,
}

impl HistoryPackVersion {
    /// Reads a version from its header byte; only zero and one exist.
    pub fn new(value: u8) -> (r: Result<HistoryPackVersion, PackError>)
        ensures
            value == 0 ==> (r matches Ok(v) && v is Zero),
            value == 1 ==> (r matches Ok(v) && v is One),
            value != 0 && value != 1 ==> (r matches Err(e) && e == PackError::InvalidVersion(
                value,
            )),
    {
        match value {
            0 => Ok(HistoryPackVersion::Zero),
            1 => Ok(HistoryPackVersion::One),
            _ => Err(PackError::InvalidVersion(value)),
        }
    }
}

impl From<HistoryPackVersion> for u8 {
    /// The header byte a version is written as.
    fn from(version: HistoryPackVersion) -> (r: u8) {
        match version {
            HistoryPackVersion::Zero => 0,
            HistoryPackVersion::One => 1,
        }
    }
}

impl vstd::std_specs::convert::FromSpecImpl<HistoryPackVersion> for u8 {
    open spec fn obeys_from_spec() -> bool {
        true
    }

    open spec fn from_spec(version: HistoryPackVersion) -> u8 {
        match version {
            HistoryPackVersion::Zero => 0u8,
            HistoryPackVersion::One => 1u8,
        }
    }
}

/// Two bytes of a sixteen-bit value, highest first.
pub open spec fn be16(v: u16) -> Seq<u8> {
    seq![(v / 256) as u8, (v % 256) as u8]
}

/// Four bytes of a thirty-two-bit value, highest first.
pub open spec fn be32(v: u32) -> Seq<u8> {
    seq![
        (v / 0x1000000) as u8,
        ((v / 0x10000) % 256) as u8,
        ((v / 256) % 256) as u8,
        (v % 256) as u8,
    ]
}

/// Appends a sixteen-bit value, highest byte first.
fn write_u16_be(out: &mut Vec<u8>, v: u16)
    ensures
        final(out)@ == old(out)@ + be16(v),
{
    out.push((v / 256) as u8);
    out.push((v % 256) as u8);
    proof {
        assert(out@ =~= old(out)@ + be16(v));
    }
}

/// Appends a thirty-two-bit value, highest byte first.
fn write_u32_be(out: &mut Vec<u8>, v: u32)
    ensures
        final(out)@ == old(out)@ + be32(v),
{
    out.push((v / 0x1000000) as u8);
    out.push(((v / 0x10000) % 256) as u8);
    out.push(((v / 256) % 256) as u8);
    out.push((v % 256) as u8);
    proof {
        assert(out@ =~= old(out)@ + be32(v));
    }
}

/// Reads the sixteen-bit value written at a position.
fn read_u16_be(buf: &Vec<u8>, at: usize) -> (v: u16)
    requires
        at + 2 <= buf@.len(),
    ensures
        be16(v) == buf@.subrange(at as int, at + 2),
{
    proof {
        vstd::std_specs::vec::axiom_spec_len(buf);
    }
    let v: u16 = (buf[at] as u16) * 256 + (buf[at + 1] as u16);
    proof {
        assert(v / 256 == buf@[at as int]) by (nonlinear_arith)
            requires
                v == (buf@[at as int] as u16) * 256 + (buf@[at + 1] as u16),
                buf@[at + 1] < 256,
        ;
        assert(v % 256 == buf@[at + 1]) by (nonlinear_arith)
            requires
                v == (buf@[at as int] as u16) * 256 + (buf@[at + 1] as u16),
                buf@[at + 1] < 256,
        ;
        assert(be16(v) =~= buf@.subrange(at as int, at + 2));
    }
    v
}

/// Reads the thirty-two-bit value written at a position.
fn read_u32_be(buf: &Vec<u8>, at: usize) -> (v: u32)
    requires
        at + 4 <= buf@.len(),
    ensures
        be32(v) == buf@.subrange(at as int, at + 4),
{
    proof {
        vstd::std_specs::vec::axiom_spec_len(buf);
    }
    let b0 = buf[at] as u32;
    let b1 = buf[at + 1] as u32;
    let b2 = buf[at + 2] as u32;
    let b3 = buf[at + 3] as u32;
    let v: u32 = b0 * 0x1000000 + b1 * 0x10000 + b2 * 256 + b3;
    proof {
        assert(v / 0x1000000 == b0 && (v / 0x10000) % 256 == b1 && (v / 256) % 256 == b2 && v
            % 256 == b3) by (nonlinear_arith)
            requires
                v == b0 * 0x1000000 + b1 * 0x10000 + b2 * 256 + b3,
                b0 < 256,
                b1 < 256,
                b2 < 256,
                b3 < 256,
        ;
        assert(be32(v) =~= buf@.subrange(at as int, at + 4));
    }
    v
}

/// The header of one file section of a history pack: the file's name and
/// how many entries follow.
#[derive(Debug)]
pub struct FileSectionHeader {
    pub file_name: Vec<u8>,
    pub count: u32,
}

/// The wire form of a section header: the name's length in two bytes,
/// the name, and the entry count in four bytes.
pub open spec fn header_bytes(name: Seq<u8>, count: u32) -> Seq<u8> {
    be16(name.len() as u16) + name + be32(count)
}

impl FileSectionHeader {
    /// Appends this header's wire form.
    pub fn write(&self, writer: &mut Vec<u8>)
        requires
            self.file_name@.len() <= u16::MAX,
        ensures
            final(writer)@ == old(writer)@ + header_bytes(self.file_name@, self.count),
    {
        write_u16_be(writer, self.file_name.len() as u16);
        let mut i: usize = 0;
        let ghost mid = writer@;
        while i < self.file_name.len()
            invariant
                0 <= i <= self.file_name@.len(),
                writer@ == mid + self.file_name@.take(i as int),
            decreases self.file_name@.len() - i,
        {
            writer.push(self.file_name[i]);
            i = i + 1;
            proof {
                assert(writer@ =~= mid + self.file_name@.take(i as int));
            }
        }
        write_u32_be(writer, self.count);
        proof {
            assert(self.file_name@.take(self.file_name@.len() as int) =~= self.file_name@);
            assert(writer@ =~= old(writer)@ + header_bytes(self.file_name@, self.count));
        }
    }

    /// Reads one header from the front of the buffer. Fails exactly when
    /// the buffer is too short for the length it announces.
    pub fn read(buf: &Vec<u8>) -> (r: Result<(FileSectionHeader, usize), PackError>)
        ensures
            r is Ok <==> (buf@.len() >= 2 && 2 + be16_val(buf@.subrange(0, 2)) + 4
                <= buf@.len()),
            r matches Ok((h, used)) ==> ({
                &&& h.file_name@ == buf@.subrange(2, 2 + be16_val(buf@.subrange(0, 2)))
                &&& be32(h.count) == buf@.subrange(
                    2 + be16_val(buf@.subrange(0, 2)),
                    2 + be16_val(buf@.subrange(0, 2)) + 4,
                )
                &&& used == 2 + be16_val(buf@.subrange(0, 2)) + 4
            }),
            r matches Err(e) ==> e is ShortBuffer,
    {
        proof {
            vstd::std_specs::vec::axiom_spec_len(buf);
        }
        if buf.len() < 2 {
            return Err(PackError::ShortBuffer);
        }
        let n = read_u16_be(buf, 0);
        proof {
            lemma_be16_val(n);
        }
        let name_len = n as usize;
        if buf.len() < 2 + name_len || buf.len() - 2 - name_len < 4 {
            return Err(PackError::ShortBuffer);
        }
        let mut file_name: Vec<u8> = Vec::new();
        let mut i: usize = 0;
        while i < name_len
            invariant
                0 <= i <= name_len,
                2 + name_len <= buf@.len(),
                file_name@ == buf@.subrange(2, 2 + i),
            decreases name_len - i,
        {
            proof {
                vstd::std_specs::vec::axiom_spec_len(buf);
            }
            file_name.push(buf[2 + i]);
            i = i + 1;
            proof {
                assert(file_name@ =~= buf@.subrange(2, 2 + i));
            }
        }
        let count = read_u32_be(buf, 2 + name_len);
        Ok((FileSectionHeader { file_name, count }, 2 + name_len + 4))
    }
}

/// The number a two-byte big-endian run encodes.
pub open spec fn be16_val(s: Seq<u8>) -> int {
    s[0] * 256 + s[1]
}

/// The value written is the value read back.
pub proof fn lemma_be16_val(v: u16)
    ensures
        be16_val(be16(v)) == v,
{
    assert(be16_val(be16(v)) == (v / 256) * 256 + v % 256);
    assert((v / 256) * 256 + v % 256 == v) by (nonlinear_arith);
}

/// A section header written and read back comes back unchanged: the wire
/// form round-trips, whatever follows it in the buffer.
pub proof fn lemma_header_round_trip(name: Seq<u8>, count: u32, rest: Seq<u8>)
    requires
        name.len() <= u16::MAX,
    ensures
        ({
            let buf = header_bytes(name, count) + rest;
            &&& buf.len() >= 2
            &&& be16_val(buf.subrange(0, 2)) == name.len()
            &&& 2 + name.len() as int + 4 <= buf.len()
            &&& buf.subrange(2, 2 + name.len() as int) == name
            &&& buf.subrange(2 + name.len() as int, 2 + name.len() as int + 4) == be32(count)
        }),
{
    let buf = header_bytes(name, count) + rest;
    lemma_be16_val(name.len() as u16);
    assert(buf.subrange(0, 2) =~= be16(name.len() as u16));
    assert(buf.subrange(2, 2 + name.len() as int) =~= name);
    assert(buf.subrange(2 + name.len() as int, 2 + name.len() as int + 4) =~= be32(count));
}

/// One history entry of a pack: a node, its two parents, the owning
/// changeset, and the copy source where one was recorded.
#[derive(Debug)]
pub struct HistoryEntry {
    pub node: NodeHash,
    pub p1: NodeHash,
    pub p2: NodeHash,
    pub link_node: NodeHash,
    pub copy_from: Option<Vec<u8>>,
}

/// The wire form of a history entry: four twenty-byte hashes, then the
/// copy source's length in two bytes and its bytes; absent copy sources
/// are written as length zero.
pub open spec fn entry_bytes(
    node: Seq<u8>,
    p1: Seq<u8>,
    p2: Seq<u8>,
    link: Seq<u8>,
    copy_from: Option<Seq<u8>>,
) -> Seq<u8> {
    node + p1 + p2 + link + (match copy_from {
        Option::Some(c) => be16(c.len() as u16) + c,
        Option::None => be16(0),
    })
}

impl HistoryEntry {
    /// Appends one entry's wire form.
    pub fn write(
        writer: &mut Vec<u8>,
        node: &NodeHash,
        p1: &NodeHash,
        p2: &NodeHash,
        linknode: &NodeHash,
        copy_from: &Option<Vec<u8>>,
    )
        requires
            hash_wf(node@),
            hash_wf(p1@),
            hash_wf(p2@),
            hash_wf(linknode@),
            copy_from matches Some(c) ==> 1 <= c@.len() <= u16::MAX,
        ensures
            final(writer)@ == old(writer)@ + entry_bytes(
                node@,
                p1@,
                p2@,
                linknode@,
                match copy_from {
                    Option::Some(c) => Option::Some(c@),
                    Option::None => Option::None,
                },
            ),
    {
        push_all(writer, &node.bytes);
        push_all(writer, &p1.bytes);
        push_all(writer, &p2.bytes);
        push_all(writer, &linknode.bytes);
        match copy_from {
            Some(file_name) => {
                write_u16_be(writer, file_name.len() as u16);
                push_all(writer, file_name);
            },
            None => {
                write_u16_be(writer, 0);
            },
        }
        proof {
            assert(writer@ =~= old(writer)@ + entry_bytes(node@, p1@, p2@, linknode@, match
            copy_from {
                Option::Some(c) => Option::Some(c@),
                Option::None => Option::None,
            }));
        }
    }

    /// Reads one entry from the front of the buffer. Fails exactly when
    /// the buffer is too short for the four hashes and the copy source it
    /// announces; a zero copy length reads back as no copy source.
    pub fn read(buf: &Vec<u8>) -> (r: Result<(HistoryEntry, usize), PackError>)
        ensures
            r is Ok <==> (buf@.len() >= 82 && 82 + be16_val(buf@.subrange(80, 82))
                <= buf@.len()),
            r matches Ok((e, used)) ==> ({
                let clen = be16_val(buf@.subrange(80, 82));
                &&& e.node@ == buf@.subrange(0, 20)
                &&& e.p1@ == buf@.subrange(20, 40)
                &&& e.p2@ == buf@.subrange(40, 60)
                &&& e.link_node@ == buf@.subrange(60, 80)
                &&& (clen == 0 ==> e.copy_from is None && used == 82)
                &&& (clen > 0 ==> (e.copy_from matches Some(c) && c@ == buf@.subrange(
                    82,
                    82 + clen,
                ) && used == 82 + clen))
            }),
            r matches Err(e) ==> e is ShortBuffer,
    {
        proof {
            vstd::std_specs::vec::axiom_spec_len(buf);
        }
        if buf.len() < 82 {
            return Err(PackError::ShortBuffer);
        }
        let node = NodeHash::new(copy_range(buf, 0, 20));
        let p1 = NodeHash::new(copy_range(buf, 20, 40));
        let p2 = NodeHash::new(copy_range(buf, 40, 60));
        let link_node = NodeHash::new(copy_range(buf, 60, 80));
        let n = read_u16_be(buf, 80);
        proof {
            lemma_be16_val(n);
        }
        let clen = n as usize;
        if clen == 0 {
            return Ok((HistoryEntry { node, p1, p2, link_node, copy_from: None }, 82));
        }
        if buf.len() - 82 < clen {
            return Err(PackError::ShortBuffer);
        }
        let copy = copy_range(buf, 82, 82 + clen);
        Ok((HistoryEntry { node, p1, p2, link_node, copy_from: Some(copy) }, 82 + clen))
    }
}

/// Appends every byte of a vector.
fn push_all(out: &mut Vec<u8>, v: &Vec<u8>)
    ensures
        final(out)@ == old(out)@ + v@,
{
    let mut i: usize = 0;
    let ghost mid = out@;
    while i < v.len()
        invariant
            0 <= i <= v@.len(),
            out@ == mid + v@.take(i as int),
        decreases v@.len() - i,
    {
        out.push(v[i]);
        i = i + 1;
        proof {
            assert(out@ =~= mid + v@.take(i as int));
        }
    }
    proof {
        assert(v@.take(v@.len() as int) =~= v@);
    }
}

/// Copies one range of a buffer.
fn copy_range(buf: &Vec<u8>, from: usize, to: usize) -> (r: Vec<u8>)
    requires
        from <= to <= buf@.len(),
    ensures
        r@ == buf@.subrange(from as int, to as int),
{
    let mut r: Vec<u8> = Vec::new();
    let mut i: usize = from;
    while i < to
        invariant
            from <= i <= to,
            to <= buf@.len(),
            r@ == buf@.subrange(from as int, i as int),
        decreases to - i,
    {
        r.push(buf[i]);
        i = i + 1;
        proof {
            assert(r@ =~= buf@.subrange(from as int, i as int));
        }
    }
    r
}

/// A history entry written and read back comes back unchanged, whatever
/// follows it in the buffer: the wire form round-trips.
pub proof fn lemma_entry_round_trip(
    node: Seq<u8>,
    p1: Seq<u8>,
    p2: Seq<u8>,
    link: Seq<u8>,
    copy_from: Option<Seq<u8>>,
    rest: Seq<u8>,
)
    requires
        node.len() == 20,
        p1.len() == 20,
        p2.len() == 20,
        link.len() == 20,
        copy_from matches Some(c) ==> 1 <= c.len() <= u16::MAX,
    ensures
        ({
            let buf = entry_bytes(node, p1, p2, link, copy_from) + rest;
            &&& buf.len() >= 82
            &&& buf.subrange(0, 20) == node
            &&& buf.subrange(20, 40) == p1
            &&& buf.subrange(40, 60) == p2
            &&& buf.subrange(60, 80) == link
            &&& be16_val(buf.subrange(80, 82)) == (match copy_from {
                Option::Some(c) => c.len() as int,
                Option::None => 0,
            })
            &&& (copy_from matches Some(c) ==> buf.subrange(82, 82 + c.len() as int) == c)
        }),
{
    let buf = entry_bytes(node, p1, p2, link, copy_from) + rest;
    assert(buf.subrange(0, 20) =~= node);
    assert(buf.subrange(20, 40) =~= p1);
    assert(buf.subrange(40, 60) =~= p2);
    assert(buf.subrange(60, 80) =~= link);
    match copy_from {
        Option::Some(c) => {
            lemma_be16_val(c.len() as u16);
            assert(buf.subrange(80, 82) =~= be16(c.len() as u16));
            assert(buf.subrange(82, 82 + c.len() as int) =~= c);
        },
        Option::None => {
            lemma_be16_val(0);
            assert(buf.subrange(80, 82) =~= be16(0));
        },
    }
}


/// The number a four-byte big-endian run encodes.
pub open spec fn be32_val(s: Seq<u8>) -> int {
    s[0] * 0x1000000 + s[1] * 0x10000 + s[2] * 256 + s[3]
}

/// The section header standing at a position of pack data, where the
/// buffer holds one whole: its name, its entry count, and its size.
pub open spec fn spec_header_at(buf: Seq<u8>, off: int) -> Option<(Seq<u8>, int, int)> {
    if off >= 0 && off + 2 <= buf.len() {
        let n = be16_val(buf.subrange(off, off + 2));
        if off + 2 + n + 4 <= buf.len() {
            Option::Some(
                (
                    buf.subrange(off + 2, off + 2 + n),
                    be32_val(buf.subrange(off + 2 + n, off + 2 + n + 4)),
                    2 + n + 4,
                ),
            )
        } else {
            Option::None
        }
    } else {
        Option::None
    }
}

/// The entry standing at a position of pack data, where the buffer holds
/// one whole: its node and its size.
pub open spec fn spec_entry_at(buf: Seq<u8>, off: int) -> Option<(Seq<u8>, int)> {
    if off >= 0 && off + 82 <= buf.len() {
        let clen = be16_val(buf.subrange(off + 80, off + 82));
        if clen == 0 || off + 82 + clen <= buf.len() {
            Option::Some((buf.subrange(off, off + 20), 82 + (if clen == 0 {
                0int
            } else {
                clen
            })))
        } else {
            Option::None
        }
    } else {
        Option::None
    }
}

/// The keys listed in pack data from a position on: each entry of each
/// section pairs the section's file name with the entry's node. A buffer
/// that ends mid-section ends the listing; a buffer that ends inside a
/// record is malformed and yields nothing.
pub open spec fn spec_pack_keys(
    buf: Seq<u8>,
    off: int,
    name: Seq<u8>,
    rem: int,
) -> Option<Seq<(Seq<u8>, Seq<u8>)>>
    decreases buf.len() - off,
{
    if off < 0 || off >= buf.len() {
        Option::Some(Seq::empty())
    } else if rem == 0 {
        match spec_header_at(buf, off) {
            Option::Some((hname, count, used)) => spec_pack_keys(
                buf,
                off + used,
                hname,
                count,
            ),
            Option::None => Option::None,
        }
    } else {
        match spec_entry_at(buf, off) {
            Option::Some((node, used)) => match spec_pack_keys(buf, off + used, name, rem - 1) {
                Option::Some(s) => Option::Some(seq![(name, node)] + s),
                Option::None => Option::None,
            },
            Option::None => Option::None,
        }
    }
}

/// Lists every key of a history pack: the version byte is checked, then
/// the sections are walked in order, pairing each entry's node with its
/// section's file name. A pack that ends inside a record is refused.
#[verifier::rlimit(60)]
pub fn read_pack_keys(buf: &Vec<u8>) -> (r: Result<Vec<(Vec<u8>, NodeHash)>, PackError>)
    ensures
        buf@.len() == 0 ==> (r matches Err(e) && e is ShortBuffer),
        buf@.len() >= 1 && buf@[0] != 0 && buf@[0] != 1 ==> (r matches Err(e) && e
            == PackError::InvalidVersion(buf@[0])),
        buf@.len() >= 1 && (buf@[0] == 0 || buf@[0] == 1) ==> ({
            &&& (r is Ok <==> spec_pack_keys(buf@, 1, Seq::empty(), 0) is Some)
            &&& (r matches Ok(keys) ==> (spec_pack_keys(buf@, 1, Seq::empty(), 0) matches Some(
                s,
            ) && keys@.len() == s.len() && forall|k: int| 0 <= k < s.len()
                ==> (#[trigger] keys@[k]).0@ == s[k].0 && keys@[k].1@ == s[k].1))
        }),
{
    proof {
        vstd::std_specs::vec::axiom_spec_len(buf);
    }
    if buf.len() == 0 {
        return Err(PackError::ShortBuffer);
    }
    if buf[0] != 0 && buf[0] != 1 {
        return Err(PackError::InvalidVersion(buf[0]));
    }
    let mut keys: Vec<(Vec<u8>, NodeHash)> = Vec::new();
    let mut off: usize = 1;
    let mut name: Vec<u8> = Vec::new();
    let mut rem: u32 = 0;
    let ghost target = spec_pack_keys(buf@, 1, Seq::empty(), 0);
    while off < buf.len()
        invariant
            1 <= off,
            buf@.len() >= 1,
            buf@[0] == 0 || buf@[0] == 1,
            target == spec_pack_keys(buf@, 1, Seq::empty(), 0),
            match spec_pack_keys(buf@, off as int, name@, rem as int) {
                Option::Some(s) => target matches Some(full) && full.len() == keys@.len()
                    + s.len() && (forall|k: int| 0 <= k < keys@.len() ==> (
                #[trigger] keys@[k]).0@ == full[k].0 && keys@[k].1@ == full[k].1) && (forall|
                    k: int|
                    0 <= k < s.len() ==> s[k] == full[keys@.len() + k]),
                Option::None => target is None,
            },
        decreases buf@.len() - off,
    {
        proof {
            vstd::std_specs::vec::axiom_spec_len(buf);
        }
        let ghost keys0 = keys@;
        if rem == 0 {
            let ghost pre = spec_pack_keys(buf@, off as int, name@, rem as int);
            let tail_start = off;
            let ghost whole = buf@;
            // Read a section header at the current offset.
            if buf.len() - off < 2 {
                proof {
                    assert(spec_header_at(buf@, off as int) is None);
                }
                return Err(PackError::ShortBuffer);
            }
            let n = read_u16_be(buf, off);
            proof {
                lemma_be16_val(n);
                assert(buf@.subrange(off as int, off + 2) == be16(n));
            }
            let name_len = n as usize;
            if buf.len() - off - 2 < name_len || buf.len() - off - 2 - name_len < 4 {
                proof {
                    assert(spec_header_at(buf@, off as int) is None);
                }
                return Err(PackError::ShortBuffer);
            }
            let new_name = copy_range(buf, off + 2, off + 2 + name_len);
            let count = read_u32_be(buf, off + 2 + name_len);
            proof {
                assert(spec_header_at(buf@, off as int) matches Some((hn, c, used)) && hn
                    == new_name@ && used == 2 + name_len + 4 && c == count) by {
                    assert(be32_val(buf@.subrange(
                        off + 2 + name_len as int,
                        off + 2 + name_len + 4,
                    )) == count);
                }
            }
            name = new_name;
            rem = count;
            off = off + 2 + name_len + 4;
            proof {
                assert(pre == spec_pack_keys(buf@, off as int, name@, rem as int));
            }
        } else {
            // Read one entry at the current offset.
            let ghost pre = spec_pack_keys(buf@, off as int, name@, rem as int);
            if buf.len() - off < 82 {
                proof {
                    assert(spec_entry_at(buf@, off as int) is None);
                }
                return Err(PackError::ShortBuffer);
            }
            let node = NodeHash::new(copy_range(buf, off, off + 20));
            let clen_raw = read_u16_be(buf, off + 80);
            proof {
                lemma_be16_val(clen_raw);
            }
            let clen = clen_raw as usize;
            if clen > 0 && buf.len() - off - 82 < clen {
                proof {
                    assert(spec_entry_at(buf@, off as int) is None);
                }
                return Err(PackError::ShortBuffer);
            }
            proof {
                assert(spec_entry_at(buf@, off as int) matches Some((nd, used)) && nd == node@
                    && used == 82 + (if clen == 0 {
                    0int
                } else {
                    clen as int
                }));
            }
            let ghost name0 = name@;
            let ghost rem0 = rem as int;
            let ghost nodev = node@;
            keys.push((crate::hash::copy_bytes(&name), node));
            rem = rem - 1;
            off = off + 82 + clen;
            proof {
                assert(keys@.len() == keys0.len() + 1);
                assert(keys@[keys0.len() as int].0@ == name0);
                assert(keys@[keys0.len() as int].1@ == nodev);
                assert(forall|k: int| 0 <= k < keys0.len() ==> keys@[k] == keys0[k]);
                let post = spec_pack_keys(buf@, off as int, name@, rem as int);
                assert(pre == (match post {
                    Option::Some(s2) => Option::Some(seq![(name0, nodev)] + s2),
                    Option::None => Option::None::<Seq<(Seq<u8>, Seq<u8>)>>,
                }));
                match post {
                    Option::Some(s2) => {
                        let s = seq![(name0, nodev)] + s2;
                        assert(pre == Option::Some(s));
                        assert(s[0] == (name0, nodev));
                        assert(s.len() == 1 + s2.len());
                        assert(forall|k: int| 0 <= k < s2.len() ==> s2[k] == s[k + 1]);
                    },
                    Option::None => {},
                }
            }
        }
    }
    proof {
        assert(spec_pack_keys(buf@, off as int, name@, rem as int) == Option::Some(
            Seq::<(Seq<u8>, Seq<u8>)>::empty(),
        ));
    }
    Ok(keys)
}


/// One key of the history store: a file's name and one version of it.
#[derive(Debug)]
pub struct PackKey {
    pub name: Vec<u8>,
    pub node: NodeHash,
}

impl View for PackKey {
    type V = (Seq<u8>, Seq<u8>);

    open spec fn view(&self) -> (Seq<u8>, Seq<u8>) {
        (self.name@, self.node@)
    }
}

impl PackKey {
    pub fn new(name: Vec<u8>, node: NodeHash) -> (r: PackKey)
        ensures
            r@ == (name@, node@),
    {
        PackKey { name, node }
    }

    pub fn dup(&self) -> (r: PackKey)
        ensures
            r@ == self@,
    {
        PackKey { name: crate::hash::copy_bytes(&self.name), node: self.node.dup() }
    }

    pub fn eq_key(&self, other: &PackKey) -> (r: bool)
        ensures
            r == (self@ == other@),
    {
        crate::hash::bytes_eq(&self.name, &other.name) && self.node.eq_hash(&other.node)
    }
}

/// What the history store records for one key: its two parents and the
/// changeset that introduced it.
#[derive(Debug)]
pub struct NodeInfo {
    pub p1: PackKey,
    pub p2: PackKey,
    pub linknode: NodeHash,
}

/// The shape of a `NodeInfo` as seen by specifications.
pub struct NodeInfoVw {
    pub p1: (Seq<u8>, Seq<u8>),
    pub p2: (Seq<u8>, Seq<u8>),
    pub linknode: Seq<u8>,
}

impl View for NodeInfo {
    type V = NodeInfoVw;

    open spec fn view(&self) -> NodeInfoVw {
        NodeInfoVw { p1: self.p1@, p2: self.p2@, linknode: self.linknode@ }
    }
}

impl NodeInfo {
    pub fn dup(&self) -> (r: NodeInfo)
        ensures
            r@ == self@,
    {
        NodeInfo { p1: self.p1.dup(), p2: self.p2.dup(), linknode: self.linknode.dup() }
    }
}

/// A history pack being built: the in-memory index of every record added
/// so far, keyed by (file name, node), each key held once. Writing the
/// index and the pack durably is the persistence layer's part.
#[derive(Debug)]
pub struct MutableHistoryPack {
    pub version: HistoryPackVersion,
    pub mem_index: Vec<(PackKey, NodeInfo)>,
}

/// Each key is held at most once.
pub open spec fn index_wf(p: MutableHistoryPack) -> bool {
    forall|i: int, j: int| 0 <= i < j < p.mem_index@.len() ==> (#[trigger] p.mem_index@[i].0@)
        != (#[trigger] p.mem_index@[j].0@)
}

/// Whether the index holds this key.
pub open spec fn index_has(p: MutableHistoryPack, k: (Seq<u8>, Seq<u8>)) -> bool {
    exists|i: int| 0 <= i < p.mem_index@.len() && (#[trigger] p.mem_index@[i].0@) == k
}

/// The record the index holds for this key.
pub open spec fn index_at(p: MutableHistoryPack, k: (Seq<u8>, Seq<u8>)) -> NodeInfoVw {
    p.mem_index@[choose|i: int|
        0 <= i < p.mem_index@.len() && (#[trigger] p.mem_index@[i].0@) == k].1@
}

/// After replacing the unique entry of a key, lookups behave as a map
/// update.
proof fn lemma_index_update(
    pre: MutableHistoryPack,
    post: MutableHistoryPack,
    i: int,
    kv: (Seq<u8>, Seq<u8>),
    iv: NodeInfoVw,
)
    requires
        index_wf(pre),
        0 <= i < pre.mem_index@.len(),
        post.mem_index@.len() == pre.mem_index@.len(),
        forall|k: int| 0 <= k < pre.mem_index@.len() && k != i ==> post.mem_index@[k]
            == pre.mem_index@[k],
        post.mem_index@[i].0@ == kv,
        post.mem_index@[i].1@ == iv,
        pre.mem_index@[i].0@ == kv,
    ensures
        index_wf(post),
        forall|k: (Seq<u8>, Seq<u8>)| index_has(post, k) <==> (index_has(pre, k) || k == kv),
        index_at(post, kv) == iv,
        forall|k: (Seq<u8>, Seq<u8>)| k != kv && index_has(pre, k) ==> index_at(post, k)
            == index_at(pre, k),
{
    assert forall|a: int, b: int| 0 <= a < b < post.mem_index@.len() implies (
    #[trigger] post.mem_index@[a].0@) != (#[trigger] post.mem_index@[b].0@) by {
        assert(post.mem_index@[a].0@ == pre.mem_index@[a].0@ || a == i);
        assert(post.mem_index@[b].0@ == pre.mem_index@[b].0@ || b == i);
    }
    assert forall|k: (Seq<u8>, Seq<u8>)| index_has(post, k) implies (index_has(pre, k) || k
        == kv) by {
        let m = choose|m: int| 0 <= m < post.mem_index@.len() && (#[trigger] post.mem_index@[m].0@)
            == k;
        if m != i {
            assert(pre.mem_index@[m].0@ == k);
        }
    }
    assert forall|k: (Seq<u8>, Seq<u8>)| index_has(pre, k) || k == kv implies index_has(
        post,
        k,
    ) by {
        if k == kv {
            assert(post.mem_index@[i].0@ == k);
        } else {
            let m = choose|m: int| 0 <= m < pre.mem_index@.len()
                && (#[trigger] pre.mem_index@[m].0@) == k;
            assert(m != i);
            assert(post.mem_index@[m].0@ == k);
        }
    }
    assert(post.mem_index@[i].0@ == kv);
    let j = choose|m: int| 0 <= m < post.mem_index@.len() && (#[trigger] post.mem_index@[m].0@)
        == kv;
    assert(j == i);
    assert forall|k: (Seq<u8>, Seq<u8>)| k != kv && index_has(pre, k) implies index_at(post, k)
        == index_at(pre, k) by {
        let a = choose|m: int| 0 <= m < pre.mem_index@.len() && (#[trigger] pre.mem_index@[m].0@)
            == k;
        assert(a != i);
        assert(post.mem_index@[a].0@ == k);
        let b = choose|m: int| 0 <= m < post.mem_index@.len()
            && (#[trigger] post.mem_index@[m].0@) == k;
        assert(b != i);
        assert(pre.mem_index@[b].0@ == k);
        assert(a == b);
    }
}

/// Appending a key that is absent keeps the index unique and adds it.
proof fn lemma_index_push(
    pre: MutableHistoryPack,
    post: MutableHistoryPack,
    kv: (Seq<u8>, Seq<u8>),
    iv: NodeInfoVw,
)
    requires
        index_wf(pre),
        !index_has(pre, kv),
        post.mem_index@.len() == pre.mem_index@.len() + 1,
        forall|k: int| 0 <= k < pre.mem_index@.len() ==> post.mem_index@[k] == pre.mem_index@[k],
        post.mem_index@.last().0@ == kv,
        post.mem_index@.last().1@ == iv,
    ensures
        index_wf(post),
        forall|k: (Seq<u8>, Seq<u8>)| index_has(post, k) <==> (index_has(pre, k) || k == kv),
        index_at(post, kv) == iv,
        forall|k: (Seq<u8>, Seq<u8>)| k != kv && index_has(pre, k) ==> index_at(post, k)
            == index_at(pre, k),
{
    let n = pre.mem_index@.len() as int;
    assert forall|a: int, b: int| 0 <= a < b < post.mem_index@.len() implies (
    #[trigger] post.mem_index@[a].0@) != (#[trigger] post.mem_index@[b].0@) by {
        if b == n {
            assert(post.mem_index@[a] == pre.mem_index@[a]);
            if pre.mem_index@[a].0@ == kv {
                assert(index_has(pre, kv));
            }
        } else {
            assert(post.mem_index@[a] == pre.mem_index@[a]);
            assert(post.mem_index@[b] == pre.mem_index@[b]);
        }
    }
    assert(post.mem_index@[n].0@ == kv);
    assert forall|k: (Seq<u8>, Seq<u8>)| index_has(post, k) implies (index_has(pre, k) || k
        == kv) by {
        let m = choose|m: int| 0 <= m < post.mem_index@.len() && (#[trigger] post.mem_index@[m].0@)
            == k;
        if m < n {
            assert(pre.mem_index@[m].0@ == k);
        }
    }
    let j = choose|m: int| 0 <= m < post.mem_index@.len() && (#[trigger] post.mem_index@[m].0@)
        == kv;
    assert(j == n) by {
        if j < n {
            assert(pre.mem_index@[j].0@ == kv);
        }
    }
    assert forall|k: (Seq<u8>, Seq<u8>)| k != kv && index_has(pre, k) implies index_at(post, k)
        == index_at(pre, k) by {
        let a = choose|m: int| 0 <= m < pre.mem_index@.len() && (#[trigger] pre.mem_index@[m].0@)
            == k;
        assert(post.mem_index@[a].0@ == k);
        let b = choose|m: int| 0 <= m < post.mem_index@.len()
            && (#[trigger] post.mem_index@[m].0@) == k;
        assert(b != n);
        assert(pre.mem_index@[b].0@ == k);
        assert(a == b);
    }
}

/// The keys of a lookup list that the index does not hold, in lookup
/// order.
pub open spec fn missing_of(
    p: MutableHistoryPack,
    ks: Seq<PackKey>,
) -> Seq<(Seq<u8>, Seq<u8>)>
    decreases ks.len(),
{
    if ks.len() == 0 {
        Seq::empty()
    } else if index_has(p, ks.last()@) {
        missing_of(p, ks.drop_last())
    } else {
        missing_of(p, ks.drop_last()).push(ks.last()@)
    }
}

impl MutableHistoryPack {
    /// A fresh pack under construction. Where it will be persisted is the
    /// persistence layer's concern, not the index's.
    pub fn new(version: HistoryPackVersion) -> (r: MutableHistoryPack)
        ensures
            index_wf(r),
            r.mem_index@.len() == 0,
            r.version == version,
    {
        MutableHistoryPack { version, mem_index: Vec::new() }
    }

    /// Records one key's node information. Adding the same key again
    /// replaces the earlier record.
    pub fn add(&mut self, key: &PackKey, info: &NodeInfo)
        requires
            index_wf(*old(self)),
        ensures
            index_wf(*final(self)),
            forall|k: (Seq<u8>, Seq<u8>)| index_has(*final(self), k) <==> (index_has(
                *old(self),
                k,
            ) || k == key@),
            index_at(*final(self), key@) == info@,
            forall|k: (Seq<u8>, Seq<u8>)| k != key@ && index_has(*old(self), k) ==> index_at(
                *final(self),
                k,
            ) == index_at(*old(self), k),
            final(self).version == old(self).version,
    {
        let ghost kv = key@;
        let ghost iv = info@;
        let mut i: usize = 0;
        while i < self.mem_index.len()
            invariant
                0 <= i <= self.mem_index@.len(),
                *self == *old(self),
                index_wf(*self),
                kv == key@,
                iv == info@,
                forall|k: int| 0 <= k < i ==> (#[trigger] self.mem_index@[k].0@) != kv,
            decreases self.mem_index@.len() - i,
        {
            if self.mem_index[i].0.eq_key(key) {
                let ghost pre = *self;
                self.mem_index.set(i, (key.dup(), info.dup()));
                proof {
                    lemma_index_update(pre, *self, i as int, kv, iv);
                }
                return;
            }
            i = i + 1;
        }
        proof {
            assert(!index_has(*self, kv));
        }
        let ghost pre = *self;
        self.mem_index.push((key.dup(), info.dup()));
        proof {
            lemma_index_push(pre, *self, kv, iv);
        }
    }

    /// The node information recorded for a key; a key never added is not
    /// in the index.
    pub fn get_node_info(&self, key: &PackKey) -> (r: Result<NodeInfo, PackError>)
        requires
            index_wf(*self),
        ensures
            r is Ok <==> index_has(*self, key@),
            r matches Ok(info) ==> info@ == index_at(*self, key@),
            r matches Err(e) ==> e is NotInIndex,
    {
        let mut i: usize = 0;
        while i < self.mem_index.len()
            invariant
                0 <= i <= self.mem_index@.len(),
                index_wf(*self),
                forall|k: int| 0 <= k < i ==> (#[trigger] self.mem_index@[k].0@) != key@,
            decreases self.mem_index@.len() - i,
        {
            if self.mem_index[i].0.eq_key(key) {
                proof {
                    let j = choose|j: int| 0 <= j < self.mem_index@.len()
                        && (#[trigger] self.mem_index@[j].0@) == key@;
                    assert(j == i);
                }
                return Ok(self.mem_index[i].1.dup());
            }
            i = i + 1;
        }
        Err(PackError::NotInIndex)
    }

    /// The keys of the lookup list that this index does not hold, in
    /// lookup order.
    pub fn get_missing(&self, keys: &Vec<PackKey>) -> (r: Vec<PackKey>)
        ensures
            r@.len() == missing_of(*self, keys@).len(),
            forall|k: int| 0 <= k < r@.len() ==> (#[trigger] r@[k])@ == missing_of(
                *self,
                keys@,
            )[k],
    {
        let mut r: Vec<PackKey> = Vec::new();
        let mut i: usize = 0;
        proof {
            assert(missing_of(*self, keys@.take(0)) =~= Seq::<(Seq<u8>, Seq<u8>)>::empty());
        }
        while i < keys.len()
            invariant
                0 <= i <= keys@.len(),
                r@.len() == missing_of(*self, keys@.take(i as int)).len(),
                forall|k: int| 0 <= k < r@.len() ==> (#[trigger] r@[k])@ == missing_of(
                    *self,
                    keys@.take(i as int),
                )[k],
            decreases keys@.len() - i,
        {
            let key = &keys[i];
            let mut found = false;
            let mut j: usize = 0;
            while j < self.mem_index.len()
                invariant_except_break
                    0 <= j <= self.mem_index@.len(),
                    !found,
                    forall|k: int| 0 <= k < j ==> (#[trigger] self.mem_index@[k].0@) != key@,
                invariant
                    0 <= j <= self.mem_index@.len(),
                ensures
                    found == index_has(*self, key@),
                decreases self.mem_index@.len() - j,
            {
                if self.mem_index[j].0.eq_key(key) {
                    found = true;
                    proof {
                        assert(self.mem_index@[j as int].0@ == key@);
                    }
                    break;
                }
                j = j + 1;
            }
            let ghost iprev = i as int;
            if !found {
                r.push(key.dup());
            }
            i = i + 1;
            proof {
                assert(keys@.take(i as int).last() == keys@[iprev]);
                assert(keys@.take(i as int).drop_last() =~= keys@.take(iprev));
                assert(key@ == keys@[iprev]@);
            }
        }
        proof {
            assert(keys@.take(keys@.len() as int) =~= keys@);
        }
        r
    }
}


impl MutableHistoryPack {
    /// The wire entry one index record becomes: a record whose first
    /// parent is non-null and lives under another file name carries that
    /// name as its copy source; every other record carries none.
    pub fn entry_for(key: &PackKey, info: &NodeInfo) -> (r: HistoryEntry)
        ensures
            r.node@ == key@.1,
            r.p1@ == info@.p1.1,
            r.p2@ == info@.p2.1,
            r.link_node@ == info@.linknode,
            (info@.p1.1 != null_hash_seq() && info@.p1.0 != key@.0) ==> (r.copy_from matches Some(
                c,
            ) && c@ == info@.p1.0),
            !(info@.p1.1 != null_hash_seq() && info@.p1.0 != key@.0) ==> r.copy_from is None,
    {
        let copy_from = if !info.p1.node.is_null() && !crate::hash::bytes_eq(
            &info.p1.name,
            &key.name,
        ) {
            Some(crate::hash::copy_bytes(&info.p1.name))
        } else {
            None
        };
        HistoryEntry {
            node: key.node.dup(),
            p1: info.p1.node.dup(),
            p2: info.p2.node.dup(),
            link_node: info.linknode.dup(),
            copy_from,
        }
    }
}

/// The byte form of one wire entry.
pub open spec fn entry_bytes_of(e: HistoryEntry) -> Seq<u8> {
    entry_bytes(
        e.node@,
        e.p1@,
        e.p2@,
        e.link_node@,
        match e.copy_from {
            Option::Some(ref c) => Option::Some(c@),
            Option::None => Option::None,
        },
    )
}

/// The byte form of a run of entries, in order.
pub open spec fn entries_bytes(es: Seq<HistoryEntry>) -> Seq<u8>
    decreases es.len(),
{
    if es.len() == 0 {
        Seq::empty()
    } else {
        entries_bytes(es.drop_last()) + entry_bytes_of(es.last())
    }
}

/// The byte form of a run of sections: each a header followed by its
/// entries.
pub open spec fn sections_bytes(ss: Seq<(Vec<u8>, Vec<HistoryEntry>)>) -> Seq<u8>
    decreases ss.len(),
{
    if ss.len() == 0 {
        Seq::empty()
    } else {
        sections_bytes(ss.drop_last()) + header_bytes(
            ss.last().0@,
            ss.last().1@.len() as u32,
        ) + entries_bytes(ss.last().1@)
    }
}

/// The header byte of a version.
pub open spec fn version_byte(version: HistoryPackVersion) -> u8 {
    match version {
        HistoryPackVersion::Zero => 0u8,
        HistoryPackVersion::One => 1u8,
    }
}

/// The byte form of a whole pack: the version byte, then the sections.
pub open spec fn pack_bytes(
    version: HistoryPackVersion,
    ss: Seq<(Vec<u8>, Vec<HistoryEntry>)>,
) -> Seq<u8> {
    seq![version_byte(version)] + sections_bytes(ss)
}

/// An entry whose fields fit the wire format.
pub open spec fn entry_wire_wf(e: HistoryEntry) -> bool {
    &&& hash_wf(e.node@)
    &&& hash_wf(e.p1@)
    &&& hash_wf(e.p2@)
    &&& hash_wf(e.link_node@)
    &&& (e.copy_from matches Some(c) ==> 1 <= c@.len() <= u16::MAX)
}

/// A section whose name and entries fit the wire format.
pub open spec fn section_wire_wf(name: Seq<u8>, es: Seq<HistoryEntry>) -> bool {
    &&& name.len() <= u16::MAX
    &&& es.len() <= u32::MAX
    &&& forall|i: int| 0 <= i < es.len() ==> entry_wire_wf(#[trigger] es[i])
}

/// Assembles a pack's bytes deterministically from its ordered sections:
/// the version byte, then for each section its header and its entries in
/// the order given. The keys listed by the result are exactly the
/// sections' own, in order.
pub fn assemble_pack(
    version: HistoryPackVersion,
    sections: &Vec<(Vec<u8>, Vec<HistoryEntry>)>,
) -> (r: Vec<u8>)
    requires
        forall|i: int| 0 <= i < sections@.len() ==> section_wire_wf(
            (#[trigger] sections@[i]).0@,
            sections@[i].1@,
        ),
    ensures
        r@ == pack_bytes(version, sections@),
{
    let mut out: Vec<u8> = Vec::new();
    match version {
        HistoryPackVersion::Zero => out.push(0),
        HistoryPackVersion::One => out.push(1),
    }
    proof {
        assert(sections@.take(0) =~= Seq::<(Vec<u8>, Vec<HistoryEntry>)>::empty());
        assert(out@ =~= pack_bytes(version, sections@.take(0)));
    }
    let mut i: usize = 0;
    while i < sections.len()
        invariant
            0 <= i <= sections@.len(),
            forall|k: int| 0 <= k < sections@.len() ==> section_wire_wf(
                (#[trigger] sections@[k]).0@,
                sections@[k].1@,
            ),
            out@ == pack_bytes(version, sections@.take(i as int)),
        decreases sections@.len() - i,
    {
        let name = &sections[i].0;
        let entries = &sections[i].1;
        let header = FileSectionHeader {
            file_name: crate::hash::copy_bytes(name),
            count: entries.len() as u32,
        };
        let ghost base = out@;
        header.write(&mut out);
        proof {
            assert(entries@.take(0) =~= Seq::<HistoryEntry>::empty());
        }
        let mut j: usize = 0;
        while j < entries.len()
            invariant
                0 <= j <= entries@.len(),
                0 <= i < sections@.len(),
                entries@ == sections@[i as int].1@,
                forall|k: int| 0 <= k < sections@.len() ==> section_wire_wf(
                    (#[trigger] sections@[k]).0@,
                    sections@[k].1@,
                ),
                out@ == base + header_bytes(
                    sections@[i as int].0@,
                    sections@[i as int].1@.len() as u32,
                ) + entries_bytes(entries@.take(j as int)),
            decreases entries@.len() - j,
        {
            let e = &entries[j];
            proof {
                assert(entry_wire_wf(entries@[j as int]));
            }
            HistoryEntry::write(&mut out, &e.node, &e.p1, &e.p2, &e.link_node, &e.copy_from);
            j = j + 1;
            proof {
                assert(entries@.take(j as int).last() == entries@[j - 1]);
                assert(entries@.take(j as int).drop_last() =~= entries@.take(j - 1));
                assert(out@ =~= base + header_bytes(
                    sections@[i as int].0@,
                    sections@[i as int].1@.len() as u32,
                ) + entries_bytes(entries@.take(j as int)));
            }
        }
        i = i + 1;
        proof {
            assert(entries@.take(entries@.len() as int) =~= entries@);
            assert(sections@.take(i as int).last() == sections@[i - 1]);
            assert(sections@.take(i as int).drop_last() =~= sections@.take(i - 1));
            assert(out@ =~= pack_bytes(version, sections@.take(i as int)));
        }
    }
    proof {
        assert(sections@.take(sections@.len() as int) =~= sections@);
    }
    out
}


/// The lowercase hex form of the SHA-1 digest of some bytes: a function
/// of the bytes alone, and the name a persisted pack is stored under.
pub uninterp spec fn sha1_hex_of(bytes: Seq<u8>) -> Seq<u8>;

/// Relies on crypto::sha1::Sha1 through crypto::digest::Digest::input and
/// Digest::result_str: the digest is a function of the input bytes alone,
/// and result_str renders its twenty bytes as forty lowercase hex
/// characters.
#[verifier::external_body]
fn sha1_hex(bytes: &Vec<u8>) -> (r: Vec<u8>)
    ensures
        r@ == sha1_hex_of(bytes@),
        r@.len() == 40,
        forall|i: int| 0 <= i < r@.len() ==> crate::filemeta::is_hex_digit(#[trigger] r@[i]),
{
    let mut hasher = crypto::sha1::Sha1::new();
    crypto::digest::Digest::input(&mut hasher, bytes.as_slice());
    crypto::digest::Digest::result_str(&mut hasher).into_bytes()
}

/// Assembles a pack's bytes together with the digest name they are
/// stored under: the bytes are pinned by the wire form of the ordered
/// sections, the name as the hex digest of exactly those bytes.
pub fn assemble_named_pack(
    version: HistoryPackVersion,
    sections: &Vec<(Vec<u8>, Vec<HistoryEntry>)>,
) -> (r: (Vec<u8>, Vec<u8>))
    requires
        forall|i: int| 0 <= i < sections@.len() ==> section_wire_wf(
            (#[trigger] sections@[i]).0@,
            sections@[i].1@,
        ),
    ensures
        r.0@ == pack_bytes(version, sections@),
        r.1@ == sha1_hex_of(pack_bytes(version, sections@)),
        r.1@.len() == 40,
        forall|i: int| 0 <= i < r.1@.len() ==> crate::filemeta::is_hex_digit(
            #[trigger] r.1@[i],
        ),
{
    let bytes = assemble_pack(version, sections);
    let name = sha1_hex(&bytes);
    (bytes, name)
}

/// Whether a run of records holds this key.
pub open spec fn entries_has_key(s: Seq<(PackKey, NodeInfo)>, k: (Seq<u8>, Seq<u8>)) -> bool {
    exists|i: int| 0 <= i < s.len() && (#[trigger] s[i].0@) == k
}

/// Records with no key held twice.
pub open spec fn entries_keys_unique(s: Seq<(PackKey, NodeInfo)>) -> bool {
    forall|i: int, j: int| 0 <= i < j < s.len() ==> (#[trigger] s[i].0@) != (#[trigger] s[j].0@)
}

/// Every record of `out` is one of `src`'s, key and information alike.
pub open spec fn entries_drawn_from(
    out: Seq<(PackKey, NodeInfo)>,
    src: Seq<(PackKey, NodeInfo)>,
) -> bool {
    forall|m: int| 0 <= m < out.len() ==> exists|j: int|
        0 <= j < src.len() && (#[trigger] out[m]).0@ == src[j].0@ && out[m].1@ == src[j].1@
}

/// Finds the record holding this key.
fn find_entry_index(
    node_map: &Vec<(PackKey, NodeInfo)>,
    key: &PackKey,
) -> (r: Option<usize>)
    ensures
        r is Some <==> entries_has_key(node_map@, key@),
        r matches Some(j) ==> j < node_map@.len() && node_map@[j as int].0@ == key@,
{
    let mut i: usize = 0;
    while i < node_map.len()
        invariant
            0 <= i <= node_map@.len(),
            forall|k: int| 0 <= k < i ==> (#[trigger] node_map@[k].0@) != key@,
        decreases node_map@.len() - i,
    {
        if node_map[i].0.eq_key(key) {
            proof {
                assert(node_map@[i as int].0@ == key@);
            }
            return Some(i);
        }
        i = i + 1;
    }
    None
}

/// A record whose held parents are all already scheduled: the next one
/// the schedule may take.
pub open spec fn ready_at(s: Seq<(PackKey, NodeInfo)>, em: Seq<bool>, c: int) -> bool {
    &&& 0 <= c < s.len()
    &&& !em[c]
    &&& forall|j: int| 0 <= j < s.len() && (#[trigger] s[j].0@) == s[c].1@.p1 ==> em[j]
    &&& forall|j: int| 0 <= j < s.len() && (#[trigger] s[j].0@) == s[c].1@.p2 ==> em[j]
}

/// The first ready record at or after `c`.
pub open spec fn first_ready_from(s: Seq<(PackKey, NodeInfo)>, em: Seq<bool>, c: int) -> Option<
    int,
>
    decreases s.len() - c,
{
    if c < 0 || c >= s.len() {
        Option::None
    } else if ready_at(s, em, c) {
        Option::Some(c)
    } else {
        first_ready_from(s, em, c + 1)
    }
}

/// The record order, newest first: the lowest-index ready record is
/// scheduled, again and again, each newly scheduled one standing after
/// all scheduled later. `None` when the schedule stalls first.
pub open spec fn scan_schedule(
    s: Seq<(PackKey, NodeInfo)>,
    em: Seq<bool>,
    fuel: nat,
) -> Option<Seq<int>>
    decreases fuel,
{
    if fuel == 0 {
        Option::Some(Seq::empty())
    } else {
        match first_ready_from(s, em, 0) {
            Option::Some(c) => match scan_schedule(s, em.update(c, true), (fuel - 1) as nat) {
                Option::Some(rest) => Option::Some(rest.push(c)),
                Option::None => Option::None,
            },
            Option::None => Option::None,
        }
    }
}

/// A set of records that blocks every schedule: non-empty, and every
/// member holds at least one parent whose key is another member's.
#[verifier::opaque]
pub open spec fn blocked_set(s: Seq<(PackKey, NodeInfo)>, set: Set<int>) -> bool {
    &&& forall|i: int| #[trigger] set.contains(i) ==> 0 <= i < s.len()
    &&& exists|i: int| set.contains(i)
    &&& forall|i: int| #[trigger] set.contains(i) ==> exists|j: int|
        set.contains(j) && ((s[j].0@ == s[i].1@.p1) || (s[j].0@ == s[i].1@.p2))
}

/// Whether the records' parent links close a cycle: exactly when some
/// set of records blocks every schedule.
pub open spec fn has_cycle(s: Seq<(PackKey, NodeInfo)>) -> bool {
    exists|set: Set<int>| blocked_set(s, set)
}

/// How many records are scheduled.
pub open spec fn count_true(em: Seq<bool>) -> nat
    decreases em.len(),
{
    if em.len() == 0 {
        0
    } else {
        count_true(em.drop_last()) + (if em.last() {
            1nat
        } else {
            0nat
        })
    }
}

proof fn lemma_count_true_zero(em: Seq<bool>)
    requires
        forall|k: int| 0 <= k < em.len() ==> !(#[trigger] em[k]),
    ensures
        count_true(em) == 0,
    decreases em.len(),
{
    if em.len() > 0 {
        lemma_count_true_zero(em.drop_last());
    }
}

proof fn lemma_count_true_le(em: Seq<bool>)
    ensures
        count_true(em) <= em.len(),
    decreases em.len(),
{
    if em.len() > 0 {
        lemma_count_true_le(em.drop_last());
    }
}

/// Scheduling one more record raises the count by exactly one.
proof fn lemma_count_true_update(em: Seq<bool>, i: int)
    requires
        0 <= i < em.len(),
        !em[i],
    ensures
        count_true(em.update(i, true)) == count_true(em) + 1,
    decreases em.len(),
{
    let t = em.update(i, true);
    if i == em.len() - 1 {
        assert(t.drop_last() =~= em.drop_last());
    } else {
        assert(t.drop_last() =~= em.drop_last().update(i, true));
        lemma_count_true_update(em.drop_last(), i);
        assert(t.last() == em.last());
    }
}

/// Fewer scheduled than records leaves one unscheduled.
proof fn lemma_count_true_some_false(em: Seq<bool>)
    requires
        count_true(em) < em.len(),
    ensures
        exists|i: int| 0 <= i < em.len() && !em[i],
    decreases em.len(),
{
    if em.len() > 0 {
        if em.last() {
            lemma_count_true_le(em.drop_last());
            lemma_count_true_some_false(em.drop_last());
            let i = choose|i: int| 0 <= i < em.drop_last().len() && !em.drop_last()[i];
            assert(!em[i]);
        } else {
            assert(!em[em.len() - 1]);
        }
    }
}

/// Scheduled records all placed: none left over.
proof fn lemma_count_true_full(em: Seq<bool>)
    requires
        count_true(em) == em.len(),
    ensures
        forall|i: int| 0 <= i < em.len() ==> em[i],
    decreases em.len(),
{
    if em.len() > 0 {
        lemma_count_true_le(em.drop_last());
        lemma_count_true_full(em.drop_last());
        assert(em.last());
        assert forall|i: int| 0 <= i < em.len() implies em[i] by {
            if i < em.len() - 1 {
                assert(em.drop_last()[i]);
            }
        }
    }
}

/// Scanning up to the first ready record resolves the search.
proof fn lemma_first_ready_scan(s: Seq<(PackKey, NodeInfo)>, em: Seq<bool>, c: int)
    requires
        0 <= c <= s.len(),
        forall|k: int| 0 <= k < c ==> !ready_at(s, em, k),
    ensures
        first_ready_from(s, em, 0) == first_ready_from(s, em, c),
    decreases c,
{
    if c > 0 {
        lemma_first_ready_scan(s, em, c - 1);
    }
}

/// Whether some blocked-set member sits at this place of the order.
pub open spec fn holds_member(
    s: Seq<(PackKey, NodeInfo)>,
    set: Set<int>,
    out: Seq<(PackKey, NodeInfo)>,
    pos: int,
) -> bool {
    exists|i: int| set.contains(i) && out[pos].0@ == s[i].0@
}

/// An order that stands every record before its held parents.
#[verifier::opaque]
pub open spec fn parents_later(s: Seq<(PackKey, NodeInfo)>, out: Seq<(PackKey, NodeInfo)>) -> bool {
    &&& forall|p: int| 0 <= p < out.len() ==> (entries_has_key(s, (#[trigger] out[p]).1@.p1)
        ==> exists|p2: int| p < p2 < out.len() && (#[trigger] out[p2].0@) == out[p].1@.p1)
    &&& forall|p: int| 0 <= p < out.len() ==> (entries_has_key(s, (#[trigger] out[p]).1@.p2)
        ==> exists|p2: int| p < p2 < out.len() && (#[trigger] out[p2].0@) == out[p].1@.p2)
}

/// An order that puts every record before its held parents cannot place
/// any member of a blocked set: from a placed member, walking a parent
/// that is again a member would have to move later forever.
proof fn lemma_blocked_unplaced_at(
    s: Seq<(PackKey, NodeInfo)>,
    set: Set<int>,
    out: Seq<(PackKey, NodeInfo)>,
    pos: int,
)
    requires
        entries_keys_unique(s),
        blocked_set(s, set),
        entries_drawn_from(out, s),
        parents_later(s, out),
        0 <= pos < out.len(),
    ensures
        !holds_member(s, set, out, pos),
    decreases out.len() - pos,
{
    if holds_member(s, set, out, pos) {
        let i = choose|i: int| set.contains(i) && out[pos].0@ == s[i].0@;
        assert(0 <= i < s.len()) by {
            reveal(blocked_set);
        }
        let j0 = choose|j: int| 0 <= j < s.len() && (#[trigger] out[pos]).0@ == s[j].0@
            && out[pos].1@ == s[j].1@;
        assert(j0 == i);
        assert(exists|j: int| set.contains(j) && ((s[j].0@ == s[i].1@.p1) || (s[j].0@
            == s[i].1@.p2))) by {
            reveal(blocked_set);
        }
        let p = choose|j: int| set.contains(j) && ((s[j].0@ == s[i].1@.p1) || (s[j].0@
            == s[i].1@.p2));
        assert(0 <= p < s.len()) by {
            reveal(blocked_set);
        }
        if s[p].0@ == s[i].1@.p1 {
            assert(entries_has_key(s, out[pos].1@.p1));
            assert(exists|p2: int| pos < p2 < out.len() && (#[trigger] out[p2].0@)
                == out[pos].1@.p1) by {
                reveal(parents_later);
            }
            let pos2 = choose|p2: int| pos < p2 < out.len() && (#[trigger] out[p2].0@)
                == out[pos].1@.p1;
            lemma_blocked_unplaced_at(s, set, out, pos2);
            assert(holds_member(s, set, out, pos2));
        } else {
            assert(entries_has_key(s, out[pos].1@.p2));
            assert(exists|p2: int| pos < p2 < out.len() && (#[trigger] out[p2].0@)
                == out[pos].1@.p2) by {
                reveal(parents_later);
            }
            let pos2 = choose|p2: int| pos < p2 < out.len() && (#[trigger] out[p2].0@)
                == out[pos].1@.p2;
            lemma_blocked_unplaced_at(s, set, out, pos2);
            assert(holds_member(s, set, out, pos2));
        }
    }
}

/// Sorts the records into newest-first topological order. The order is
/// pinned completely: the schedule repeatedly takes the lowest-index
/// record whose held parents are all already scheduled, and each newly
/// scheduled record stands after every record scheduled later, so the
/// result — and everything assembled from it — is a function of the
/// records alone. Null parents are never held, so they constrain
/// nothing. The sort succeeds exactly when no set of records blocks the
/// schedule by holding one another as parents; such a cycle is reported
/// rather than an incomplete ordering.
#[verifier::rlimit(100)]
pub fn topo_sort(node_map: &Vec<(PackKey, NodeInfo)>) -> (r: Result<
    Vec<(PackKey, NodeInfo)>,
    PackError,
>)
    requires
        entries_keys_unique(node_map@),
    ensures
        r is Ok <==> !has_cycle(node_map@),
        r matches Ok(out) ==> ({
            &&& out@.len() == node_map@.len()
            &&& entries_drawn_from(out@, node_map@)
            &&& forall|a: int, b: int| 0 <= a < b < out@.len() ==> (#[trigger] out@[a].0@)
                != (#[trigger] out@[b].0@)
            &&& forall|m: int| 0 <= m < out@.len() ==> (entries_has_key(
                node_map@,
                (#[trigger] out@[m]).1@.p1,
            ) ==> exists|m2: int| m < m2 < out@.len() && (#[trigger] out@[m2].0@)
                == out@[m].1@.p1)
            &&& forall|m: int| 0 <= m < out@.len() ==> (entries_has_key(
                node_map@,
                (#[trigger] out@[m]).1@.p2,
            ) ==> exists|m2: int| m < m2 < out@.len() && (#[trigger] out@[m2].0@)
                == out@[m].1@.p2)
            &&& (scan_schedule(
                node_map@,
                Seq::new(node_map@.len(), |k: int| false),
                node_map@.len(),
            ) matches Some(sched) && sched.len() == out@.len() && (forall|m: int|
                0 <= m < out@.len() ==> 0 <= (#[trigger] sched[m]) < node_map@.len()
                    && out@[m].0@ == node_map@[sched[m]].0@ && out@[m].1@
                    == node_map@[sched[m]].1@))
        }),
        r matches Err(e) ==> e is CyclicHistory,
{
    let n = node_map.len();
    let mut emitted: Vec<bool> = Vec::new();
    let mut t: usize = 0;
    while t < n
        invariant
            0 <= t <= n,
            emitted@.len() == t,
            forall|k: int| 0 <= k < t ==> !(#[trigger] emitted@[k]),
        decreases n - t,
    {
        emitted.push(false);
        t = t + 1;
    }
    proof {
        assert(emitted@ =~= Seq::new(node_map@.len(), |k: int| false));
        assert(count_true(emitted@) == 0) by {
            lemma_count_true_zero(emitted@);
        }
    }
    let ghost target = scan_schedule(node_map@, emitted@, n as nat);
    let mut out: Vec<(PackKey, NodeInfo)> = Vec::new();
    while out.len() < n
        invariant
            n == node_map@.len(),
            entries_keys_unique(node_map@),
            emitted@.len() == n,
            out@.len() <= n,
            count_true(emitted@) == out@.len(),
            target == scan_schedule(node_map@, Seq::new(node_map@.len(), |k: int| false), n as nat),
            forall|k: int| 0 <= k < n ==> ((#[trigger] emitted@[k]) <==> exists|m: int|
                0 <= m < out@.len() && (#[trigger] out@[m].0@) == node_map@[k].0@),
            entries_drawn_from(out@, node_map@),
            forall|a: int, b: int| 0 <= a < b < out@.len() ==> (#[trigger] out@[a].0@)
                != (#[trigger] out@[b].0@),
            forall|m: int| 0 <= m < out@.len() ==> (entries_has_key(
                node_map@,
                (#[trigger] out@[m]).1@.p1,
            ) ==> exists|m2: int| m < m2 < out@.len() && (#[trigger] out@[m2].0@)
                == out@[m].1@.p1),
            forall|m: int| 0 <= m < out@.len() ==> (entries_has_key(
                node_map@,
                (#[trigger] out@[m]).1@.p2,
            ) ==> exists|m2: int| m < m2 < out@.len() && (#[trigger] out@[m2].0@)
                == out@[m].1@.p2),
            match scan_schedule(node_map@, emitted@, (n - out@.len()) as nat) {
                Option::Some(sfx) => target matches Some(full) && full.len() == sfx.len()
                    + out@.len() && (forall|m: int| 0 <= m < sfx.len() ==> (#[trigger] full[m])
                    == sfx[m]) && (forall|m: int| 0 <= m < out@.len() ==> 0 <= (
                #[trigger] full[sfx.len() + m]) < n && out@[m].0@ == node_map@[full[sfx.len()
                    + m]].0@ && out@[m].1@ == node_map@[full[sfx.len() + m]].1@),
                Option::None => target is None,
            },
        decreases n - out.len(),
    {
        // Find the lowest-index record not yet scheduled whose held
        // parents all are.
        let mut cand: Option<usize> = None;
        let mut c: usize = 0;
        while c < n
            invariant_except_break
                0 <= c <= n,
                cand is None,
                forall|k: int| 0 <= k < c ==> !ready_at(node_map@, emitted@, k),
            invariant
                n == node_map@.len(),
                entries_keys_unique(node_map@),
                emitted@.len() == n,
            ensures
                cand matches Some(ci) ==> ({
                    &&& ci < n
                    &&& !emitted@[ci as int]
                    &&& first_ready_from(node_map@, emitted@, 0) == Option::Some(ci as int)
                    &&& forall|j: int| 0 <= j < n && (#[trigger] node_map@[j].0@)
                        == node_map@[ci as int].1@.p1 ==> emitted@[j]
                    &&& forall|j: int| 0 <= j < n && (#[trigger] node_map@[j].0@)
                        == node_map@[ci as int].1@.p2 ==> emitted@[j]
                }),
                cand is None ==> forall|k: int| 0 <= k < n ==> !ready_at(
                    node_map@,
                    emitted@,
                    k,
                ),
            decreases n - c,
        {
            if !emitted[c] {
                let p1_idx = find_entry_index(node_map, &node_map[c].1.p1);
                let p1_ok = match p1_idx {
                    Some(j) => emitted[j],
                    None => true,
                };
                let p2_idx = find_entry_index(node_map, &node_map[c].1.p2);
                let p2_ok = match p2_idx {
                    Some(j) => emitted[j],
                    None => true,
                };
                if p1_ok && p2_ok {
                    cand = Some(c);
                    proof {
                        assert forall|j: int| 0 <= j < n && (#[trigger] node_map@[j].0@)
                            == node_map@[c as int].1@.p1 implies emitted@[j] by {
                            match p1_idx {
                                Option::Some(jj) => {
                                    assert(node_map@[jj as int].0@
                                        == node_map@[c as int].1@.p1);
                                    assert(j == jj);
                                },
                                Option::None => {
                                    assert(entries_has_key(
                                        node_map@,
                                        node_map@[c as int].1@.p1,
                                    ));
                                },
                            }
                        }
                        assert forall|j: int| 0 <= j < n && (#[trigger] node_map@[j].0@)
                            == node_map@[c as int].1@.p2 implies emitted@[j] by {
                            match p2_idx {
                                Option::Some(jj) => {
                                    assert(node_map@[jj as int].0@
                                        == node_map@[c as int].1@.p2);
                                    assert(j == jj);
                                },
                                Option::None => {
                                    assert(entries_has_key(
                                        node_map@,
                                        node_map@[c as int].1@.p2,
                                    ));
                                },
                            }
                        }
                        assert(ready_at(node_map@, emitted@, c as int));
                        lemma_first_ready_scan(node_map@, emitted@, c as int);
                    }
                    break;
                }
                proof {
                    assert(!ready_at(node_map@, emitted@, c as int)) by {
                        if !p1_ok {
                            match p1_idx {
                                Option::Some(jj) => {
                                    assert(node_map@[jj as int].0@
                                        == node_map@[c as int].1@.p1);
                                    assert(!emitted@[jj as int]);
                                },
                                Option::None => {},
                            }
                        } else {
                            match p2_idx {
                                Option::Some(jj) => {
                                    assert(node_map@[jj as int].0@
                                        == node_map@[c as int].1@.p2);
                                    assert(!emitted@[jj as int]);
                                },
                                Option::None => {},
                            }
                        }
                    }
                }
            } else {
                proof {
                    assert(!ready_at(node_map@, emitted@, c as int));
                }
            }
            c = c + 1;
        }
        let ci = match cand {
            Some(ci) => ci,
            None => {
                proof {
                    let s = node_map@;
                    let em = emitted@;
                    lemma_count_true_some_false(em);
                    let set = Set::new(|i: int| 0 <= i < s.len() && !em[i]);
                    assert(blocked_set(s, set)) by {
                        reveal(blocked_set);
                        let i0 = choose|i: int| 0 <= i < em.len() && !em[i];
                        assert(set.contains(i0));
                        assert forall|i: int| #[trigger] set.contains(i) implies exists|j: int|
                            set.contains(j) && ((s[j].0@ == s[i].1@.p1) || (s[j].0@
                            == s[i].1@.p2)) by {
                            assert(!ready_at(s, em, i));
                            if !(forall|j: int| 0 <= j < s.len() && (#[trigger] s[j].0@)
                                == s[i].1@.p1 ==> em[j]) {
                                let j = choose|j: int| 0 <= j < s.len() && (#[trigger] s[j].0@)
                                    == s[i].1@.p1 && !em[j];
                                assert(set.contains(j));
                            } else {
                                let j = choose|j: int| 0 <= j < s.len() && (#[trigger] s[j].0@)
                                    == s[i].1@.p2 && !em[j];
                                assert(set.contains(j));
                            }
                        }
                    }
                    assert(has_cycle(s));
                }
                return Err(PackError::CyclicHistory);
            },
        };
        let ghost out0 = out@;
        let ghost em0 = emitted@;
        let x = (node_map[ci].0.dup(), node_map[ci].1.dup());
        proof {
            assert(!(exists|m: int| 0 <= m < out0.len() && (#[trigger] out0[m].0@)
                == node_map@[ci as int].0@));
        }
        out.insert(0, x);
        emitted.set(ci, true);
        proof {
            lemma_count_true_update(em0, ci as int);
            assert(emitted@ == em0.update(ci as int, true));
            assert(out@.len() == out0.len() + 1);
            assert(out@[0].0@ == node_map@[ci as int].0@);
            assert(out@[0].1@ == node_map@[ci as int].1@);
            assert(forall|m: int| 1 <= m < out@.len() ==> out@[m] == out0[m - 1]);
            assert forall|k: int| 0 <= k < n implies ((#[trigger] emitted@[k]) <==> exists|
                m: int|
                0 <= m < out@.len() && (#[trigger] out@[m].0@) == node_map@[k].0@) by {
                if k == ci {
                    assert(out@[0].0@ == node_map@[k].0@);
                } else {
                    if em0[k] {
                        let m = choose|m: int| 0 <= m < out0.len() && (#[trigger] out0[m].0@)
                            == node_map@[k].0@;
                        assert(out@[m + 1].0@ == node_map@[k].0@);
                    }
                    if exists|m: int| 0 <= m < out@.len() && (#[trigger] out@[m].0@)
                        == node_map@[k].0@ {
                        let m = choose|m: int| 0 <= m < out@.len() && (#[trigger] out@[m].0@)
                            == node_map@[k].0@;
                        if m == 0 {
                            assert(node_map@[ci as int].0@ == node_map@[k].0@);
                            assert(k == ci);
                        } else {
                            assert(out0[m - 1].0@ == node_map@[k].0@);
                        }
                    }
                }
            }
            assert forall|a: int, b: int| 0 <= a < b < out@.len() implies (
            #[trigger] out@[a].0@) != (#[trigger] out@[b].0@) by {
                if a == 0 {
                    if out@[b].0@ == node_map@[ci as int].0@ {
                        assert(out0[b - 1].0@ == node_map@[ci as int].0@);
                        assert(em0[ci as int]);
                    }
                } else {
                    assert(out@[a] == out0[a - 1] && out@[b] == out0[b - 1]);
                }
            }
            assert forall|m: int| 0 <= m < out@.len() implies exists|j: int|
                0 <= j < node_map@.len() && (#[trigger] out@[m]).0@ == node_map@[j].0@
                    && out@[m].1@ == node_map@[j].1@ by {
                if m == 0 {
                    assert(out@[0].0@ == node_map@[ci as int].0@ && out@[0].1@
                        == node_map@[ci as int].1@);
                } else {
                    assert(out@[m] == out0[m - 1]);
                    assert(entries_drawn_from(out0, node_map@));
                }
            }
            assert(entries_drawn_from(out@, node_map@));
            assert forall|m: int| 0 <= m < out@.len() implies (entries_has_key(
                node_map@,
                (#[trigger] out@[m]).1@.p1,
            ) ==> exists|m2: int| m < m2 < out@.len() && (#[trigger] out@[m2].0@)
                == out@[m].1@.p1) by {
                if m == 0 {
                    if entries_has_key(node_map@, out@[0].1@.p1) {
                        let j = choose|j: int| 0 <= j < node_map@.len()
                            && (#[trigger] node_map@[j].0@) == out@[0].1@.p1;
                        assert(em0[j]);
                        let m2 = choose|m2: int| 0 <= m2 < out0.len()
                            && (#[trigger] out0[m2].0@) == node_map@[j].0@;
                        assert(out@[m2 + 1].0@ == out@[0].1@.p1);
                    }
                } else {
                    if entries_has_key(node_map@, out@[m].1@.p1) {
                        assert(out@[m].1@.p1 == out0[m - 1].1@.p1);
                        let m2 = choose|m2: int| m - 1 < m2 < out0.len()
                            && (#[trigger] out0[m2].0@) == out0[m - 1].1@.p1;
                        assert(out@[m2 + 1].0@ == out@[m].1@.p1);
                    }
                }
            }
            assert forall|m: int| 0 <= m < out@.len() implies (entries_has_key(
                node_map@,
                (#[trigger] out@[m]).1@.p2,
            ) ==> exists|m2: int| m < m2 < out@.len() && (#[trigger] out@[m2].0@)
                == out@[m].1@.p2) by {
                if m == 0 {
                    if entries_has_key(node_map@, out@[0].1@.p2) {
                        let j = choose|j: int| 0 <= j < node_map@.len()
                            && (#[trigger] node_map@[j].0@) == out@[0].1@.p2;
                        assert(em0[j]);
                        let m2 = choose|m2: int| 0 <= m2 < out0.len()
                            && (#[trigger] out0[m2].0@) == node_map@[j].0@;
                        assert(out@[m2 + 1].0@ == out@[0].1@.p2);
                    }
                } else {
                    if entries_has_key(node_map@, out@[m].1@.p2) {
                        assert(out@[m].1@.p2 == out0[m - 1].1@.p2);
                        let m2 = choose|m2: int| m - 1 < m2 < out0.len()
                            && (#[trigger] out0[m2].0@) == out0[m - 1].1@.p2;
                        assert(out@[m2 + 1].0@ == out@[m].1@.p2);
                    }
                }
            }
            // The schedule takes this record next.
            let fuel0 = (n - out0.len()) as nat;
            assert(fuel0 >= 1);
            assert(first_ready_from(node_map@, em0, 0) == Option::Some(ci as int));
            assert((n - out@.len()) as nat == (fuel0 - 1) as nat);
            match scan_schedule(node_map@, emitted@, (n - out@.len()) as nat) {
                Option::Some(sfx2) => {
                    assert(scan_schedule(node_map@, em0, fuel0) == Option::Some(
                        sfx2.push(ci as int),
                    ));
                    let sfx = sfx2.push(ci as int);
                    assert(sfx.len() == sfx2.len() + 1);
                    assert(sfx[sfx2.len() as int] == ci as int);
                    assert(forall|m: int| 0 <= m < sfx2.len() ==> (#[trigger] sfx[m])
                        == sfx2[m]);
                    match target {
                        Option::Some(full) => {
                            assert(full.len() == sfx.len() + out0.len());
                            assert forall|m: int| 0 <= m < out@.len() implies 0 <= (
                            #[trigger] full[sfx2.len() + m]) < n && out@[m].0@
                                == node_map@[full[sfx2.len() + m]].0@ && out@[m].1@
                                == node_map@[full[sfx2.len() + m]].1@ by {
                                if m == 0 {
                                    assert(full[sfx2.len() as int] == sfx[sfx2.len() as int]);
                                } else {
                                    assert(full[sfx2.len() + m] == full[sfx.len() + (m - 1)]);
                                    assert(out@[m] == out0[m - 1]);
                                }
                            }
                        },
                        Option::None => {},
                    }
                },
                Option::None => {
                    assert(scan_schedule(node_map@, em0, fuel0) is None);
                },
            }
        }
    }
    proof {
        lemma_count_true_full(emitted@);
        assert(!has_cycle(node_map@)) by {
            if has_cycle(node_map@) {
                let set = choose|set: Set<int>| blocked_set(node_map@, set);
                assert(exists|i: int| set.contains(i)) by {
                    reveal(blocked_set);
                }
                let i = choose|i: int| set.contains(i);
                assert(0 <= i < n) by {
                    reveal(blocked_set);
                }
                assert(emitted@[i]);
                let m = choose|m: int| 0 <= m < out@.len() && (#[trigger] out@[m].0@)
                    == node_map@[i].0@;
                assert(parents_later(node_map@, out@)) by {
                    reveal(parents_later);
                }
                lemma_blocked_unplaced_at(node_map@, set, out@, m);
                assert(holds_member(node_map@, set, out@, m));
            }
        }
        assert(scan_schedule(node_map@, emitted@, (n - out@.len()) as nat) == Option::Some(
            Seq::<int>::empty(),
        ));
        match scan_schedule(node_map@, emitted@, (n - out@.len()) as nat) {
            Option::Some(sfx) => {
                match target {
                    Option::Some(full) => {
                        assert forall|m: int| 0 <= m < out@.len() implies 0 <= (
                        #[trigger] full[m]) < n && out@[m].0@ == node_map@[full[m]].0@
                            && out@[m].1@ == node_map@[full[m]].1@ by {
                            assert(full[sfx.len() + m] == full[m]);
                        }
                    },
                    Option::None => {},
                }
            },
            Option::None => {},
        }
    }
    Ok(out)
}

/// Whether a name list holds this name.
pub open spec fn names_has(r: Seq<Vec<u8>>, nm: Seq<u8>) -> bool {
    exists|k: int| 0 <= k < r.len() && (#[trigger] r[k])@ == nm
}

/// Whether the index holds a record under this file name.
pub open spec fn index_has_name(p: MutableHistoryPack, nm: Seq<u8>) -> bool {
    exists|i: int| 0 <= i < p.mem_index@.len() && (#[trigger] p.mem_index@[i].0@).0 == nm
}

/// The records of the index held under this file name, in index order.
pub open spec fn named_of(p: MutableHistoryPack, nm: Seq<u8>) -> Seq<(PackKey, NodeInfo)> {
    named_prefix_of(p.mem_index@, nm, p.mem_index@.len() as int)
}

/// The records of the first `n` entries held under this file name.
pub open spec fn named_prefix_of(
    s: Seq<(PackKey, NodeInfo)>,
    nm: Seq<u8>,
    n: int,
) -> Seq<(PackKey, NodeInfo)>
    decreases n,
{
    if n <= 0 || n > s.len() {
        Seq::empty()
    } else if (s[n - 1].0@).0 == nm {
        named_prefix_of(s, nm, n - 1).push(s[n - 1])
    } else {
        named_prefix_of(s, nm, n - 1)
    }
}

/// A freshly inserted name lands at its ordered place.
proof fn lemma_names_insert(r: Seq<Vec<u8>>, j: int, nm: Seq<u8>, x: Vec<u8>)
    requires
        forall|a: int, b: int| 0 <= a < b < r.len() ==> lex_lt((#[trigger] r[a])@, (
        #[trigger] r[b])@),
        0 <= j <= r.len(),
        forall|k: int| 0 <= k < j ==> lex_lt((#[trigger] r[k])@, nm),
        j < r.len() ==> lex_lt(nm, r[j]@),
        x@ == nm,
    ensures
        forall|a: int, b: int| 0 <= a < b < r.insert(j, x).len() ==> lex_lt(
            (#[trigger] r.insert(j, x)[a])@,
            (#[trigger] r.insert(j, x)[b])@,
        ),
        forall|p: Seq<u8>| names_has(r.insert(j, x), p) <==> (names_has(r, p) || p == nm),
{
    let s = r.insert(j, x);
    assert forall|a: int, b: int| 0 <= a < b < s.len() implies lex_lt(
        (#[trigger] s[a])@,
        (#[trigger] s[b])@,
    ) by {
        if a < j && b == j {
            assert(s[a] == r[a] && s[b] == x);
        } else if a == j && b > j {
            assert(s[a] == x && s[b] == r[b - 1]);
            assert(j < r.len());
            if b - 1 > j {
                lemma_lex_trans(nm, r[j]@, r[b - 1]@);
            }
        } else if a < j && b > j {
            assert(s[a] == r[a] && s[b] == r[b - 1]);
            if b - 1 > j {
                assert(lex_lt(r[j]@, r[b - 1]@));
                lemma_lex_trans(nm, r[j]@, r[b - 1]@);
            }
            lemma_lex_trans(r[a]@, nm, r[b - 1]@);
        } else if b < j {
            assert(s[a] == r[a] && s[b] == r[b]);
        } else {
            assert(s[a] == r[a - 1] && s[b] == r[b - 1]);
        }
    }
    assert forall|p: Seq<u8>| names_has(s, p) <==> (names_has(r, p) || p == nm) by {
        if names_has(s, p) {
            let k = choose|k: int| 0 <= k < s.len() && (#[trigger] s[k])@ == p;
            if k < j {
                assert(r[k]@ == p);
            } else if k > j {
                assert(r[k - 1]@ == p);
            }
        }
        if names_has(r, p) {
            let k = choose|k: int| 0 <= k < r.len() && (#[trigger] r[k])@ == p;
            if k < j {
                assert(s[k]@ == p);
            } else {
                assert(s[k + 1]@ == p);
            }
        }
        if p == nm {
            assert(s[j]@ == p);
        }
    }
}

impl MutableHistoryPack {
    /// The file names the index holds records under, each once, in
    /// ascending raw byte order: the order their sections take in the
    /// pack.
    pub fn sorted_names(&self) -> (r: Vec<Vec<u8>>)
        ensures
            forall|a: int, b: int| 0 <= a < b < r@.len() ==> lex_lt(
                (#[trigger] r@[a])@,
                (#[trigger] r@[b])@,
            ),
            forall|nm: Seq<u8>| names_has(r@, nm) <==> index_has_name(*self, nm),
    {
        let mut r: Vec<Vec<u8>> = Vec::new();
        let mut i: usize = 0;
        while i < self.mem_index.len()
            invariant
                0 <= i <= self.mem_index@.len(),
                forall|a: int, b: int| 0 <= a < b < r@.len() ==> lex_lt(
                    (#[trigger] r@[a])@,
                    (#[trigger] r@[b])@,
                ),
                forall|nm: Seq<u8>| names_has(r@, nm) <==> exists|k: int|
                    0 <= k < i && (#[trigger] self.mem_index@[k].0@).0 == nm,
            decreases self.mem_index@.len() - i,
        {
            let nm = &self.mem_index[i].0.name;
            let ghost nv = nm@;
            let ghost r0 = r@;
            let mut j: usize = 0;
            let mut present = false;
            while j < r.len()
                invariant_except_break
                    0 <= j <= r@.len(),
                    !present,
                    forall|k: int| 0 <= k < j ==> lex_lt((#[trigger] r@[k])@, nv),
                invariant
                    r@ == r0,
                    nv == nm@,
                    forall|a: int, b: int| 0 <= a < b < r@.len() ==> lex_lt(
                        (#[trigger] r@[a])@,
                        (#[trigger] r@[b])@,
                    ),
                ensures
                    0 <= j <= r@.len(),
                    present ==> names_has(r@, nv),
                    !present ==> forall|k: int| 0 <= k < j ==> lex_lt((#[trigger] r@[k])@, nv),
                    !present ==> (j < r@.len() ==> lex_lt(nv, r@[j as int]@)),
                decreases r@.len() - j,
            {
                match cmp_bytes(&r[j], nm) {
                    core::cmp::Ordering::Less => {
                        j = j + 1;
                    },
                    core::cmp::Ordering::Equal => {
                        present = true;
                        proof {
                            assert(r@[j as int]@ == nv);
                        }
                        break;
                    },
                    core::cmp::Ordering::Greater => {
                        proof {
                            assert(lex_lt(nv, r@[j as int]@));
                        }
                        break;
                    },
                }
            }
            if !present {
                let ghost jv = j as int;
                let copied = crate::hash::copy_bytes(nm);
                proof {
                    lemma_names_insert(r@, jv, nv, copied);
                }
                r.insert(j, copied);
            }
            i = i + 1;
            proof {
                assert forall|p: Seq<u8>| names_has(r@, p) <==> (names_has(r0, p) || p
                    == nv) by {
                    if present {
                        assert(r@ == r0);
                    }
                }
                assert forall|p: Seq<u8>| names_has(r@, p) <==> exists|k: int|
                    0 <= k < i && (#[trigger] self.mem_index@[k].0@).0 == p by {
                    assert(names_has(r@, p) <==> (names_has(r0, p) || p == nv));
                    assert(self.mem_index@[i - 1].0@.0 == nv);
                    if p == nv {
                        assert(self.mem_index@[i - 1].0@.0 == p);
                    }
                    if exists|k: int| 0 <= k < i && (#[trigger] self.mem_index@[k].0@).0 == p {
                        let k = choose|k: int| 0 <= k < i
                            && (#[trigger] self.mem_index@[k].0@).0 == p;
                        if k < i - 1 {
                            assert(exists|k2: int| 0 <= k2 < i - 1
                                && (#[trigger] self.mem_index@[k2].0@).0 == p);
                        } else {
                            assert(p == nv);
                        }
                    }
                }
            }
        }
        r
    }

    /// The records held under one file name, in index order. Their keys
    /// are distinct, so they are fit to be ordered into a section.
    pub fn records_named(&self, name: &Vec<u8>) -> (r: Vec<(PackKey, NodeInfo)>)
        requires
            index_wf(*self),
        ensures
            r@.len() == named_of(*self, name@).len(),
            forall|k: int| 0 <= k < r@.len() ==> (#[trigger] r@[k]).0@ == named_of(
                *self,
                name@,
            )[k].0@ && r@[k].1@ == named_of(*self, name@)[k].1@,
            entries_keys_unique(r@),
            forall|k: int| 0 <= k < r@.len() ==> ((#[trigger] r@[k]).0@).0 == name@,
    {
        let mut r: Vec<(PackKey, NodeInfo)> = Vec::new();
        let mut i: usize = 0;
        while i < self.mem_index.len()
            invariant
                0 <= i <= self.mem_index@.len(),
                index_wf(*self),
                r@.len() == named_prefix_of(self.mem_index@, name@, i as int).len(),
                forall|k: int| 0 <= k < r@.len() ==> (#[trigger] r@[k]).0@ == named_prefix_of(
                    self.mem_index@,
                    name@,
                    i as int,
                )[k].0@ && r@[k].1@ == named_prefix_of(self.mem_index@, name@, i as int)[k].1@,
                forall|k: int| 0 <= k < r@.len() ==> exists|m: int|
                    0 <= m < i && (#[trigger] r@[k]).0@ == self.mem_index@[m].0@,
                entries_keys_unique(r@),
                forall|k: int| 0 <= k < r@.len() ==> ((#[trigger] r@[k]).0@).0 == name@,
            decreases self.mem_index@.len() - i,
        {
            let ghost r0 = r@;
            let ghost iprev = i as int;
            if crate::hash::bytes_eq(&self.mem_index[i].0.name, name) {
                let x = (self.mem_index[i].0.dup(), self.mem_index[i].1.dup());
                proof {
                    assert forall|k: int| 0 <= k < r0.len() implies (#[trigger] r0[k]).0@
                        != self.mem_index@[iprev].0@ by {
                        let m = choose|m: int| 0 <= m < iprev && (#[trigger] r0[k]).0@
                            == self.mem_index@[m].0@;
                    }
                }
                r.push(x);
                proof {
                    assert(r@[r0.len() as int].0@ == self.mem_index@[iprev].0@);
                }
            }
            i = i + 1;
        }
        proof {
            assert(named_of(*self, name@) == named_prefix_of(
                self.mem_index@,
                name@,
                self.mem_index@.len() as int,
            ));
        }
        r
    }
}

} // verus!





