use vstd::prelude::*;
use crate::entry::FileType;
use crate::filemeta::find_byte;
use crate::path::MPath;

verus! {

/// What the content store records about one file's bytes.
#[derive(Clone, Copy, Debug)]
pub struct ContentMetadataV2 {
    pub is_binary: bool,
    pub is_utf8: bool,
    pub ends_in_newline: bool,
    pub newline_count: u64,
    pub is_generated: bool,
    pub is_partially_generated: bool,
}

/// Recorded counters that hang together: a file ending in a newline has
/// counted that newline.
pub open spec fn metadata_wf(m: ContentMetadataV2) -> bool {
    m.ends_in_newline ==> m.newline_count >= 1
}

/// The lines of a byte text, split at each newline byte, every line
/// stripped of one trailing carriage return; a trailing newline closes
/// the last line rather than opening an empty one.
pub open spec fn spec_lines(c: Seq<u8>) -> Seq<Seq<u8>>
    decreases c.len(),
{
    if c.len() == 0 {
        Seq::empty()
    } else {
        let e = match find_byte(c, 0, 10u8) {
            Option::Some(j) => j,
            Option::None => c.len() as int,
        };
        if 0 <= e < c.len() {
            seq![strip_cr(c.take(e))] + spec_lines(c.skip(e + 1))
        } else {
            seq![strip_cr(c)]
        }
    }
}

pub open spec fn strip_cr(l: Seq<u8>) -> Seq<u8> {
    if l.len() > 0 && l.last() == 13u8 {
        l.drop_last()
    } else {
        l
    }
}

/// Whether a line opens a manual section. The answer of the fixed
/// pattern `^(\s|[[:punct:]])*BEGIN MANUAL SECTION` depends on the line's
/// bytes alone.
pub uninterp spec fn begin_manual_match(line: Seq<u8>) -> bool;

/// Whether a line closes a manual section, by the fixed pattern
/// `^(\s|[[:punct:]])*END MANUAL SECTION`.
pub uninterp spec fn end_manual_match(line: Seq<u8>) -> bool;

/// Relies on regex::bytes::Regex::new and Regex::is_match, with the fixed
/// pattern `^(\s|[[:punct:]])*BEGIN MANUAL SECTION`: whether the line
/// opens a manual section.
#[verifier::external_body]
fn line_begins_manual_section(line: &Vec<u8>) -> (r: bool)
    ensures
        r == begin_manual_match(line@),
{
    match regex::bytes::Regex::new(r"^(\s|[[:punct:]])*BEGIN MANUAL SECTION") {
        Ok(re) => re.is_match(line.as_slice()),
        Err(_) => false,
    }
}

/// Relies on regex::bytes::Regex::new and Regex::is_match, with the fixed
/// pattern `^(\s|[[:punct:]])*END MANUAL SECTION`: whether the line
/// closes a manual section.
#[verifier::external_body]
fn line_ends_manual_section(line: &Vec<u8>) -> (r: bool)
    ensures
        r == end_manual_match(line@),
{
    match regex::bytes::Regex::new(r"^(\s|[[:punct:]])*END MANUAL SECTION") {
        Ok(re) => re.is_match(line.as_slice()),
        Err(_) => false,
    }
}

/// Whether the needle occurs as a contiguous run inside the line.
pub open spec fn contains_seq(h: Seq<u8>, n: Seq<u8>) -> bool {
    exists|i: int| 0 <= i <= h.len() - n.len() && (#[trigger] h.subrange(i, i + n.len())) == n
}

/// Finds a contiguous occurrence of the needle.
fn bytes_contains(h: &Vec<u8>, n: &Vec<u8>) -> (r: bool)
    requires
        n@.len() >= 1,
    ensures
        r == contains_seq(h@, n@),
{
    if h.len() < n.len() {
        return false;
    }
    let mut i: usize = 0;
    while i <= h.len() - n.len()
        invariant
            0 <= i,
            n@.len() >= 1,
            n@.len() <= h@.len(),
            i <= h@.len() - n@.len() + 1,
            forall|k: int| 0 <= k < i ==> (#[trigger] h@.subrange(k, k + n@.len())) != n@,
        decreases h@.len() - n@.len() + 1 - i,
    {
        let mut j: usize = 0;
        let mut matched = true;
        while j < n.len()
            invariant_except_break
                0 <= j <= n@.len(),
                matched,
                forall|k: int| 0 <= k < j ==> h@[i + k] == n@[k],
            invariant
                0 <= i <= h@.len() - n@.len(),
                n@.len() >= 1,
            ensures
                matched ==> forall|k: int| 0 <= k < n@.len() ==> h@[i + k] == n@[k],
                !matched ==> h@.subrange(i as int, i + n@.len()) != n@,
            decreases n@.len() - j,
        {
            proof {
                vstd::std_specs::vec::axiom_spec_len(h);
                assert(i + j < h@.len());
            }
            if h[i + j] != n[j] {
                matched = false;
                proof {
                    assert(h@.subrange(i as int, i + n@.len())[j as int] != n@[j as int]);
                }
                break;
            }
            j = j + 1;
        }
        if matched {
            proof {
                assert(h@.subrange(i as int, i + n@.len()) =~= n@);
            }
            return true;
        }
        i = i + 1;
    }
    proof {
        assert forall|k: int| 0 <= k <= h@.len() - n@.len() implies (#[trigger] h@.subrange(
            k,
            k + n@.len(),
        )) != n@ by {
            assert(0 <= k < i);
        }
    }
    false
}

/// The bytes of the marker announcing a fully generated file.
pub open spec fn generated_marker() -> Seq<u8> {
    seq![64u8, 103u8, 101u8, 110u8, 101u8, 114u8, 97u8, 116u8, 101u8, 100u8]
}

/// The bytes of the marker announcing a partially generated file. It
/// does not contain the plain generated marker — the byte after its `@`
/// differs — so the scan must look for each marker separately.
pub open spec fn partially_generated_marker() -> Seq<u8> {
    seq![
        64u8,
        112u8,
        97u8,
        114u8,
        116u8,
        105u8,
        97u8,
        108u8,
        108u8,
        121u8,
        45u8,
        103u8,
        101u8,
        110u8,
        101u8,
        114u8,
        97u8,
        116u8,
        101u8,
        100u8,
    ]
}

/// Whether a line announces generated content: it holds either marker
/// somewhere.
pub open spec fn line_announces_generated(line: Seq<u8>) -> bool {
    contains_seq(line, generated_marker()) || contains_seq(line, partially_generated_marker())
}

/// The marker announcing a fully generated file, as bytes.
fn generated_marker_bytes() -> (r: Vec<u8>)
    ensures
        r@ == generated_marker(),
{
    let mut r: Vec<u8> = Vec::new();
    r.push(64);
    r.push(103);
    r.push(101);
    r.push(110);
    r.push(101);
    r.push(114);
    r.push(97);
    r.push(116);
    r.push(101);
    r.push(100);
    proof {
        assert(r@ =~= generated_marker());
    }
    r
}

/// The marker announcing a partially generated file, as bytes.
fn partially_generated_marker_bytes() -> (r: Vec<u8>)
    ensures
        r@ == partially_generated_marker(),
{
    let mut r: Vec<u8> = Vec::new();
    r.push(64);
    r.push(112);
    r.push(97);
    r.push(114);
    r.push(116);
    r.push(105);
    r.push(97);
    r.push(108);
    r.push(108);
    r.push(121);
    r.push(45);
    r.push(103);
    r.push(101);
    r.push(110);
    r.push(101);
    r.push(114);
    r.push(97);
    r.push(116);
    r.push(101);
    r.push(100);
    proof {
        assert(r@ =~= partially_generated_marker());
    }
    r
}

/// The scan over a text's lines for generated-ness: whether an annotation
/// was found, and the manual-section line ranges that were closed.
pub open spec fn gen_scan(
    lines: Seq<Seq<u8>>,
    i: int,
    found: bool,
    secs: Seq<(int, int)>,
    start: Option<int>,
) -> (bool, Seq<(int, int)>)
    decreases lines.len() - i,
{
    if !(0 <= i < lines.len()) {
        (found, secs)
    } else {
        let line = lines[i];
        let found2 = found || line_announces_generated(line);
        let (secs2, start2) = if end_manual_match(line) {
            (
                match start {
                    Option::Some(s) => secs.push((s, i)),
                    Option::None => secs,
                },
                Option::None::<int>,
            )
        } else {
            (secs, start)
        };
        let start3 = if begin_manual_match(line) {
            Option::Some(i + 1)
        } else {
            start2
        };
        gen_scan(lines, i + 1, found2, secs2, start3)
    }
}

/// How much of a file is generated: all of it, all but some manual
/// sections, or none of it.
#[derive(Debug)]
pub enum FileGeneratedSpan {
    FullyGenerated,
    PartiallyGenerated(Vec<(usize, usize)>),
    NotGenerated,
}

/// The ranges of a section list, as specifications see them.
pub open spec fn secs_view(v: Seq<(usize, usize)>) -> Seq<(int, int)> {
    Seq::new(v.len(), |i: int| (v[i].0 as int, v[i].1 as int))
}

/// What the scan outcome dictates: no annotation means not generated; an
/// annotation with no closed manual section means fully generated; an
/// annotation with manual sections means partially generated, keeping
/// exactly those sections.
pub open spec fn span_matches_scan(r: FileGeneratedSpan, outcome: (bool, Seq<(int, int)>)) -> bool {
    if !outcome.0 {
        r is NotGenerated
    } else if outcome.1.len() == 0 {
        r is FullyGenerated
    } else {
        r matches FileGeneratedSpan::PartiallyGenerated(v) && secs_view(v@) == outcome.1
    }
}

/// Splits a text into its lines.
fn split_text_lines(c: &Vec<u8>) -> (r: Vec<Vec<u8>>)
    ensures
        r@.len() == spec_lines(c@).len(),
        forall|k: int| 0 <= k < r@.len() ==> (#[trigger] r@[k])@ == spec_lines(c@)[k],
{
    let mut out: Vec<Vec<u8>> = Vec::new();
    let mut pos: usize = 0;
    proof {
        assert(c@.skip(0) =~= c@);
    }
    while pos < c.len()
        invariant
            0 <= pos <= c@.len(),
            out@.len() + spec_lines(c@.skip(pos as int)).len() == spec_lines(c@).len(),
            forall|k: int| 0 <= k < out@.len() ==> (#[trigger] out@[k])@ == spec_lines(c@)[k],
            forall|k: int| 0 <= k < spec_lines(c@.skip(pos as int)).len() ==> (
            #[trigger] spec_lines(c@.skip(pos as int))[k]) == spec_lines(c@)[out@.len() + k],
        decreases c@.len() - pos,
    {
        let ghost suffix = c@.skip(pos as int);
        let ghost out_len0 = out@.len() as int;
        let mut j: usize = pos;
        while j < c.len() && c[j] != 10
            invariant
                pos <= j <= c@.len(),
                forall|k: int| pos <= k < j ==> c@[k] != 10u8,
            decreases c@.len() - j,
        {
            j = j + 1;
        }
        proof {
            crate::filemeta::lemma_find_byte_scan(c@, pos as int, j as int);
        }
        let end = if j > pos && c[j - 1] == 13 {
            j - 1
        } else {
            j
        };
        let mut line: Vec<u8> = Vec::new();
        let mut t: usize = pos;
        while t < end
            invariant
                pos <= t <= end,
                end <= c@.len(),
                line@ == c@.subrange(pos as int, t as int),
            decreases end - t,
        {
            line.push(c[t]);
            t = t + 1;
            proof {
                assert(line@ =~= c@.subrange(pos as int, t as int));
            }
        }
        proof {
            assert(line@ =~= c@.subrange(pos as int, end as int));
            if j < c@.len() {
                assert(suffix.take(j - pos) =~= c@.subrange(pos as int, j as int));
                assert(spec_lines(suffix) == seq![strip_cr(suffix.take(j - pos))] + spec_lines(
                    suffix.skip((j - pos) + 1),
                ));
                assert(spec_lines(suffix)[0] == strip_cr(c@.subrange(pos as int, j as int)));
                assert(suffix.skip((j - pos) + 1) =~= c@.skip(j + 1));
            } else {
                assert(suffix =~= c@.subrange(pos as int, j as int));
                assert(spec_lines(suffix) == seq![strip_cr(suffix)]);
                assert(spec_lines(suffix)[0] == strip_cr(c@.subrange(pos as int, j as int)));
            }
            if end < j {
                assert(c@.subrange(pos as int, j as int).last() == 13u8);
                assert(strip_cr(c@.subrange(pos as int, j as int)) =~= c@.subrange(
                    pos as int,
                    end as int,
                ));
            } else {
                assert(strip_cr(c@.subrange(pos as int, j as int)) == c@.subrange(
                    pos as int,
                    j as int,
                ));
            }
            assert(line@ == spec_lines(suffix)[0]);
            assert(spec_lines(suffix)[0] == spec_lines(c@)[out_len0]);
        }
        out.push(line);
        if j >= c.len() {
            proof {
                assert(spec_lines(suffix).len() == 1);
                assert(out@.len() == spec_lines(c@).len());
                assert forall|k: int| 0 <= k < out@.len() implies (#[trigger] out@[k])@
                    == spec_lines(c@)[k] by {
                    if k == out_len0 {
                        assert(out@[k]@ == spec_lines(c@)[out_len0]);
                    }
                }
            }
            return out;
        }
        pos = j + 1;
        proof {
            let nsuffix = c@.skip(pos as int);
            assert(spec_lines(suffix).len() == 1 + spec_lines(nsuffix).len());
            assert forall|k: int| 0 <= k < out@.len() implies (#[trigger] out@[k])@
                == spec_lines(c@)[k] by {
                if k == out_len0 {
                    assert(out@[k]@ == spec_lines(c@)[out_len0]);
                }
            }
            assert forall|k: int| 0 <= k < spec_lines(nsuffix).len() implies (
            #[trigger] spec_lines(nsuffix)[k]) == spec_lines(c@)[out@.len() + k] by {
                assert(spec_lines(nsuffix)[k] == spec_lines(suffix)[k + 1]);
                assert(spec_lines(suffix)[k + 1] == spec_lines(c@)[out_len0 + k + 1]);
            }
        }
    }
    proof {
        assert(spec_lines(c@.skip(pos as int)).len() == 0);
    }
    out
}

impl FileGeneratedSpan {
    /// Scans the content line by line for generated-content annotations
    /// and manual-section markers, when the recorded metadata claims the
    /// file is generated at all; a file without such a claim is not
    /// generated, unscanned.
    pub fn new(content: &Vec<u8>, metadata: &ContentMetadataV2) -> (r: FileGeneratedSpan)
        ensures
            !metadata.is_generated && !metadata.is_partially_generated ==> r is NotGenerated,
            metadata.is_generated || metadata.is_partially_generated ==> span_matches_scan(
                r,
                gen_scan(spec_lines(content@), 0, false, Seq::empty(), Option::None),
            ),
    {
        if !metadata.is_generated && !metadata.is_partially_generated {
            return FileGeneratedSpan::NotGenerated;
        }
        let lines = split_text_lines(content);
        let ghost lv = spec_lines(content@);
        let mut found: bool = false;
        let mut secs: Vec<(usize, usize)> = Vec::new();
        let mut start: Option<usize> = None;
        let marker = generated_marker_bytes();
        let pmarker = partially_generated_marker_bytes();
        proof {
            assert(secs_view(secs@) =~= Seq::<(int, int)>::empty());
        }
        let mut i: usize = 0;
        while i < lines.len()
            invariant
                0 <= i <= lines@.len(),
                lines@.len() == lv.len(),
                forall|k: int| 0 <= k < lines@.len() ==> (#[trigger] lines@[k])@ == lv[k],
                marker@ == generated_marker(),
                pmarker@ == partially_generated_marker(),
                start matches Some(s) ==> s <= i,
                gen_scan(lv, 0, false, Seq::empty(), Option::None) == gen_scan(
                    lv,
                    i as int,
                    found,
                    secs_view(secs@),
                    match start {
                        Option::Some(s) => Option::Some(s as int),
                        Option::None => Option::None,
                    },
                ),
            decreases lines@.len() - i,
        {
            let line = &lines[i];
            let ghost secs0 = secs_view(secs@);
            let ghost start0: Option<int> = match start {
                Option::Some(s) => Option::Some(s as int),
                Option::None => Option::None,
            };
            if bytes_contains(line, &marker) || bytes_contains(line, &pmarker) {
                found = true;
            }
            if line_ends_manual_section(line) {
                match start {
                    Some(s) => {
                        secs.push((s, i));
                        proof {
                            assert(secs_view(secs@) =~= secs0.push((s as int, i as int)));
                        }
                    },
                    None => {},
                }
                start = None;
            }
            if line_begins_manual_section(line) {
                start = Some(i + 1);
            }
            i = i + 1;
        }
        proof {
            assert(gen_scan(lv, lv.len() as int, found, secs_view(secs@), match start {
                Option::Some(s) => Option::Some(s as int),
                Option::None => Option::None,
            }) == (found, secs_view(secs@)));
        }
        if !found {
            return FileGeneratedSpan::NotGenerated;
        }
        if secs.len() == 0 {
            proof {
                assert(secs_view(secs@) =~= Seq::<(int, int)>::empty());
            }
            return FileGeneratedSpan::FullyGenerated;
        }
        FileGeneratedSpan::PartiallyGenerated(secs)
    }
}

/// The bytes of a text file, the recorded metadata, and what the scan
/// found out about generated content.
#[derive(Debug)]
pub struct TextFile {
    pub file_content: Vec<u8>,
    pub metadata: ContentMetadataV2,
    pub generated_span: FileGeneratedSpan,
}

/// Addition that sticks at the machine limit instead of wrapping.
pub open spec fn sat_add(a: nat, b: nat) -> nat {
    if a + b > usize::MAX {
        usize::MAX as nat
    } else {
        a + b
    }
}

/// Subtraction that stops at zero.
pub open spec fn sat_sub(a: int, b: int) -> nat {
    if a - b > 0 {
        (a - b) as nat
    } else {
        0
    }
}

/// The sum of the section lengths clipped to a line range.
pub open spec fn clipped_sum(secs: Seq<(usize, usize)>, lo: int, hi: int) -> nat
    decreases secs.len(),
{
    if secs.len() == 0 {
        0
    } else {
        let s = secs.last();
        sat_add(
            clipped_sum(secs.drop_last(), lo, hi),
            sat_sub(if s.1 <= hi { s.1 as int } else { hi }, if s.0 >= lo {
                s.0 as int
            } else {
                lo
            }),
        )
    }
}

impl TextFile {
    /// Builds the text view of a file: the scan for generated content runs
    /// once, up front.
    pub fn new(file_content: Vec<u8>, metadata: ContentMetadataV2) -> (r: TextFile)
        ensures
            r.file_content@ == file_content@,
            r.metadata == metadata,
            !metadata.is_generated && !metadata.is_partially_generated ==> r.generated_span
                is NotGenerated,
            metadata.is_generated || metadata.is_partially_generated ==> span_matches_scan(
                r.generated_span,
                gen_scan(spec_lines(file_content@), 0, false, Seq::empty(), Option::None),
            ),
    {
        let generated_span = FileGeneratedSpan::new(&file_content, &metadata);
        TextFile { file_content, metadata, generated_span }
    }

    /// The number of lines, read off the recorded metadata: a file ending
    /// in a newline does not count an empty last line.
    pub fn lines(&self) -> (r: u64)
        requires
            metadata_wf(self.metadata),
        ensures
            self.metadata.ends_in_newline ==> r == self.metadata.newline_count - 1,
            !self.metadata.ends_in_newline ==> r == self.metadata.newline_count,
    {
        if self.metadata.ends_in_newline {
            self.metadata.newline_count - 1
        } else {
            self.metadata.newline_count
        }
    }

    /// The number of lines a human wrote: none of a fully generated file,
    /// the manual sections of a partially generated one, every line
    /// otherwise.
    pub fn significant_lines_count(&self) -> (r: usize)
        requires
            metadata_wf(self.metadata),
            self.metadata.newline_count <= usize::MAX,
        ensures
            self.generated_span is FullyGenerated ==> r == 0,
            self.generated_span matches FileGeneratedSpan::PartiallyGenerated(v) ==> r
                == clipped_sum(v@, 0, usize::MAX as int),
            self.generated_span is NotGenerated ==> (self.metadata.ends_in_newline ==> r
                == self.metadata.newline_count - 1) && (!self.metadata.ends_in_newline ==> r
                == self.metadata.newline_count),
    {
        match &self.generated_span {
            FileGeneratedSpan::FullyGenerated => 0,
            FileGeneratedSpan::PartiallyGenerated(secs) => {
                sum_clipped(secs, 0, usize::MAX)
            },
            FileGeneratedSpan::NotGenerated => {
                let n = self.lines();
                n as usize
            },
        }
    }

    /// The number of human-written lines inside one line range of a diff
    /// hunk.
    pub fn significant_lines_count_in_a_range(&self, lo: usize, hi: usize) -> (r: usize)
        ensures
            self.generated_span is FullyGenerated ==> r == 0,
            self.generated_span matches FileGeneratedSpan::PartiallyGenerated(v) ==> r
                == clipped_sum(v@, lo as int, hi as int),
            self.generated_span is NotGenerated ==> r == sat_sub(hi as int, lo as int),
    {
        match &self.generated_span {
            FileGeneratedSpan::FullyGenerated => 0,
            FileGeneratedSpan::PartiallyGenerated(secs) => sum_clipped(secs, lo, hi),
            FileGeneratedSpan::NotGenerated => {
                if hi > lo {
                    hi - lo
                } else {
                    0
                }
            },
        }
    }
}

/// Sums section lengths clipped to a range, saturating at the limit.
fn sum_clipped(secs: &Vec<(usize, usize)>, lo: usize, hi: usize) -> (r: usize)
    ensures
        r == clipped_sum(secs@, lo as int, hi as int),
{
    let mut acc: usize = 0;
    let mut i: usize = 0;
    while i < secs.len()
        invariant
            0 <= i <= secs@.len(),
            acc == clipped_sum(secs@.take(i as int), lo as int, hi as int),
        decreases secs@.len() - i,
    {
        let s = secs[i];
        let top = if s.1 <= hi {
            s.1
        } else {
            hi
        };
        let bot = if s.0 >= lo {
            s.0
        } else {
            lo
        };
        let piece: usize = if top > bot {
            top - bot
        } else {
            0
        };
        let sum_wide: u128 = acc as u128 + piece as u128;
        if sum_wide > usize::MAX as u128 {
            acc = usize::MAX;
        } else {
            acc = acc + piece;
        }
        i = i + 1;
        proof {
            assert(secs@.take(i as int).last() == secs@[i - 1]);
            assert(secs@.take(i as int).drop_last() =~= secs@.take(i - 1));
        }
    }
    proof {
        assert(secs@.take(secs@.len() as int) =~= secs@);
    }
    acc
}


/// A file's content as the metadata diff classifies it.
#[derive(Debug)]
pub enum ParsedFileContent {
    Text(TextFile),
    NonUtf8,
    Binary,
}

impl ParsedFileContent {
    /// Classifies fetched content by its recorded metadata: binary wins,
    /// then valid text, else opaque non-UTF-8 bytes. The text case scans
    /// for generated content.
    pub fn from_fetched(metadata: ContentMetadataV2, content: Vec<u8>) -> (r: ParsedFileContent)
        ensures
            metadata.is_binary ==> r is Binary,
            !metadata.is_binary && metadata.is_utf8 ==> (r matches ParsedFileContent::Text(t)
                && t.file_content@ == content@ && t.metadata == metadata),
            !metadata.is_binary && !metadata.is_utf8 ==> r is NonUtf8,
    {
        if metadata.is_binary {
            ParsedFileContent::Binary
        } else if metadata.is_utf8 {
            ParsedFileContent::Text(TextFile::new(content, metadata))
        } else {
            ParsedFileContent::NonUtf8
        }
    }
}

/// The coarse kind of a file's content.
#[derive(Clone, Copy, Debug, PartialEq, Eq, Structural)]
pub enum FileContentType {
    Text,
    NonUtf8,
    Binary,
}

impl FileContentType {
    /// The kind that a parsed content falls under.
    pub fn from_parsed(parsed: &ParsedFileContent) -> (r: FileContentType)
        ensures
            parsed is Text ==> r is Text,
            parsed is NonUtf8 ==> r is NonUtf8,
            parsed is Binary ==> r is Binary,
    {
        match parsed {
            ParsedFileContent::Text(_) => FileContentType::Text,
            ParsedFileContent::NonUtf8 => FileContentType::NonUtf8,
            ParsedFileContent::Binary => FileContentType::Binary,
        }
    }
}

/// How much of a file is generated, as reported outward.
#[derive(Clone, Copy, Debug, PartialEq, Eq, Structural)]
pub enum FileGeneratedStatus {
    /// File is fully generated.
    FullyGenerated,
    /// File is partially generated.
    PartiallyGenerated,
    /// File is not generated.
    NotGenerated,
}

impl FileGeneratedStatus {
    /// The status a generated-content span reports.
    pub fn from_span(span: &FileGeneratedSpan) -> (r: FileGeneratedStatus)
        ensures
            span is FullyGenerated ==> r is FullyGenerated,
            span is PartiallyGenerated ==> r is PartiallyGenerated,
            span is NotGenerated ==> r is NotGenerated,
    {
        match span {
            FileGeneratedSpan::FullyGenerated => FileGeneratedStatus::FullyGenerated,
            FileGeneratedSpan::PartiallyGenerated(_) => FileGeneratedStatus::PartiallyGenerated,
            FileGeneratedSpan::NotGenerated => FileGeneratedStatus::NotGenerated,
        }
    }
}

/// File information that concerns the metadata diff.
#[derive(Debug)]
pub struct MetadataDiffFileInfo {
    /// File type (regular, executable, or symlink), where known.
    pub file_type: Option<FileType>,
    /// File content type, where content was available.
    pub file_content_type: Option<FileContentType>,
    /// Generated status, known for text files only.
    pub file_generated_status: Option<FileGeneratedStatus>,
}

impl MetadataDiffFileInfo {
    /// Summarizes one side of a metadata diff.
    pub fn new(file_type: Option<FileType>, parsed_file_content: Option<&ParsedFileContent>) -> (r:
        MetadataDiffFileInfo)
        ensures
            r.file_type == match file_type {
                Option::Some(t) => Option::Some(t),
                Option::None => Option::None::<FileType>,
            },
            parsed_file_content is None ==> r.file_content_type is None
                && r.file_generated_status is None,
            parsed_file_content matches Some(p) ==> ({
                &&& (p is Text ==> r.file_content_type == Option::Some(FileContentType::Text))
                &&& (p is NonUtf8 ==> r.file_content_type == Option::Some(
                    FileContentType::NonUtf8,
                ))
                &&& (p is Binary ==> r.file_content_type == Option::Some(FileContentType::Binary))
                &&& (p matches ParsedFileContent::Text(t) ==> r.file_generated_status
                    == Option::Some(
                    match t.generated_span {
                        FileGeneratedSpan::FullyGenerated => FileGeneratedStatus::FullyGenerated,
                        FileGeneratedSpan::PartiallyGenerated(_)
                            => FileGeneratedStatus::PartiallyGenerated,
                        FileGeneratedSpan::NotGenerated => FileGeneratedStatus::NotGenerated,
                    },
                ))
                &&& (!(p is Text) ==> r.file_generated_status is None)
            }),
    {
        let file_generated_status = match parsed_file_content {
            Some(ParsedFileContent::Text(text_file)) => Some(
                FileGeneratedStatus::from_span(&text_file.generated_span),
            ),
            _ => None,
        };
        let file_content_type = match parsed_file_content {
            Some(p) => Some(FileContentType::from_parsed(p)),
            None => None,
        };
        MetadataDiffFileInfo { file_type, file_content_type, file_generated_status }
    }
}

/// One hunk of a line diff between two files: the replaced line range of
/// the old file and the added line range of the new file.
#[derive(Clone, Copy, Debug)]
pub struct Hunk {
    pub add_start: usize,
    pub add_end: usize,
    pub remove_start: usize,
    pub remove_end: usize,
}

/// A hunk with ranges in order.
pub open spec fn hunk_wf(h: Hunk) -> bool {
    h.add_start <= h.add_end && h.remove_start <= h.remove_end
}

/// Lines count in a diff for the metadata diff.
#[derive(Debug)]
pub struct MetadataDiffLinesCount {
    /// Number of added lines.
    pub added_lines_count: usize,
    /// Number of deleted lines.
    pub deleted_lines_count: usize,
    /// Number of significant (not generated) added lines.
    pub significant_added_lines_count: usize,
    /// Number of significant (not generated) deleted lines.
    pub significant_deleted_lines_count: usize,
    /// Line number of the first added line (1-based).
    pub first_added_line_number: Option<usize>,
}

impl MetadataDiffLinesCount {
    fn zero() -> (r: MetadataDiffLinesCount)
        ensures
            r.added_lines_count == 0,
            r.deleted_lines_count == 0,
            r.significant_added_lines_count == 0,
            r.significant_deleted_lines_count == 0,
            r.first_added_line_number is None,
    {
        MetadataDiffLinesCount {
            added_lines_count: 0,
            deleted_lines_count: 0,
            significant_added_lines_count: 0,
            significant_deleted_lines_count: 0,
            first_added_line_number: None,
        }
    }

    pub fn add_to_added_lines_count(&mut self, count: usize)
        ensures
            final(self).added_lines_count == sat_add(old(self).added_lines_count as nat,
                count as nat),
            final(self).deleted_lines_count == old(self).deleted_lines_count,
            final(self).significant_added_lines_count
                == old(self).significant_added_lines_count,
            final(self).significant_deleted_lines_count
                == old(self).significant_deleted_lines_count,
            final(self).first_added_line_number == old(self).first_added_line_number,
    {
        let wide: u128 = self.added_lines_count as u128 + count as u128;
        if wide > usize::MAX as u128 {
            self.added_lines_count = usize::MAX;
        } else {
            self.added_lines_count = self.added_lines_count + count;
        }
    }

    pub fn add_to_deleted_lines_count(&mut self, count: usize)
        ensures
            final(self).deleted_lines_count == sat_add(old(self).deleted_lines_count as nat,
                count as nat),
            final(self).added_lines_count == old(self).added_lines_count,
            final(self).significant_added_lines_count
                == old(self).significant_added_lines_count,
            final(self).significant_deleted_lines_count
                == old(self).significant_deleted_lines_count,
            final(self).first_added_line_number == old(self).first_added_line_number,
    {
        let wide: u128 = self.deleted_lines_count as u128 + count as u128;
        if wide > usize::MAX as u128 {
            self.deleted_lines_count = usize::MAX;
        } else {
            self.deleted_lines_count = self.deleted_lines_count + count;
        }
    }

    pub fn add_to_significant_added_lines_count(&mut self, count: usize)
        ensures
            final(self).significant_added_lines_count == sat_add(
                old(self).significant_added_lines_count as nat,
                count as nat,
            ),
            final(self).added_lines_count == old(self).added_lines_count,
            final(self).deleted_lines_count == old(self).deleted_lines_count,
            final(self).significant_deleted_lines_count
                == old(self).significant_deleted_lines_count,
            final(self).first_added_line_number == old(self).first_added_line_number,
    {
        let wide: u128 = self.significant_added_lines_count as u128 + count as u128;
        if wide > usize::MAX as u128 {
            self.significant_added_lines_count = usize::MAX;
        } else {
            self.significant_added_lines_count = self.significant_added_lines_count + count;
        }
    }

    pub fn add_to_significant_deleted_lines_count(&mut self, count: usize)
        ensures
            final(self).significant_deleted_lines_count == sat_add(
                old(self).significant_deleted_lines_count as nat,
                count as nat,
            ),
            final(self).added_lines_count == old(self).added_lines_count,
            final(self).deleted_lines_count == old(self).deleted_lines_count,
            final(self).significant_added_lines_count
                == old(self).significant_added_lines_count,
            final(self).first_added_line_number == old(self).first_added_line_number,
    {
        let wide: u128 = self.significant_deleted_lines_count as u128 + count as u128;
        if wide > usize::MAX as u128 {
            self.significant_deleted_lines_count = usize::MAX;
        } else {
            self.significant_deleted_lines_count = self.significant_deleted_lines_count + count;
        }
    }

    /// Folds a diff's hunks into line counts: raw added and deleted lines,
    /// their significant portions by each side's generated-content spans,
    /// and the first added line, one-based. The hunks come from the line
    /// diff of the two files, oldest first.
    pub fn diff_files(old_text_file: &TextFile, new_text_file: &TextFile, hunks: &Vec<Hunk>) -> (r:
        MetadataDiffLinesCount)
        requires
            forall|k: int| 0 <= k < hunks@.len() ==> hunk_wf(#[trigger] hunks@[k]),
        ensures
            r == spec_diff_files(*old_text_file, *new_text_file, hunks@),
    {
        let mut acc = Self::zero();
        let mut i: usize = 0;
        while i < hunks.len()
            invariant
                0 <= i <= hunks@.len(),
                forall|k: int| 0 <= k < hunks@.len() ==> hunk_wf(#[trigger] hunks@[k]),
                acc == spec_diff_files(*old_text_file, *new_text_file, hunks@.take(i as int)),
            decreases hunks@.len() - i,
        {
            let h = hunks[i];
            acc.add_to_added_lines_count(h.add_end - h.add_start);
            acc.add_to_deleted_lines_count(h.remove_end - h.remove_start);
            acc.add_to_significant_added_lines_count(
                new_text_file.significant_lines_count_in_a_range(h.add_start, h.add_end),
            );
            acc.add_to_significant_deleted_lines_count(
                old_text_file.significant_lines_count_in_a_range(h.remove_start, h.remove_end),
            );
            if h.add_end > h.add_start && acc.first_added_line_number.is_none() {
                let first: usize = if h.add_start < usize::MAX {
                    h.add_start + 1
                } else {
                    usize::MAX
                };
                acc.first_added_line_number = Some(first);
            }
            i = i + 1;
            proof {
                assert(hunks@.take(i as int).last() == hunks@[i - 1]);
                assert(hunks@.take(i as int).drop_last() =~= hunks@.take(i - 1));
            }
        }
        proof {
            assert(hunks@.take(hunks@.len() as int) =~= hunks@);
        }
        acc
    }

    /// The counts for a file that is entirely new.
    pub fn file_created(new_text_file: &TextFile) -> (r: MetadataDiffLinesCount)
        requires
            metadata_wf(new_text_file.metadata),
            new_text_file.metadata.newline_count <= usize::MAX,
        ensures
            r.added_lines_count as int == text_lines(*new_text_file),
            r.significant_added_lines_count == significant_total(*new_text_file),
            r.deleted_lines_count == 0,
            r.significant_deleted_lines_count == 0,
            r.first_added_line_number == Option::Some(1usize),
    {
        let n = new_text_file.lines();
        MetadataDiffLinesCount {
            added_lines_count: n as usize,
            deleted_lines_count: 0,
            significant_added_lines_count: new_text_file.significant_lines_count(),
            significant_deleted_lines_count: 0,
            first_added_line_number: Some(1),
        }
    }

    /// The counts for a file that was deleted outright.
    pub fn file_deleted(old_text_file: &TextFile) -> (r: MetadataDiffLinesCount)
        requires
            metadata_wf(old_text_file.metadata),
            old_text_file.metadata.newline_count <= usize::MAX,
        ensures
            r.deleted_lines_count as int == text_lines(*old_text_file),
            r.significant_deleted_lines_count == significant_total(*old_text_file),
            r.added_lines_count == 0,
            r.significant_added_lines_count == 0,
            r.first_added_line_number is None,
    {
        let n = old_text_file.lines();
        MetadataDiffLinesCount {
            added_lines_count: 0,
            deleted_lines_count: n as usize,
            significant_added_lines_count: 0,
            significant_deleted_lines_count: old_text_file.significant_lines_count(),
            first_added_line_number: None,
        }
    }

    /// Line counts exist exactly when both sides that exist are text; a
    /// lone text side counts as created or deleted whole.
    pub fn new(
        old_parsed_file_content: Option<&ParsedFileContent>,
        new_parsed_file_content: Option<&ParsedFileContent>,
        hunks: &Vec<Hunk>,
    ) -> (r: Option<MetadataDiffLinesCount>)
        requires
            forall|k: int| 0 <= k < hunks@.len() ==> hunk_wf(#[trigger] hunks@[k]),
            old_parsed_file_content matches Some(p) ==> (p matches ParsedFileContent::Text(t)
                ==> metadata_wf(t.metadata) && t.metadata.newline_count <= usize::MAX),
            new_parsed_file_content matches Some(p) ==> (p matches ParsedFileContent::Text(t)
                ==> metadata_wf(t.metadata) && t.metadata.newline_count <= usize::MAX),
        ensures
            ({
                let old_text = parsed_text(old_parsed_file_content);
                let new_text = parsed_text(new_parsed_file_content);
                match (old_text, new_text) {
                    (Option::Some(ot), Option::Some(nt)) => r == Option::Some(spec_diff_files(
                        ot,
                        nt,
                        hunks@,
                    )),
                    (Option::Some(ot), Option::None) => (r matches Some(c)
                        && c.deleted_lines_count as int == text_lines(ot)
                        && c.significant_deleted_lines_count == significant_total(ot)
                        && c.added_lines_count == 0),
                    (Option::None, Option::Some(nt)) => (r matches Some(c)
                        && c.added_lines_count as int == text_lines(nt)
                        && c.significant_added_lines_count == significant_total(nt)
                        && c.deleted_lines_count == 0),
                    (Option::None, Option::None) => r is None,
                }
            }),
    {
        match (old_parsed_file_content, new_parsed_file_content) {
            (Some(ParsedFileContent::Text(old_text_file)), Some(
                ParsedFileContent::Text(new_text_file),
            )) => Some(Self::diff_files(old_text_file, new_text_file, hunks)),
            (Some(ParsedFileContent::Text(old_text_file)), _) => Some(
                Self::file_deleted(old_text_file),
            ),
            (_, Some(ParsedFileContent::Text(new_text_file))) => Some(
                Self::file_created(new_text_file),
            ),
            _ => None,
        }
    }
}

/// The text view of a parsed content, if it is text.
pub open spec fn parsed_text(p: Option<&ParsedFileContent>) -> Option<TextFile> {
    match p {
        Option::Some(pp) => match pp {
            ParsedFileContent::Text(t) => Option::Some(*t),
            _ => Option::None,
        },
        Option::None => Option::None,
    }
}

/// The recorded line count of a text file.
pub open spec fn text_lines(t: TextFile) -> int {
    if t.metadata.ends_in_newline {
        t.metadata.newline_count - 1
    } else {
        t.metadata.newline_count as int
    }
}

/// The significant line total of a whole text file.
pub open spec fn significant_total(t: TextFile) -> nat {
    match t.generated_span {
        FileGeneratedSpan::FullyGenerated => 0,
        FileGeneratedSpan::PartiallyGenerated(v) => clipped_sum(v@, 0, usize::MAX as int),
        FileGeneratedSpan::NotGenerated => sat_sub(text_lines(t), 0),
    }
}

/// The significant line count of one hunk range on one side.
pub open spec fn significant_in_range(t: TextFile, lo: int, hi: int) -> nat {
    match t.generated_span {
        FileGeneratedSpan::FullyGenerated => 0,
        FileGeneratedSpan::PartiallyGenerated(v) => clipped_sum(v@, lo, hi),
        FileGeneratedSpan::NotGenerated => sat_sub(hi, lo),
    }
}

/// The fold of a diff's hunks into line counts.
pub open spec fn spec_diff_files(ot: TextFile, nt: TextFile, hunks: Seq<Hunk>) -> MetadataDiffLinesCount
    decreases hunks.len(),
{
    if hunks.len() == 0 {
        MetadataDiffLinesCount {
            added_lines_count: 0,
            deleted_lines_count: 0,
            significant_added_lines_count: 0,
            significant_deleted_lines_count: 0,
            first_added_line_number: Option::None,
        }
    } else {
        let acc = spec_diff_files(ot, nt, hunks.drop_last());
        let h = hunks.last();
        MetadataDiffLinesCount {
            added_lines_count: sat_add(acc.added_lines_count as nat, (h.add_end
                - h.add_start) as nat) as usize,
            deleted_lines_count: sat_add(acc.deleted_lines_count as nat, (h.remove_end
                - h.remove_start) as nat) as usize,
            significant_added_lines_count: sat_add(acc.significant_added_lines_count as nat,
                significant_in_range(nt, h.add_start as int, h.add_end as int)) as usize,
            significant_deleted_lines_count: sat_add(
                acc.significant_deleted_lines_count as nat,
                significant_in_range(ot, h.remove_start as int, h.remove_end as int),
            ) as usize,
            first_added_line_number: if acc.first_added_line_number is Some {
                acc.first_added_line_number
            } else if h.add_end > h.add_start {
                Option::Some(
                    (if h.add_start < usize::MAX {
                        h.add_start + 1
                    } else {
                        usize::MAX as int
                    }) as usize,
                )
            } else {
                Option::None
            },
        }
    }
}

/// Metadata about the differences between two files.
#[derive(Debug)]
pub struct MetadataDiff {
    /// Information about the file before the change.
    pub old_file_info: MetadataDiffFileInfo,
    /// Information about the file after the change.
    pub new_file_info: MetadataDiffFileInfo,
    /// Lines count in the diff between the two files.
    pub lines_count: Option<MetadataDiffLinesCount>,
}

/// A diff between two files in extended unified diff format.
#[derive(Debug)]
pub struct UnifiedDiff {
    /// Raw diff as bytes.
    pub raw_diff: Vec<u8>,
    /// One of the diffed files is binary; the raw diff holds a
    /// placeholder.
    pub is_binary: bool,
}

/// How a unified diff is rendered.
#[derive(Clone, Copy, Debug, PartialEq, Eq, Structural)]
pub enum UnifiedDiffMode {
    /// The diff body is generated inline as normal.
    Inline,
    /// Content is not fetched; a placeholder diff is generated instead.
    OmitContent,
}

/// How the destination of a path difference came to be.
#[derive(Clone, Copy, Debug, PartialEq, Eq, Structural)]
pub enum CopyInfo {
    NoCopy,
    Copy,
    Move,
}

/// One path's content in one commit, as the diff API addresses it.
#[derive(Debug)]
pub struct ChangesetPathContentContext {
    pub path: MPath,
}

impl ChangesetPathContentContext {
    pub fn path(&self) -> (r: &MPath)
        ensures
            r@ == self.path@,
    {
        &self.path
    }
}

/// A path difference between two commits. The changed, copied and moved
/// variants hold the two sides in compare order: the destination first.
#[derive(Debug)]
pub enum ChangesetPathDiffContext {
    Added(ChangesetPathContentContext),
    Removed(ChangesetPathContentContext),
    Changed(ChangesetPathContentContext, ChangesetPathContentContext),
    Copied(ChangesetPathContentContext, ChangesetPathContentContext),
    Moved(ChangesetPathContentContext, ChangesetPathContentContext),
}

impl ChangesetPathDiffContext {
    /// Builds a path diff context from the two optional sides and the
    /// copy information; the shapes that make no sense are refused.
    pub fn new(
        base: Option<ChangesetPathContentContext>,
        other: Option<ChangesetPathContentContext>,
        copy_info: CopyInfo,
    ) -> (r: Result<ChangesetPathDiffContext, crate::errors::ErrorKind>)
        ensures
            base is Some && other is None && copy_info is NoCopy ==> (r matches Ok(c) && c
                is Added),
            base is None && other is Some && copy_info is NoCopy ==> (r matches Ok(c) && c
                is Removed),
            base is Some && other is Some && copy_info is NoCopy ==> (r matches Ok(c) && c
                is Changed),
            base is Some && other is Some && copy_info is Copy ==> (r matches Ok(c) && c
                is Copied),
            base is Some && other is Some && copy_info is Move ==> (r matches Ok(c) && c
                is Moved),
            base is None && other is None ==> r is Err,
            base is Some && other is None && !(copy_info is NoCopy) ==> r is Err,
            base is None && other is Some && !(copy_info is NoCopy) ==> r is Err,
            r matches Ok(c) ==> ({
                &&& (c matches ChangesetPathDiffContext::Added(b) ==> base matches Some(bb)
                    && b.path@ == bb.path@)
                &&& (c matches ChangesetPathDiffContext::Removed(o) ==> other matches Some(oo)
                    && o.path@ == oo.path@)
                &&& (c matches ChangesetPathDiffContext::Changed(b, _) ==> base matches Some(bb)
                    && b.path@ == bb.path@)
                &&& (c matches ChangesetPathDiffContext::Changed(_, o) ==> other matches Some(
                    oo,
                ) && o.path@ == oo.path@)
                &&& (c matches ChangesetPathDiffContext::Copied(b, _) ==> base matches Some(bb)
                    && b.path@ == bb.path@)
                &&& (c matches ChangesetPathDiffContext::Copied(_, o) ==> other matches Some(
                    oo,
                ) && o.path@ == oo.path@)
                &&& (c matches ChangesetPathDiffContext::Moved(b, _) ==> base matches Some(bb)
                    && b.path@ == bb.path@)
                &&& (c matches ChangesetPathDiffContext::Moved(_, o) ==> other matches Some(
                    oo,
                ) && o.path@ == oo.path@)
            }),
    {
        match (base, other, copy_info) {
            (Some(base), None, CopyInfo::NoCopy) => Ok(ChangesetPathDiffContext::Added(base)),
            (None, Some(other), CopyInfo::NoCopy) => Ok(
                ChangesetPathDiffContext::Removed(other),
            ),
            (Some(base), Some(other), CopyInfo::NoCopy) => Ok(
                ChangesetPathDiffContext::Changed(base, other),
            ),
            (Some(base), Some(other), CopyInfo::Copy) => Ok(
                ChangesetPathDiffContext::Copied(base, other),
            ),
            (Some(base), Some(other), CopyInfo::Move) => Ok(
                ChangesetPathDiffContext::Moved(base, other),
            ),
            _ => Err(crate::errors::ErrorKind::InternalInvariant),
        }
    }

    /// The base path that is being compared: the contents after the
    /// modification. A removal has none.
    pub fn base(&self) -> (r: Option<&ChangesetPathContentContext>)
        ensures
            self is Removed <==> r is None,
            self matches ChangesetPathDiffContext::Added(b) ==> (r matches Some(q) && q.path@
                == b.path@),
            self matches ChangesetPathDiffContext::Changed(b, _) ==> (r matches Some(q) && q.path@
                == b.path@),
            self matches ChangesetPathDiffContext::Copied(b, _) ==> (r matches Some(q) && q.path@
                == b.path@),
            self matches ChangesetPathDiffContext::Moved(b, _) ==> (r matches Some(q) && q.path@
                == b.path@),
    {
        match self {
            ChangesetPathDiffContext::Added(base) => Some(base),
            ChangesetPathDiffContext::Changed(base, _) => Some(base),
            ChangesetPathDiffContext::Copied(base, _) => Some(base),
            ChangesetPathDiffContext::Moved(base, _) => Some(base),
            ChangesetPathDiffContext::Removed(_) => None,
        }
    }

    /// The other path that is being compared against: the contents before
    /// the modification. An addition has none.
    pub fn other(&self) -> (r: Option<&ChangesetPathContentContext>)
        ensures
            self is Added <==> r is None,
            self matches ChangesetPathDiffContext::Removed(o) ==> (r matches Some(q) && q.path@
                == o.path@),
            self matches ChangesetPathDiffContext::Changed(_, o) ==> (r matches Some(q) && q.path@
                == o.path@),
            self matches ChangesetPathDiffContext::Copied(_, o) ==> (r matches Some(q) && q.path@
                == o.path@),
            self matches ChangesetPathDiffContext::Moved(_, o) ==> (r matches Some(q) && q.path@
                == o.path@),
    {
        match self {
            ChangesetPathDiffContext::Removed(other) => Some(other),
            ChangesetPathDiffContext::Changed(_, other) => Some(other),
            ChangesetPathDiffContext::Copied(_, other) => Some(other),
            ChangesetPathDiffContext::Moved(_, other) => Some(other),
            ChangesetPathDiffContext::Added(_) => None,
        }
    }

    /// The main path of this difference: the added or removed path, or
    /// the destination of a modification, copy, or move.
    pub fn path(&self) -> (r: &ChangesetPathContentContext)
        ensures
            self matches ChangesetPathDiffContext::Added(b) ==> r.path@ == b.path@,
            self matches ChangesetPathDiffContext::Changed(b, _) ==> r.path@ == b.path@,
            self matches ChangesetPathDiffContext::Copied(b, _) ==> r.path@ == b.path@,
            self matches ChangesetPathDiffContext::Moved(b, _) ==> r.path@ == b.path@,
            self matches ChangesetPathDiffContext::Removed(o) ==> r.path@ == o.path@,
    {
        match self {
            ChangesetPathDiffContext::Added(base) => base,
            ChangesetPathDiffContext::Changed(base, _) => base,
            ChangesetPathDiffContext::Copied(base, _) => base,
            ChangesetPathDiffContext::Moved(base, _) => base,
            ChangesetPathDiffContext::Removed(other) => other,
        }
    }

    /// The copy information of this difference.
    pub fn copy_info(&self) -> (r: CopyInfo)
        ensures
            self is Added || self is Removed || self is Changed ==> r is NoCopy,
            self is Copied ==> r is Copy,
            self is Moved ==> r is Move,
    {
        match self {
            ChangesetPathDiffContext::Added(_) => CopyInfo::NoCopy,
            ChangesetPathDiffContext::Removed(_) => CopyInfo::NoCopy,
            ChangesetPathDiffContext::Changed(_, _) => CopyInfo::NoCopy,
            ChangesetPathDiffContext::Copied(_, _) => CopyInfo::Copy,
            ChangesetPathDiffContext::Moved(_, _) => CopyInfo::Move,
        }
    }

    /// Assembles the metadata diff of this difference from both sides'
    /// already fetched and parsed contents and the line-diff hunks of the
    /// text pair.
    pub fn metadata_diff(
        &self,
        old_file_type: Option<FileType>,
        old_parsed: Option<&ParsedFileContent>,
        new_file_type: Option<FileType>,
        new_parsed: Option<&ParsedFileContent>,
        hunks: &Vec<Hunk>,
    ) -> (r: MetadataDiff)
        requires
            forall|k: int| 0 <= k < hunks@.len() ==> hunk_wf(#[trigger] hunks@[k]),
            old_parsed matches Some(p) ==> (p matches ParsedFileContent::Text(t) ==> metadata_wf(
                t.metadata,
            ) && t.metadata.newline_count <= usize::MAX),
            new_parsed matches Some(p) ==> (p matches ParsedFileContent::Text(t) ==> metadata_wf(
                t.metadata,
            ) && t.metadata.newline_count <= usize::MAX),
        ensures
            ({
                let old_text = parsed_text(old_parsed);
                let new_text = parsed_text(new_parsed);
                match (old_text, new_text) {
                    (Option::Some(ot), Option::Some(nt)) => r.lines_count == Option::Some(
                        spec_diff_files(ot, nt, hunks@),
                    ),
                    (Option::None, Option::None) => r.lines_count is None,
                    _ => r.lines_count is Some,
                }
            }),
    {
        MetadataDiff {
            old_file_info: MetadataDiffFileInfo::new(old_file_type, old_parsed),
            new_file_info: MetadataDiffFileInfo::new(new_file_type, new_parsed),
            lines_count: MetadataDiffLinesCount::new(old_parsed, new_parsed, hunks),
        }
    }
}

} // verus!

