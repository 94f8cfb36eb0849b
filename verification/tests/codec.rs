use repo_commit::filemeta::parse_copy_info;
use repo_commit::hash::NodeHash;
use repo_commit::histpack::{
    assemble_named_pack, assemble_pack, read_pack_keys, topo_sort, FileSectionHeader,
    HistoryEntry, HistoryPackVersion, MutableHistoryPack, NodeInfo, PackError, PackKey,
};
use repo_commit::metadiff::{
    ChangesetPathContentContext, ChangesetPathDiffContext, ContentMetadataV2, CopyInfo,
    FileGeneratedSpan, FileGeneratedStatus, FileContentType, Hunk, MetadataDiffFileInfo,
    MetadataDiffLinesCount, ParsedFileContent, TextFile, UnifiedDiffMode,
};
use repo_commit::path::MPath;

fn h(n: u8) -> NodeHash {
    NodeHash::new(vec![n; 20])
}

fn mp(s: &str) -> MPath {
    MPath::new(s.as_bytes()).expect("invalid path")
}

#[test]
fn history_pack_version_round_trips_its_header_byte() {
    assert!(matches!(HistoryPackVersion::new(0), Ok(HistoryPackVersion::Zero)));
    assert!(matches!(HistoryPackVersion::new(1), Ok(HistoryPackVersion::One)));
    assert!(matches!(
        HistoryPackVersion::new(7),
        Err(PackError::InvalidVersion(7))
    ));
    assert_eq!(u8::from(HistoryPackVersion::Zero), 0);
    assert_eq!(u8::from(HistoryPackVersion::One), 1);
}

#[test]
fn section_header_round_trips() {
    let header = FileSectionHeader { file_name: b"some/file".to_vec(), count: 70000 };
    let mut buf: Vec<u8> = Vec::new();
    header.write(&mut buf);
    assert_eq!(buf.len(), 2 + 9 + 4);
    assert_eq!(&buf[0..2], &[0, 9]);

    let (back, used) = FileSectionHeader::read(&buf).expect("read back");
    assert_eq!(back.file_name, b"some/file".to_vec());
    assert_eq!(back.count, 70000);
    assert_eq!(used, buf.len());

    // A truncated buffer is refused.
    buf.pop();
    assert!(matches!(
        FileSectionHeader::read(&buf),
        Err(PackError::ShortBuffer)
    ));
}

#[test]
fn history_entry_round_trips_with_copy_source() {
    let mut buf: Vec<u8> = Vec::new();
    HistoryEntry::write(
        &mut buf,
        &h(1),
        &h(2),
        &h(3),
        &h(4),
        &Some(b"from/here".to_vec()),
    );
    assert_eq!(buf.len(), 80 + 2 + 9);
    let (e, used) = HistoryEntry::read(&buf).expect("read back");
    assert_eq!(e.node.bytes, vec![1u8; 20]);
    assert_eq!(e.p1.bytes, vec![2u8; 20]);
    assert_eq!(e.p2.bytes, vec![3u8; 20]);
    assert_eq!(e.link_node.bytes, vec![4u8; 20]);
    assert_eq!(e.copy_from, Some(b"from/here".to_vec()));
    assert_eq!(used, buf.len());
}

#[test]
fn history_entry_round_trips_without_copy_source() {
    let mut buf: Vec<u8> = Vec::new();
    HistoryEntry::write(&mut buf, &h(5), &h(6), &h(7), &h(8), &None);
    assert_eq!(buf.len(), 82);
    let (e, used) = HistoryEntry::read(&buf).expect("read back");
    assert_eq!(e.node.bytes, vec![5u8; 20]);
    assert!(e.copy_from.is_none());
    assert_eq!(used, 82);
    assert!(matches!(
        HistoryEntry::read(&buf[..81].to_vec()),
        Err(PackError::ShortBuffer)
    ));
}

#[test]
fn copy_info_parses_exactly() {
    let mut content: Vec<u8> = Vec::new();
    content.extend_from_slice(&[1, 10]);
    content.extend_from_slice(b"copy: old/place.txt\n");
    content.extend_from_slice(b"copyrev: 00ff00ff00ff00ff00ff00ff00ff00ff00ff00ff");
    content.extend_from_slice(&[1, 10]);
    content.extend_from_slice(b"payload");

    let (path, hash) = parse_copy_info(&content).expect("copy info");
    assert_eq!(String::from_utf8(path.to_vec()).unwrap(), "old/place.txt");
    let mut expected: Vec<u8> = Vec::new();
    for _ in 0..10 {
        expected.push(0x00);
        expected.push(0xff);
    }
    assert_eq!(hash.bytes, expected);
}

#[test]
fn copy_info_absent_or_malformed_is_none() {
    // No metadata region at all.
    assert!(parse_copy_info(&b"plain content".to_vec()).is_none());

    // A region without both keys.
    let mut only_copy: Vec<u8> = Vec::new();
    only_copy.extend_from_slice(&[1, 10]);
    only_copy.extend_from_slice(b"copy: old.txt");
    only_copy.extend_from_slice(&[1, 10]);
    assert!(parse_copy_info(&only_copy).is_none());

    // A bad revision: wrong length.
    let mut bad_rev: Vec<u8> = Vec::new();
    bad_rev.extend_from_slice(&[1, 10]);
    bad_rev.extend_from_slice(b"copy: old.txt\ncopyrev: 1234");
    bad_rev.extend_from_slice(&[1, 10]);
    assert!(parse_copy_info(&bad_rev).is_none());

    // An unterminated region.
    let mut open_region: Vec<u8> = Vec::new();
    open_region.extend_from_slice(&[1, 10]);
    open_region.extend_from_slice(b"copy: old.txt");
    assert!(parse_copy_info(&open_region).is_none());
}

fn text_metadata(newlines: u64, ends_in_newline: bool, generated: bool) -> ContentMetadataV2 {
    ContentMetadataV2 {
        is_binary: false,
        is_utf8: true,
        ends_in_newline,
        newline_count: newlines,
        is_generated: generated,
        is_partially_generated: false,
    }
}

#[test]
fn generated_span_finds_manual_sections() {
    let content = b"\
// @generated by a tool\n\
fn a() {}\n\
// BEGIN MANUAL SECTION\n\
fn by_hand() {}\n\
fn also_by_hand() {}\n\
// END MANUAL SECTION\n\
fn b() {}\n";
    let meta = text_metadata(7, true, true);
    let span = FileGeneratedSpan::new(&content.to_vec(), &meta);
    match span {
        FileGeneratedSpan::PartiallyGenerated(secs) => {
            // The manual lines are the two after the opening marker, up
            // to the line of the closing marker.
            assert_eq!(secs, vec![(3, 5)]);
        }
        _ => panic!("expected a partially generated file"),
    }
}

#[test]
fn generated_span_without_sections_is_fully_generated() {
    let content = b"// @generated\neverything machine made\n";
    let meta = text_metadata(2, true, true);
    let span = FileGeneratedSpan::new(&content.to_vec(), &meta);
    assert!(matches!(span, FileGeneratedSpan::FullyGenerated));

    // Without the annotation the metadata claim is not believed.
    let content = b"nothing special\n";
    let span = FileGeneratedSpan::new(&content.to_vec(), &meta);
    assert!(matches!(span, FileGeneratedSpan::NotGenerated));

    // Without the metadata claim the content is not even scanned.
    let content = b"// @generated\n";
    let span = FileGeneratedSpan::new(&content.to_vec(), &text_metadata(1, true, false));
    assert!(matches!(span, FileGeneratedSpan::NotGenerated));
}

#[test]
fn lines_counting_follows_metadata() {
    let t = TextFile::new(b"a\nb\nc\n".to_vec(), text_metadata(3, true, false));
    assert_eq!(t.lines(), 2);
    let t = TextFile::new(b"a\nb\nc".to_vec(), text_metadata(2, false, false));
    assert_eq!(t.lines(), 2);
}

#[test]
fn diff_counts_fold_hunks_exactly() {
    let old_file = TextFile::new(b"one\ntwo\nthree\n".to_vec(), text_metadata(3, true, false));
    let new_file = TextFile::new(b"one\nTWO\nthree\nfour\n".to_vec(), text_metadata(4, true, false));
    let hunks = vec![
        Hunk { add_start: 1, add_end: 2, remove_start: 1, remove_end: 2 },
        Hunk { add_start: 3, add_end: 4, remove_start: 3, remove_end: 3 },
    ];
    let counts = MetadataDiffLinesCount::diff_files(&old_file, &new_file, &hunks);
    assert_eq!(counts.added_lines_count, 2);
    assert_eq!(counts.deleted_lines_count, 1);
    assert_eq!(counts.significant_added_lines_count, 2);
    assert_eq!(counts.significant_deleted_lines_count, 1);
    assert_eq!(counts.first_added_line_number, Some(2));
}

#[test]
fn created_and_deleted_files_count_whole() {
    let t = TextFile::new(b"a\nb\n".to_vec(), text_metadata(2, true, false));
    let created = MetadataDiffLinesCount::file_created(&t);
    assert_eq!(created.added_lines_count, 1);
    assert_eq!(created.significant_added_lines_count, 1);
    assert_eq!(created.first_added_line_number, Some(1));
    let deleted = MetadataDiffLinesCount::file_deleted(&t);
    assert_eq!(deleted.deleted_lines_count, 1);
    assert_eq!(deleted.added_lines_count, 0);
    assert!(deleted.first_added_line_number.is_none());
}

#[test]
fn parsed_content_classifies_by_metadata() {
    let mut meta = text_metadata(1, false, false);
    meta.is_binary = true;
    assert!(matches!(
        ParsedFileContent::from_fetched(meta, b"\0\0".to_vec()),
        ParsedFileContent::Binary
    ));
    let mut meta = text_metadata(1, false, false);
    meta.is_utf8 = false;
    assert!(matches!(
        ParsedFileContent::from_fetched(meta, vec![0xff, 0xfe]),
        ParsedFileContent::NonUtf8
    ));
    let info = MetadataDiffFileInfo::new(
        None,
        Some(&ParsedFileContent::from_fetched(text_metadata(1, false, false), b"x".to_vec())),
    );
    assert!(matches!(info.file_content_type, Some(FileContentType::Text)));
    assert!(matches!(
        info.file_generated_status,
        Some(FileGeneratedStatus::NotGenerated)
    ));
}

#[test]
fn path_diff_context_exposes_its_sides() {
    let base = ChangesetPathContentContext { path: mp("dst.txt") };
    let other = ChangesetPathContentContext { path: mp("src.txt") };
    let ctx = ChangesetPathDiffContext::new(Some(base), Some(other), CopyInfo::Move)
        .expect("a moved file");
    assert!(matches!(ctx.copy_info(), CopyInfo::Move));
    assert_eq!(
        String::from_utf8(ctx.base().expect("base").path().to_vec()).unwrap(),
        "dst.txt"
    );
    assert_eq!(
        String::from_utf8(ctx.other().expect("other").path().to_vec()).unwrap(),
        "src.txt"
    );
    assert_eq!(String::from_utf8(ctx.path().path().to_vec()).unwrap(), "dst.txt");

    assert!(ChangesetPathDiffContext::new(None, None, CopyInfo::NoCopy).is_err());
    let lone = ChangesetPathContentContext { path: mp("a") };
    assert!(ChangesetPathDiffContext::new(Some(lone), None, CopyInfo::Copy).is_err());

    // The rendering mode is plain data.
    assert_ne!(UnifiedDiffMode::Inline, UnifiedDiffMode::OmitContent);
}

#[test]
fn pack_bytes_list_their_keys_in_order() {
    // A pack of two sections, written with the verified writers and read
    // back as (file name, node) keys.
    let mut buf: Vec<u8> = vec![1];
    FileSectionHeader { file_name: b"file/one".to_vec(), count: 2 }.write(&mut buf);
    HistoryEntry::write(&mut buf, &h(1), &h(0), &h(0), &h(9), &None);
    HistoryEntry::write(&mut buf, &h(2), &h(1), &h(0), &h(9), &Some(b"file/zero".to_vec()));
    FileSectionHeader { file_name: b"file/two".to_vec(), count: 1 }.write(&mut buf);
    HistoryEntry::write(&mut buf, &h(3), &h(0), &h(0), &h(9), &None);

    let keys = read_pack_keys(&buf).expect("a well-formed pack");
    let rendered: Vec<(String, u8)> = keys
        .iter()
        .map(|(name, node)| (String::from_utf8(name.clone()).unwrap(), node.bytes[0]))
        .collect();
    assert_eq!(
        rendered,
        vec![
            ("file/one".to_string(), 1),
            ("file/one".to_string(), 2),
            ("file/two".to_string(), 3),
        ]
    );

    // A truncated pack is refused; a bad version byte is named.
    buf.pop();
    assert!(matches!(read_pack_keys(&buf), Err(PackError::ShortBuffer)));
    assert!(matches!(
        read_pack_keys(&vec![5, 0, 0]),
        Err(PackError::InvalidVersion(5))
    ));
    assert!(read_pack_keys(&vec![1]).expect("empty pack").is_empty());
}

#[test]
fn generated_span_edge_markers() {
    // A closing marker with no opening one closes nothing; an unclosed
    // opening marker contributes no section, so the file counts as fully
    // generated.
    let content = b"// END MANUAL SECTION
// @generated
// BEGIN MANUAL SECTION
never closed
";
    let meta = ContentMetadataV2 {
        is_binary: false,
        is_utf8: true,
        ends_in_newline: true,
        newline_count: 4,
        is_generated: true,
        is_partially_generated: false,
    };
    let span = FileGeneratedSpan::new(&content.to_vec(), &meta);
    assert!(matches!(span, FileGeneratedSpan::FullyGenerated));
}

#[test]
fn generated_span_handles_carriage_returns() {
    // Windows line endings: the carriage return is stripped before the
    // markers are matched, so the section is still found.
    let content =
        b"// @generated\r\n// BEGIN MANUAL SECTION\r\nmine\r\n// END MANUAL SECTION\r\n";
    let meta = ContentMetadataV2 {
        is_binary: false,
        is_utf8: true,
        ends_in_newline: true,
        newline_count: 4,
        is_generated: true,
        is_partially_generated: false,
    };
    let span = FileGeneratedSpan::new(&content.to_vec(), &meta);
    match span {
        FileGeneratedSpan::PartiallyGenerated(secs) => assert_eq!(secs, vec![(2, 3)]),
        _ => panic!("expected a partially generated file"),
    }
}

#[test]
fn partially_generated_marker_is_recognized() {
    // The partial marker does not contain the plain one: a file whose
    // only annotation line carries it must still count as generated.
    let content = b"// @partially-generated by a tool\nmachine made\n";
    let meta = ContentMetadataV2 {
        is_binary: false,
        is_utf8: true,
        ends_in_newline: true,
        newline_count: 2,
        is_generated: false,
        is_partially_generated: true,
    };
    let span = FileGeneratedSpan::new(&content.to_vec(), &meta);
    assert!(matches!(span, FileGeneratedSpan::FullyGenerated));

    // With a closed manual section it is partially generated.
    let content =
        b"// @partially-generated\n// BEGIN MANUAL SECTION\nmine\n// END MANUAL SECTION\n";
    let meta = ContentMetadataV2 {
        is_binary: false,
        is_utf8: true,
        ends_in_newline: true,
        newline_count: 4,
        is_generated: false,
        is_partially_generated: true,
    };
    let span = FileGeneratedSpan::new(&content.to_vec(), &meta);
    match span {
        FileGeneratedSpan::PartiallyGenerated(secs) => assert_eq!(secs, vec![(2, 3)]),
        _ => panic!("expected a partially generated file"),
    }
}

#[test]
fn path_diff_context_keeps_both_sides_in_order() {
    let base = ChangesetPathContentContext { path: mp("dst.txt") };
    let other = ChangesetPathContentContext { path: mp("src.txt") };
    let ctx = ChangesetPathDiffContext::new(Some(base), Some(other), CopyInfo::NoCopy)
        .expect("a changed file");
    assert_eq!(
        String::from_utf8(ctx.base().expect("base").path().to_vec()).unwrap(),
        "dst.txt"
    );
    assert_eq!(
        String::from_utf8(ctx.other().expect("other").path().to_vec()).unwrap(),
        "src.txt"
    );

    let base = ChangesetPathContentContext { path: mp("dst.txt") };
    let other = ChangesetPathContentContext { path: mp("src.txt") };
    let ctx = ChangesetPathDiffContext::new(Some(base), Some(other), CopyInfo::Copy)
        .expect("a copied file");
    assert_eq!(
        String::from_utf8(ctx.base().expect("base").path().to_vec()).unwrap(),
        "dst.txt"
    );
    assert_eq!(
        String::from_utf8(ctx.other().expect("other").path().to_vec()).unwrap(),
        "src.txt"
    );
}

fn key(name: &str, node: u8) -> PackKey {
    PackKey::new(name.as_bytes().to_vec(), h(node))
}

fn info(p1: PackKey, p2: PackKey, link: u8) -> NodeInfo {
    NodeInfo { p1, p2, linknode: h(link) }
}

fn null_key() -> PackKey {
    PackKey::new(Vec::new(), NodeHash::new(vec![0u8; 20]))
}

#[test]
fn mutable_pack_records_and_overwrites() {
    let mut pack = MutableHistoryPack::new(HistoryPackVersion::One);
    let k1 = key("file/one", 1);
    pack.add(&k1, &info(null_key(), null_key(), 9));
    pack.add(&key("file/two", 2), &info(key("file/two", 1), null_key(), 9));
    // Adding the same key again replaces the earlier record.
    pack.add(&k1, &info(key("file/one", 3), null_key(), 8));

    let got = pack.get_node_info(&k1).expect("recorded");
    assert_eq!(got.p1.node.bytes, vec![3u8; 20]);
    assert_eq!(got.linknode.bytes, vec![8u8; 20]);

    assert!(matches!(
        pack.get_node_info(&key("file/one", 7)),
        Err(PackError::NotInIndex)
    ));
}

#[test]
fn mutable_pack_get_missing_keeps_lookup_order() {
    let mut pack = MutableHistoryPack::new(HistoryPackVersion::One);
    pack.add(&key("a", 1), &info(null_key(), null_key(), 9));
    pack.add(&key("b", 2), &info(null_key(), null_key(), 9));

    let lookup = vec![key("z", 5), key("a", 1), key("a", 4), key("b", 2)];
    let missing = pack.get_missing(&lookup);
    let rendered: Vec<(String, u8)> = missing
        .iter()
        .map(|k| (String::from_utf8(k.name.clone()).unwrap(), k.node.bytes[0]))
        .collect();
    assert_eq!(
        rendered,
        vec![("z".to_string(), 5), ("a".to_string(), 4)]
    );
}

#[test]
fn entry_for_detects_copy_sources() {
    // A non-null first parent under another name is a copy source.
    let e = MutableHistoryPack::entry_for(
        &key("new/name", 2),
        &info(key("old/name", 1), null_key(), 9),
    );
    assert_eq!(e.copy_from, Some(b"old/name".to_vec()));
    assert_eq!(e.node.bytes, vec![2u8; 20]);
    assert_eq!(e.p1.bytes, vec![1u8; 20]);

    // The same name, or a null first parent, carries none.
    let e = MutableHistoryPack::entry_for(
        &key("new/name", 2),
        &info(key("new/name", 1), null_key(), 9),
    );
    assert!(e.copy_from.is_none());
    let e = MutableHistoryPack::entry_for(
        &key("new/name", 2),
        &info(null_key(), key("other", 1), 9),
    );
    assert!(e.copy_from.is_none());
}

#[test]
fn assembled_pack_round_trips_through_the_reader() {
    let one = MutableHistoryPack::entry_for(
        &key("file/one", 1),
        &info(null_key(), null_key(), 9),
    );
    let two = MutableHistoryPack::entry_for(
        &key("file/one", 2),
        &info(key("file/zero", 1), null_key(), 9),
    );
    let three = MutableHistoryPack::entry_for(
        &key("file/two", 3),
        &info(null_key(), null_key(), 9),
    );
    let sections = vec![
        (b"file/one".to_vec(), vec![one, two]),
        (b"file/two".to_vec(), vec![three]),
    ];
    let bytes = assemble_pack(HistoryPackVersion::One, &sections);
    assert_eq!(bytes[0], 1);

    let keys = read_pack_keys(&bytes).expect("a well-formed pack");
    let rendered: Vec<(String, u8)> = keys
        .iter()
        .map(|(name, node)| (String::from_utf8(name.clone()).unwrap(), node.bytes[0]))
        .collect();
    assert_eq!(
        rendered,
        vec![
            ("file/one".to_string(), 1),
            ("file/one".to_string(), 2),
            ("file/two".to_string(), 3),
        ]
    );
}

#[test]
fn topo_sort_puts_every_record_before_its_parents() {
    // A diamond: two middle records share the root as a parent, the tip
    // merges both.
    let root = key("f", 1);
    let left = key("f", 2);
    let right = key("f", 3);
    let tip = key("f", 4);
    let records = vec![
        (tip.dup(), info(left.dup(), right.dup(), 9)),
        (root.dup(), info(null_key(), null_key(), 9)),
        (left.dup(), info(root.dup(), null_key(), 9)),
        (right.dup(), info(root.dup(), null_key(), 9)),
    ];
    let sorted = topo_sort(&records).expect("an acyclic history");
    // The order is pinned exactly: the schedule repeatedly takes the
    // lowest-index ready record (root, left, right, tip) and lists them
    // newest first.
    let order: Vec<u8> = sorted.iter().map(|(k, _)| k.node.bytes[0]).collect();
    assert_eq!(order, vec![4, 3, 2, 1]);
    let position = |node: u8| {
        sorted
            .iter()
            .position(|(k, _)| k.node.bytes[0] == node)
            .expect("every record is kept")
    };
    // Newest first: each record stands before its held parents.
    assert!(position(4) < position(2));
    assert!(position(4) < position(3));
    assert!(position(2) < position(1));
    assert!(position(3) < position(1));

    // The whole sort is deterministic: a second run gives the same list.
    let again = topo_sort(&records).expect("an acyclic history");
    let order_again: Vec<u8> = again.iter().map(|(k, _)| k.node.bytes[0]).collect();
    assert_eq!(order, order_again);
}

#[test]
fn topo_sort_reports_cycles() {
    let a = key("f", 1);
    let b = key("f", 2);
    let records = vec![
        (a.dup(), info(b.dup(), null_key(), 9)),
        (b.dup(), info(a.dup(), null_key(), 9)),
    ];
    assert!(matches!(topo_sort(&records), Err(PackError::CyclicHistory)));
}

#[test]
fn pack_sections_come_out_sorted_and_grouped() {
    let mut pack = MutableHistoryPack::new(HistoryPackVersion::One);
    pack.add(&key("zeta", 1), &info(null_key(), null_key(), 9));
    pack.add(&key("alpha", 2), &info(null_key(), null_key(), 9));
    pack.add(&key("alpha", 3), &info(key("alpha", 2), null_key(), 9));
    pack.add(&key("zeta", 1), &info(null_key(), null_key(), 8));

    let names: Vec<String> = pack
        .sorted_names()
        .into_iter()
        .map(|n| String::from_utf8(n).unwrap())
        .collect();
    assert_eq!(names, vec!["alpha".to_string(), "zeta".to_string()]);

    let alpha = pack.records_named(&b"alpha".to_vec());
    assert_eq!(alpha.len(), 2);
    assert_eq!(alpha[0].0.node.bytes, vec![2u8; 20]);
    assert_eq!(alpha[1].0.node.bytes, vec![3u8; 20]);

    // The overwritten record keeps only its latest information.
    let zeta = pack.records_named(&b"zeta".to_vec());
    assert_eq!(zeta.len(), 1);
    assert_eq!(zeta[0].1.linknode.bytes, vec![8u8; 20]);

    // Ordered, turned to wire entries and assembled, the records read
    // back as keys grouped under their sorted names.
    let ordered = topo_sort(&alpha).expect("acyclic");
    let entries: Vec<HistoryEntry> = ordered
        .iter()
        .map(|(k, i)| MutableHistoryPack::entry_for(k, i))
        .collect();
    let order: Vec<u8> = entries.iter().map(|e| e.node.bytes[0]).collect();
    assert_eq!(order, vec![3, 2]);
    let sections = vec![(b"alpha".to_vec(), entries)];
    let bytes = assemble_pack(HistoryPackVersion::One, &sections);
    let keys = read_pack_keys(&bytes).expect("well formed");
    assert_eq!(keys.len(), 2);
    assert_eq!(String::from_utf8(keys[0].0.clone()).unwrap(), "alpha");
}

#[test]
fn assembled_pack_names_are_pinned_hex_digests() {
    let e = MutableHistoryPack::entry_for(&key("f", 1), &info(null_key(), null_key(), 9));
    let sections = vec![(b"f".to_vec(), vec![e])];
    let (bytes, name) = assemble_named_pack(HistoryPackVersion::One, &sections);
    assert_eq!(bytes[0], 1);
    assert_eq!(name.len(), 40);
    assert!(name.iter().all(|b| b.is_ascii_hexdigit()));

    // The name is a function of the bytes alone: assembling the same
    // sections again gives the same bytes and the same name.
    let e = MutableHistoryPack::entry_for(&key("f", 1), &info(null_key(), null_key(), 9));
    let sections = vec![(b"f".to_vec(), vec![e])];
    let (bytes2, name2) = assemble_named_pack(HistoryPackVersion::One, &sections);
    assert_eq!(bytes, bytes2);
    assert_eq!(name, name2);
}
