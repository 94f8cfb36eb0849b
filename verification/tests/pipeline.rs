use repo_commit::changeset::{make_new_changeset, BonsaiChangeset, ChangesetMetadata, HgBlobChangeset};
use repo_commit::entry::{Entry, EntryContent, EntryType, FileType, HgParents, ManifestEntry};
use repo_commit::errors::ErrorKind;
use repo_commit::handle::{ChangesetHandle, CompletionSignal, IdentitySignal, IdentityTriple, RepoModel};
use repo_commit::hash::{BlobKey, ChangesetId, HgChangesetId, HgManifestId, NodeHash, RepositoryId};
use repo_commit::orchestrate::process_entries;
use repo_commit::parents::{
    await_parents_identity, extract_parents_complete, handle_parents, resolve_parent_linkage,
    IdentityWait, ParentsWait,
};
use repo_commit::path::{MPath, MPathElement, RepoPath};
use repo_commit::resolve::ParentResolver;
use repo_commit::upload::{FilenodeSink, StoreView, UploadEntries};

fn elem(s: &str) -> MPathElement {
    MPathElement::new(s.as_bytes().to_vec()).expect("invalid element")
}

fn mp(s: &str) -> MPath {
    MPath::new(s.as_bytes()).expect("invalid path")
}

fn h(n: u8) -> NodeHash {
    NodeHash::new(vec![n; 20])
}

fn file_entry(hash: u8, p1: Option<u8>, p2: Option<u8>, content: &[u8]) -> Entry {
    Entry {
        hash: h(hash),
        kind: EntryType::File(FileType::Regular),
        p1: p1.map(h),
        p2: p2.map(h),
        content: EntryContent::FileBytes(content.to_vec()),
    }
}

fn tree_entry(hash: u8, children: Vec<(&str, u8, EntryType)>) -> Entry {
    Entry {
        hash: h(hash),
        kind: EntryType::Tree,
        p1: None,
        p2: None,
        content: EntryContent::TreeContent(
            children
                .into_iter()
                .map(|(name, ch, kind)| ManifestEntry { name: elem(name), hash: h(ch), kind })
                .collect(),
        ),
    }
}

fn repoid() -> RepositoryId {
    RepositoryId { id: 7 }
}

#[test]
fn process_root_manifest_rejects_files() {
    let mut tracker = UploadEntries::new(repoid(), false);
    let entry = file_entry(1, None, None, b"data");
    match tracker.process_root_manifest(&entry) {
        Err(ErrorKind::NotAManifest(hash, kind)) => {
            assert_eq!(hash.bytes, vec![1u8; 20]);
            assert!(matches!(kind, EntryType::File(FileType::Regular)));
        }
        _ => panic!("expected NotAManifest"),
    }
}

#[test]
fn finalize_succeeds_when_all_requirements_are_met() {
    // Root tree requires one file child; the child is uploaded too, and
    // the file's parent reference sits in the store.
    let mut tracker = UploadEntries::new(repoid(), false);
    let root = tree_entry(1, vec![("a.txt", 2, EntryType::File(FileType::Regular))]);
    tracker.process_root_manifest(&root).expect("root");
    let child = file_entry(2, Some(3), None, b"contents");
    tracker
        .process_one_entry(&child, RepoPath::FilePath(mp("a.txt")))
        .expect("child");

    let mut store = StoreView::new();
    // The parent version of a.txt must already be durable.
    store.insert(BlobKey::derive(false, &h(3)));
    let mut sink = FilenodeSink::new();
    tracker.finalize(&store, &mut sink, h(9)).expect("finalize");

    assert_eq!(sink.batches.len(), 1);
    let (records, rid) = &sink.batches[0];
    assert_eq!(rid.id, 7);
    // One record per uploaded blob: the root tree and the file.
    assert_eq!(records.len(), 2);
}

#[test]
fn finalize_reports_missing_required_blob() {
    // The root tree names a child that is neither uploaded nor stored.
    let mut tracker = UploadEntries::new(repoid(), true);
    let root = tree_entry(1, vec![("gone.txt", 2, EntryType::File(FileType::Regular))]);
    tracker.process_root_manifest(&root).expect("root");

    let store = StoreView::new();
    let mut sink = FilenodeSink::new();
    match tracker.finalize(&store, &mut sink, h(9)) {
        Err(ErrorKind::MissingBlob(path)) => {
            let p = path.mpath().expect("a real path");
            assert_eq!(String::from_utf8(p.to_vec()).unwrap(), "gone.txt");
        }
        _ => panic!("expected MissingBlob"),
    }
}

#[test]
fn finalize_reports_missing_parent() {
    let mut tracker = UploadEntries::new(repoid(), true);
    let child = file_entry(2, Some(3), None, b"contents");
    tracker
        .process_one_entry(&child, RepoPath::FilePath(mp("a.txt")))
        .expect("child");

    let store = StoreView::new();
    let mut sink = FilenodeSink::new();
    match tracker.finalize(&store, &mut sink, h(9)) {
        Err(ErrorKind::MissingBlob(path)) => {
            let p = path.mpath().expect("a real path");
            assert_eq!(String::from_utf8(p.to_vec()).unwrap(), "a.txt");
        }
        _ => panic!("expected MissingBlob"),
    }
}

#[test]
fn draft_finalize_never_touches_the_sink() {
    let mut tracker = UploadEntries::new(repoid(), true);
    let root = tree_entry(1, vec![("a.txt", 2, EntryType::File(FileType::Regular))]);
    tracker.process_root_manifest(&root).expect("root");
    let child = file_entry(2, None, None, b"contents");
    tracker
        .process_one_entry(&child, RepoPath::FilePath(mp("a.txt")))
        .expect("child");

    let store = StoreView::new();
    let mut sink = FilenodeSink::new();
    tracker.finalize(&store, &mut sink, h(9)).expect("finalize");
    assert_eq!(sink.batches.len(), 0);
}

#[test]
fn filenode_records_carry_copy_provenance() {
    // A parentless file whose content embeds copy metadata yields a
    // record with provenance.
    let mut content: Vec<u8> = Vec::new();
    content.extend_from_slice(&[1, 10]);
    content.extend_from_slice(b"copy: old/name.txt\n");
    content.extend_from_slice(b"copyrev: 0303030303030303030303030303030303030303");
    content.extend_from_slice(&[1, 10]);
    content.extend_from_slice(b"the real data");

    let mut tracker = UploadEntries::new(repoid(), false);
    let child = file_entry(2, None, None, &content);
    tracker
        .process_one_entry(&child, RepoPath::FilePath(mp("new/name.txt")))
        .expect("child");

    let store = StoreView::new();
    let mut sink = FilenodeSink::new();
    tracker.finalize(&store, &mut sink, h(9)).expect("finalize");
    let (records, _) = &sink.batches[0];
    assert_eq!(records.len(), 1);
    let record = &records[0];
    let (copy_path, copy_hash) = record.copyfrom.as_ref().expect("copy info");
    let p = copy_path.mpath().expect("a real path");
    assert_eq!(String::from_utf8(p.to_vec()).unwrap(), "old/name.txt");
    assert_eq!(copy_hash.hash.bytes, vec![3u8; 20]);
    assert_eq!(record.linknode.hash.bytes, vec![9u8; 20]);
}

#[test]
fn copy_provenance_is_skipped_for_parented_files() {
    // The same content, but the blob records a parent: the provenance is
    // deliberately not consulted.
    let mut content: Vec<u8> = Vec::new();
    content.extend_from_slice(&[1, 10]);
    content.extend_from_slice(b"copy: old/name.txt\n");
    content.extend_from_slice(b"copyrev: 0303030303030303030303030303030303030303");
    content.extend_from_slice(&[1, 10]);

    let mut tracker = UploadEntries::new(repoid(), false);
    let child = file_entry(2, Some(4), None, &content);
    tracker
        .process_one_entry(&child, RepoPath::FilePath(mp("new/name.txt")))
        .expect("child");

    let mut store = StoreView::new();
    store.insert(BlobKey::derive(false, &h(4)));
    let mut sink = FilenodeSink::new();
    tracker.finalize(&store, &mut sink, h(9)).expect("finalize");
    let (records, _) = &sink.batches[0];
    assert!(records[0].copyfrom.is_none());
    assert_eq!(records[0].p1.as_ref().expect("p1").hash.bytes, vec![4u8; 20]);
}

#[test]
fn process_entries_empty_commit_yields_null_tree() {
    let mut tracker = UploadEntries::new(repoid(), true);
    let mid = process_entries(&mut tracker, None, &vec![]).expect("empty commit");
    assert_eq!(mid.hash.bytes, vec![0u8; 20]);
}

#[test]
fn process_entries_rejects_misplaced_root() {
    let mut tracker = UploadEntries::new(repoid(), true);
    let root = tree_entry(1, vec![]);
    let r = process_entries(
        &mut tracker,
        Some((root, RepoPath::DirectoryPath(mp("not/root")))),
        &vec![],
    );
    assert!(matches!(r, Err(ErrorKind::BadRootManifest(EntryType::Tree))));

    let file_root = file_entry(2, None, None, b"x");
    let r = process_entries(&mut tracker, Some((file_root, RepoPath::RootPath)), &vec![]);
    assert!(matches!(r, Err(ErrorKind::BadRootManifest(_))));
}

#[test]
fn process_entries_returns_root_tree_identity() {
    let mut tracker = UploadEntries::new(repoid(), true);
    let root = tree_entry(1, vec![("a.txt", 2, EntryType::File(FileType::Regular))]);
    let child = file_entry(2, None, None, b"data");
    let mid = process_entries(
        &mut tracker,
        Some((root, RepoPath::RootPath)),
        &vec![(child, RepoPath::FilePath(mp("a.txt")))],
    )
    .expect("commit");
    assert_eq!(mid.hash.bytes, vec![1u8; 20]);
}

fn ready_handle(bonsai: u64, hg: u8, mf: u8) -> ChangesetHandle {
    let triple = IdentityTriple {
        bonsai_id: ChangesetId { v: bonsai },
        hg_hash: h(hg),
        manifest_id: HgManifestId::new(h(mf)),
    };
    let cs = HgBlobChangeset {
        id: HgChangesetId::new(h(hg)),
        parents: HgParents::Zero,
        manifest_id: HgManifestId::new(h(mf)),
        metadata: ChangesetMetadata { user: b"u".to_vec(), time: 0, comments: vec![] },
        files: vec![],
    };
    ChangesetHandle::new_pending(
        IdentitySignal::Ready(triple),
        CompletionSignal::Ready(BonsaiChangeset { id: ChangesetId { v: bonsai } }, cs),
    )
}

#[test]
fn extract_parents_complete_chains_sequentially() {
    assert!(matches!(extract_parents_complete(&None, &None), ParentsWait::Satisfied));

    let done = ready_handle(1, 1, 2);
    let pending = ChangesetHandle::new_pending(IdentitySignal::Pending, CompletionSignal::Pending);

    // With both parents, the second is only examined once the first has
    // completed.
    let r = extract_parents_complete(&Some(pending), &Some(done.dup()));
    assert!(matches!(r, ParentsWait::BlockedOnFirst));

    let pending2 = ChangesetHandle::new_pending(IdentitySignal::Pending, CompletionSignal::Pending);
    let r = extract_parents_complete(&Some(done.dup()), &Some(pending2));
    assert!(matches!(r, ParentsWait::BlockedOnSecond));

    let r = extract_parents_complete(&Some(done.dup()), &Some(done));
    assert!(matches!(r, ParentsWait::Satisfied));
}

#[test]
fn handle_parents_assembles_parent_data_in_order() {
    let p1 = ready_handle(10, 1, 2);
    let p2 = ready_handle(20, 3, 4);
    let (parents, manifests, bonsai) = handle_parents(Some(&p1), Some(&p2));
    match parents {
        HgParents::Two(a, b) => {
            assert_eq!(a.bytes, vec![1u8; 20]);
            assert_eq!(b.bytes, vec![3u8; 20]);
        }
        _ => panic!("expected two parents"),
    }
    assert_eq!(manifests.len(), 2);
    assert_eq!(manifests[0].hash.bytes, vec![2u8; 20]);
    assert_eq!(manifests[1].hash.bytes, vec![4u8; 20]);
    assert_eq!(bonsai, vec![ChangesetId { v: 10 }, ChangesetId { v: 20 }]);

    // A single parent occupies the first slot, whichever side it came in.
    let lone = ready_handle(30, 5, 6);
    let (parents, manifests, bonsai) = handle_parents(None, Some(&lone));
    assert!(matches!(parents, HgParents::One(_)));
    assert_eq!(manifests.len(), 1);
    assert_eq!(bonsai, vec![ChangesetId { v: 30 }]);
}

#[test]
fn ready_cs_handle_resolves_or_reports_missing_mapping() {
    let cs = HgBlobChangeset {
        id: HgChangesetId::new(h(1)),
        parents: HgParents::Zero,
        manifest_id: HgManifestId::new(h(2)),
        metadata: ChangesetMetadata { user: b"u".to_vec(), time: 0, comments: vec![] },
        files: vec![],
    };
    let repo = RepoModel {
        bonsai_mapping: vec![(HgChangesetId::new(h(1)), ChangesetId { v: 42 })],
        hg_changesets: vec![(HgChangesetId::new(h(1)), cs)],
        bonsai_changesets: vec![(ChangesetId { v: 42 }, BonsaiChangeset { id: ChangesetId { v: 42 } })],
    };

    let handle = ChangesetHandle::ready_cs_handle(&repo, &HgChangesetId::new(h(1))).expect("handle");
    match &handle.can_be_parent {
        IdentitySignal::Ready(t) => {
            assert_eq!(t.bonsai_id, ChangesetId { v: 42 });
            assert_eq!(t.hg_hash.bytes, vec![1u8; 20]);
            assert_eq!(t.manifest_id.hash.bytes, vec![2u8; 20]);
        }
        _ => panic!("identity must have fired"),
    }
    assert!(matches!(
        handle.get_completed_changeset(),
        CompletionSignal::Ready(_, _)
    ));

    match ChangesetHandle::ready_cs_handle(&repo, &HgChangesetId::new(h(8))) {
        Err(ErrorKind::BonsaiMappingNotFound(id)) => {
            assert_eq!(id.hash.bytes, vec![8u8; 20]);
        }
        _ => panic!("expected BonsaiMappingNotFound"),
    }
}

#[test]
fn resolution_work_stays_linear_over_a_merge_ladder() {
    // A ladder of merges like a merge-heavy history: each commit merges
    // the two before it, so the number of distinct root-to-tip paths
    // grows exponentially with depth.
    let mut resolver = ParentResolver::new();
    let depth = 40;
    let mut prev2: Option<usize> = None;
    let mut prev1: Option<usize> = None;
    for _ in 0..depth {
        let idx = resolver.add_node(prev1, prev2, None);
        prev2 = prev1;
        prev1 = Some(idx);
    }
    // Many sibling awaits over shared ancestry.
    for _ in 0..100 {
        assert!(resolver.await_both_complete(prev1, prev2).is_none());
    }
    // The work is bounded by the number of commits, not by the number of
    // merge paths.
    assert!(resolver.work <= depth as u64);
    assert_eq!(resolver.node_count(), depth);
}

#[test]
fn resolution_failure_propagates_from_shared_ancestry() {
    let mut resolver = ParentResolver::new();
    let bad = resolver.add_node(None, None, Some(ErrorKind::InternalInvariant));
    let mid = resolver.add_node(Some(bad), None, None);
    let top = resolver.add_node(Some(mid), Some(bad), None);
    let r = resolver.await_both_complete(Some(top), None);
    assert!(matches!(r, Some(ErrorKind::InternalInvariant)));
    // Re-awaiting serves the memoized failure without more work.
    let w = resolver.work;
    let r = resolver.await_both_complete(Some(top), Some(mid));
    assert!(matches!(r, Some(ErrorKind::InternalInvariant)));
    assert_eq!(resolver.work, w);
}

#[test]
fn make_new_changeset_assembles_all_parts() {
    let cs = make_new_changeset(
        HgChangesetId::new(h(9)),
        HgParents::One(h(1)),
        HgManifestId::new(h(2)),
        ChangesetMetadata { user: b"author".to_vec(), time: 123, comments: b"msg".to_vec() },
        vec![mp("a"), mp("b")],
    );
    assert_eq!(cs.id.hash.bytes, vec![9u8; 20]);
    assert_eq!(cs.manifest_id.hash.bytes, vec![2u8; 20]);
    assert_eq!(cs.metadata.time, 123);
    assert_eq!(cs.files.len(), 2);
}

#[test]
fn finalize_accepts_requirements_satisfied_by_the_store() {
    // The root tree names a child that was not uploaded in this commit
    // but already sits in the blob store under its file key.
    let mut tracker = UploadEntries::new(repoid(), true);
    let root = tree_entry(1, vec![("kept.txt", 2, EntryType::File(FileType::Regular))]);
    tracker.process_root_manifest(&root).expect("root");

    let mut store = StoreView::new();
    store.insert(BlobKey::derive(false, &h(2)));
    let mut sink = FilenodeSink::new();
    tracker.finalize(&store, &mut sink, h(9)).expect("finalize");
}

#[test]
fn finalize_distinguishes_tree_and_file_keys() {
    // A required directory resolves under the tree key space; the same
    // hash under the file key space does not satisfy it.
    let mut tracker = UploadEntries::new(repoid(), true);
    let root = tree_entry(1, vec![("sub", 2, EntryType::Tree)]);
    tracker.process_root_manifest(&root).expect("root");

    let mut store = StoreView::new();
    store.insert(BlobKey::derive(false, &h(2)));
    let mut sink = FilenodeSink::new();
    assert!(matches!(
        tracker.finalize(&store, &mut sink, h(9)),
        Err(ErrorKind::MissingBlob(_))
    ));

    let mut tracker = UploadEntries::new(repoid(), true);
    let root = tree_entry(1, vec![("sub", 2, EntryType::Tree)]);
    tracker.process_root_manifest(&root).expect("root");
    let mut store = StoreView::new();
    store.insert(BlobKey::derive(true, &h(2)));
    tracker.finalize(&store, &mut sink, h(9)).expect("finalize");
}

#[test]
fn reprocessing_a_path_overwrites_the_record() {
    // Re-processing the same path replaces the uploaded record, so the
    // requirement is judged against the latest entry.
    let mut tracker = UploadEntries::new(repoid(), true);
    let first = file_entry(2, None, None, b"one");
    let second = file_entry(3, None, None, b"two");
    tracker
        .process_one_entry(&first, RepoPath::FilePath(mp("f")))
        .expect("first");
    tracker
        .process_one_entry(&second, RepoPath::FilePath(mp("f")))
        .expect("second");

    let store = StoreView::new();
    let mut sink = FilenodeSink::new();
    tracker.finalize(&store, &mut sink, h(9)).expect("finalize");
}

#[test]
fn identity_wait_chains_sequentially() {
    assert!(matches!(await_parents_identity(&None, &None), IdentityWait::Satisfied));

    let done = ready_handle(1, 1, 2);
    let pending = ChangesetHandle::new_pending(IdentitySignal::Pending, CompletionSignal::Pending);

    // The second parent's identity is only examined once the first has
    // fired.
    let r = await_parents_identity(&Some(pending), &Some(done.dup()));
    assert!(matches!(r, IdentityWait::BlockedOnFirst));

    let pending2 = ChangesetHandle::new_pending(IdentitySignal::Pending, CompletionSignal::Pending);
    let r = await_parents_identity(&Some(done.dup()), &Some(pending2));
    assert!(matches!(r, IdentityWait::BlockedOnSecond));

    let r = await_parents_identity(&Some(done.dup()), &Some(done.dup()));
    assert!(matches!(r, IdentityWait::Satisfied));

    // Linkage resolves exactly when every present identity has fired.
    let pending3 = ChangesetHandle::new_pending(IdentitySignal::Pending, CompletionSignal::Pending);
    assert!(resolve_parent_linkage(&Some(done.dup()), &Some(pending3)).is_none());
    let (parents, manifests, bonsai) =
        resolve_parent_linkage(&Some(done), &None).expect("linkage");
    assert!(matches!(parents, HgParents::One(_)));
    assert_eq!(manifests.len(), 1);
    assert_eq!(bonsai, vec![ChangesetId { v: 1 }]);
}
