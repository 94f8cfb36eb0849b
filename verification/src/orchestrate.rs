use vstd::prelude::*;
use crate::entry::Entry;
use crate::errors::{ErrorKind, ErrorVw};
use crate::hash::{null_hash, null_hash_seq, HgManifestId};
use crate::path::{RepoPath, RepoPathVw};
use crate::upload::{has_upl, upload_wf, UploadEntries};

verus! {

/// An acceptable root argument: when present, a tree entry standing at the
/// root position, with tree content.
pub open spec fn root_ok(root: Option<(Entry, RepoPath)>) -> bool {
    match root {
        Option::Some((e, p)) => e@.kind is Tree && p@ is Root && e@.content is Tree,
        Option::None => true,
    }
}

/// An acceptable child entry: a tree-typed entry must carry tree content.
pub open spec fn child_ok(e: Entry) -> bool {
    e@.kind is Tree ==> e@.content is Tree
}

/// What the uploaded map must hold mid-intake: the base state, the root
/// when it was entered, and the paths of the first `i` child entries.
pub open spec fn upl_stage(
    cur: UploadEntries,
    base: UploadEntries,
    root_done: bool,
    cs: Seq<(Entry, RepoPath)>,
    i: int,
) -> bool {
    forall|p: RepoPathVw| has_upl(cur, p) <==> (has_upl(base, p) || (root_done && p
        == RepoPathVw::Root) || exists|k: int| 0 <= k < i && (#[trigger] cs[k]).1@ == p)
}

/// One more processed child extends the stage by its path.
proof fn lemma_upl_stage_step(
    prev: UploadEntries,
    cur: UploadEntries,
    base: UploadEntries,
    root_done: bool,
    cs: Seq<(Entry, RepoPath)>,
    i: int,
)
    requires
        0 <= i < cs.len(),
        upl_stage(prev, base, root_done, cs, i),
        forall|p: RepoPathVw| has_upl(cur, p) <==> (has_upl(prev, p) || p == cs[i].1@),
    ensures
        upl_stage(cur, base, root_done, cs, i + 1),
{
    assert forall|p: RepoPathVw| has_upl(cur, p) <==> (has_upl(base, p) || (root_done && p
        == RepoPathVw::Root) || exists|k: int| 0 <= k < i + 1 && (#[trigger] cs[k]).1@ == p) by {
        if p == cs[i].1@ {
            assert(0 <= i < i + 1 && cs[i].1@ == p);
        }
        if exists|k: int| 0 <= k < i + 1 && (#[trigger] cs[k]).1@ == p {
            let k = choose|k: int| 0 <= k < i + 1 && (#[trigger] cs[k]).1@ == p;
            if k < i {
                assert(exists|k2: int| 0 <= k2 < i && (#[trigger] cs[k2]).1@ == p);
            }
        }
    }
}

/// Feeds one commit's blobs through the tracker: the root tree, when one
/// is supplied, and then every child entry. A supplied root must be a
/// root-positioned tree; a commit without a root resolves to the null
/// tree identity. The call succeeds exactly when the root and every child
/// entry are acceptable, and then yields the root tree identity.
pub fn process_entries(
    entry_processor: &mut UploadEntries,
    root_manifest: Option<(Entry, RepoPath)>,
    new_child_entries: &Vec<(Entry, RepoPath)>,
) -> (r: Result<HgManifestId, ErrorKind>)
    requires
        upload_wf(*old(entry_processor)),
    ensures
        upload_wf(*final(entry_processor)),
        r is Ok <==> (root_ok(root_manifest) && (forall|k: int|
            0 <= k < new_child_entries@.len() ==> child_ok((#[trigger] new_child_entries@[k]).0))),
        root_manifest matches Some((e, _)) ==> (r matches Ok(mid) ==> mid@ == e@.hash),
        root_manifest is None ==> (r matches Ok(mid) ==> mid@ == null_hash_seq()),
        r is Ok ==> upl_stage(
            *final(entry_processor),
            *old(entry_processor),
            root_manifest is Some,
            new_child_entries@,
            new_child_entries@.len() as int,
        ),
        root_manifest is Some ==> (!(root_manifest->Some_0.0@.kind is Tree && root_manifest->Some_0.1@
            is Root) ==> (r matches Err(er) && er@ == ErrorVw::BadRootManifest(
            root_manifest->Some_0.0@.kind,
        ) && *final(entry_processor) == *old(entry_processor))),
        r matches Err(er) ==> (er@ is BadRootManifest || er@ is NotAManifest),
        r matches Err(er) ==> (er@ matches ErrorVw::NotAManifest(hv, kv) ==> ((root_manifest
            is Some && hv == root_manifest->Some_0.0@.hash && kv == root_manifest->Some_0.0@.kind)
            || (exists|k: int| 0 <= k < new_child_entries@.len() && !child_ok(
            (#[trigger] new_child_entries@[k]).0) && hv == new_child_entries@[k].0@.hash && kv
            == new_child_entries@[k].0@.kind))),
{
    let ghost base = *entry_processor;
    let root_hash_opt = match root_manifest {
        None => None,
        Some((entry, path)) => {
            let kind_is_tree = match entry.get_type() {
                crate::entry::EntryType::Tree => true,
                crate::entry::EntryType::File(_) => false,
            };
            let at_root = match &path {
                RepoPath::RootPath => true,
                _ => false,
            };
            if !(kind_is_tree && at_root) {
                return Err(ErrorKind::BadRootManifest(entry.get_type()));
            }
            let h = entry.get_hash().dup();
            match entry_processor.process_root_manifest(&entry) {
                Ok(()) => Some(h),
                Err(e) => {
                    return Err(e);
                },
            }
        },
    };
    let ghost root_done = root_manifest is Some;
    proof {
        assert(upl_stage(*entry_processor, base, root_done, new_child_entries@, 0));
    }
    let mut i: usize = 0;
    while i < new_child_entries.len()
        invariant
            0 <= i <= new_child_entries@.len(),
            upload_wf(*entry_processor),
            upl_stage(*entry_processor, base, root_done, new_child_entries@, i as int),
            root_manifest is Some ==> (root_manifest->Some_0.0@.kind is Tree
                && root_manifest->Some_0.1@ is Root),
            forall|k: int| 0 <= k < i ==> child_ok((#[trigger] new_child_entries@[k]).0),
        decreases new_child_entries@.len() - i,
    {
        let entry = &new_child_entries[i].0;
        let path = &new_child_entries[i].1;
        let ghost prev = *entry_processor;
        let ghost iprev = i as int;
        match entry_processor.process_one_entry(entry, path.dup()) {
            Ok(()) => {},
            Err(e) => {
                proof {
                    assert(!child_ok(new_child_entries@[i as int].0));
                }
                return Err(e);
            },
        }
        i = i + 1;
        proof {
            lemma_upl_stage_step(
                prev,
                *entry_processor,
                base,
                root_done,
                new_child_entries@,
                iprev,
            );
        }
    }
    match root_hash_opt {
        Some(h) => Ok(HgManifestId::new(h)),
        None => Ok(HgManifestId::new(null_hash())),
    }
}

} // verus!
