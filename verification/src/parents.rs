use vstd::prelude::*;
use crate::entry::{collapse_parents, HgParents};
use crate::errors::ErrorKind;
use crate::handle::{ChangesetHandle, CompletionSignalVw, IdentitySignalVw};
use crate::hash::{ChangesetId, HgManifestId, NodeHash};

verus! {

/// What one step of waiting on the parents' completion observes. Waiting
/// is strictly sequential: the second parent is never examined until the
/// first has completed, so shared ancestor chains — already memoized by
/// their signals — are never re-traversed through both sides of a merge
/// at once, and the work over a merge-heavy graph stays linear.
pub enum ParentsWait {
    /// Nothing left to wait for.
    Satisfied,
    /// Still waiting on the first present parent; the second, if any, has
    /// deliberately not been looked at.
    BlockedOnFirst,
    /// The first parent has completed; still waiting on the second.
    BlockedOnSecond,
    /// A parent's completion failed; the shared failure is handed on.
    Failed(ErrorKind),
}

/// Observes the parents' completion signals in sequential order: first
/// parent fully first, then the second. With no parents, the wait is
/// immediately satisfied; with one, only it is observed.
pub fn extract_parents_complete(p1: &Option<ChangesetHandle>, p2: &Option<ChangesetHandle>) -> (r:
    ParentsWait)
    ensures
        p1 is None && p2 is None ==> r is Satisfied,
        p1 matches Some(h) ==> (p2 is None ==> match h@.completion {
            CompletionSignalVw::Pending => r is BlockedOnFirst,
            CompletionSignalVw::Ready(_, _) => r is Satisfied,
            CompletionSignalVw::Failed(e) => (r matches ParentsWait::Failed(e2) && e2@ == e),
        }),
        p1 is None ==> (p2 matches Some(h) ==> match h@.completion {
            CompletionSignalVw::Pending => r is BlockedOnFirst,
            CompletionSignalVw::Ready(_, _) => r is Satisfied,
            CompletionSignalVw::Failed(e) => (r matches ParentsWait::Failed(e2) && e2@ == e),
        }),
        p1 matches Some(h1) ==> (p2 matches Some(h2) ==> match h1@.completion {
            CompletionSignalVw::Pending => r is BlockedOnFirst,
            CompletionSignalVw::Failed(e) => (r matches ParentsWait::Failed(e2) && e2@ == e),
            CompletionSignalVw::Ready(_, _) => match h2@.completion {
                CompletionSignalVw::Pending => r is BlockedOnSecond,
                CompletionSignalVw::Ready(_, _) => r is Satisfied,
                CompletionSignalVw::Failed(e) => (r matches ParentsWait::Failed(e2) && e2@ == e),
            },
        }),
{
    match (p1, p2) {
        (None, None) => ParentsWait::Satisfied,
        (Some(h), None) => match &h.completion {
            crate::handle::CompletionSignal::Pending => ParentsWait::BlockedOnFirst,
            crate::handle::CompletionSignal::Ready(_, _) => ParentsWait::Satisfied,
            crate::handle::CompletionSignal::Failed(e) => ParentsWait::Failed(e.dup()),
        },
        (None, Some(h)) => match &h.completion {
            crate::handle::CompletionSignal::Pending => ParentsWait::BlockedOnFirst,
            crate::handle::CompletionSignal::Ready(_, _) => ParentsWait::Satisfied,
            crate::handle::CompletionSignal::Failed(e) => ParentsWait::Failed(e.dup()),
        },
        (Some(h1), Some(h2)) => match &h1.completion {
            crate::handle::CompletionSignal::Pending => ParentsWait::BlockedOnFirst,
            crate::handle::CompletionSignal::Failed(e) => ParentsWait::Failed(e.dup()),
            crate::handle::CompletionSignal::Ready(_, _) => match &h2.completion {
                crate::handle::CompletionSignal::Pending => ParentsWait::BlockedOnSecond,
                crate::handle::CompletionSignal::Ready(_, _) => ParentsWait::Satisfied,
                crate::handle::CompletionSignal::Failed(e) => ParentsWait::Failed(e.dup()),
            },
        },
    }
}

/// What one step of waiting on the parents' identity signals observes.
/// An identity signal fires once and cannot fail, so the wait is either
/// satisfied or blocked.
pub enum IdentityWait {
    /// Every present parent's identity has fired.
    Satisfied,
    /// Still waiting on the first present parent's identity; the second,
    /// if any, has deliberately not been looked at.
    BlockedOnFirst,
    /// The first identity has fired; still waiting on the second.
    BlockedOnSecond,
}

/// Observes the parents' identity signals in the same strictly sequential
/// order as the completion wait, and for the same reason: the second
/// parent's identity is never examined until the first has fired, so a
/// merge-heavy ancestry is paid for once, not once per merge path.
pub fn await_parents_identity(p1: &Option<ChangesetHandle>, p2: &Option<ChangesetHandle>) -> (r:
    IdentityWait)
    ensures
        p1 is None && p2 is None ==> r is Satisfied,
        p1 matches Some(h) ==> (p2 is None ==> match h@.can_be_parent {
            IdentitySignalVw::Pending => r is BlockedOnFirst,
            IdentitySignalVw::Ready(_) => r is Satisfied,
        }),
        p1 is None ==> (p2 matches Some(h) ==> match h@.can_be_parent {
            IdentitySignalVw::Pending => r is BlockedOnFirst,
            IdentitySignalVw::Ready(_) => r is Satisfied,
        }),
        p1 matches Some(h1) ==> (p2 matches Some(h2) ==> match h1@.can_be_parent {
            IdentitySignalVw::Pending => r is BlockedOnFirst,
            IdentitySignalVw::Ready(_) => match h2@.can_be_parent {
                IdentitySignalVw::Pending => r is BlockedOnSecond,
                IdentitySignalVw::Ready(_) => r is Satisfied,
            },
        }),
        r is Satisfied ==> (p1 matches Some(h) ==> h@.can_be_parent is Ready),
        r is Satisfied ==> (p2 matches Some(h) ==> h@.can_be_parent is Ready),
{
    match (p1, p2) {
        (None, None) => IdentityWait::Satisfied,
        (Some(h), None) => match &h.can_be_parent {
            crate::handle::IdentitySignal::Pending => IdentityWait::BlockedOnFirst,
            crate::handle::IdentitySignal::Ready(_) => IdentityWait::Satisfied,
        },
        (None, Some(h)) => match &h.can_be_parent {
            crate::handle::IdentitySignal::Pending => IdentityWait::BlockedOnFirst,
            crate::handle::IdentitySignal::Ready(_) => IdentityWait::Satisfied,
        },
        (Some(h1), Some(h2)) => match &h1.can_be_parent {
            crate::handle::IdentitySignal::Pending => IdentityWait::BlockedOnFirst,
            crate::handle::IdentitySignal::Ready(_) => match &h2.can_be_parent {
                crate::handle::IdentitySignal::Pending => IdentityWait::BlockedOnSecond,
                crate::handle::IdentitySignal::Ready(_) => IdentityWait::Satisfied,
            },
        },
    }
}

/// Reads both parents' identity signals — in sequential order, for the
/// same anti-explosion reason as the completion wait — and assembles what
/// a child commit needs to be constructed: its legacy parent-hash pair,
/// its parents' root tree ids, and its canonical parent ids, present
/// parents first and in order. Both identities must have fired; full
/// durability is deliberately not awaited here.
pub fn handle_parents(p1: Option<&ChangesetHandle>, p2: Option<&ChangesetHandle>) -> (r: (
    HgParents,
    Vec<HgManifestId>,
    Vec<ChangesetId>,
))
    requires
        p1 matches Some(h) ==> h@.can_be_parent is Ready,
        p2 matches Some(h) ==> h@.can_be_parent is Ready,
    ensures
        ({
            let t1 = match p1 {
                Option::Some(h) => match h@.can_be_parent {
                    IdentitySignalVw::Ready(t) => Option::Some(t),
                    IdentitySignalVw::Pending => Option::None,
                },
                Option::None => Option::None,
            };
            let t2 = match p2 {
                Option::Some(h) => match h@.can_be_parent {
                    IdentitySignalVw::Ready(t) => Option::Some(t),
                    IdentitySignalVw::Pending => Option::None,
                },
                Option::None => Option::None,
            };
            &&& r.0@ == collapse_parents(
                match t1 {
                    Option::Some(t) => Option::Some(t.hg_hash),
                    Option::None => Option::None,
                },
                match t2 {
                    Option::Some(t) => Option::Some(t.hg_hash),
                    Option::None => Option::None,
                },
            )
            &&& r.1@.len() == (if t1 is Some { 1int } else { 0int }) + (if t2 is Some {
                1int
            } else {
                0int
            })
            &&& (t1 matches Some(t) ==> r.1@[0]@ == t.manifest_id)
            &&& (t2 matches Some(t) ==> (t1 is None ==> r.1@[0]@ == t.manifest_id))
            &&& (t2 matches Some(t) ==> (t1 is Some ==> r.1@[1]@ == t.manifest_id))
            &&& r.2@.len() == (if t1 is Some { 1int } else { 0int }) + (if t2 is Some {
                1int
            } else {
                0int
            })
            &&& (t1 matches Some(t) ==> r.2@[0] == t.bonsai_id)
            &&& (t2 matches Some(t) ==> (t1 is None ==> r.2@[0] == t.bonsai_id))
            &&& (t2 matches Some(t) ==> (t1 is Some ==> r.2@[1] == t.bonsai_id))
        }),
{
    let mut parent_manifest_hashes: Vec<HgManifestId> = Vec::new();
    let mut bonsai_parents: Vec<ChangesetId> = Vec::new();
    let mut h1: Option<NodeHash> = None;
    let mut h2: Option<NodeHash> = None;
    match p1 {
        Some(h) => match &h.can_be_parent {
            crate::handle::IdentitySignal::Ready(t) => {
                bonsai_parents.push(t.bonsai_id);
                parent_manifest_hashes.push(t.manifest_id.dup());
                h1 = Some(t.hg_hash.dup());
            },
            crate::handle::IdentitySignal::Pending => {},
        },
        None => {},
    }
    match p2 {
        Some(h) => match &h.can_be_parent {
            crate::handle::IdentitySignal::Ready(t) => {
                bonsai_parents.push(t.bonsai_id);
                parent_manifest_hashes.push(t.manifest_id.dup());
                h2 = Some(t.hg_hash.dup());
            },
            crate::handle::IdentitySignal::Pending => {},
        },
        None => {},
    }
    let parents = HgParents::new(h1.as_ref(), h2.as_ref());
    (parents, parent_manifest_hashes, bonsai_parents)
}


/// Resolves the parents' linkage data once, without awaiting durability:
/// observes the identity signals in sequential order and, when both have
/// fired, assembles the parent-hash pair, the parent tree ids and the
/// canonical parent ids. `None` says a present parent's identity has not
/// fired yet.
pub fn resolve_parent_linkage(p1: &Option<ChangesetHandle>, p2: &Option<ChangesetHandle>) -> (r:
    Option<(HgParents, Vec<HgManifestId>, Vec<ChangesetId>)>)
    ensures
        r is Some <==> ((p1 matches Some(h) ==> h@.can_be_parent is Ready) && (p2 matches Some(
            h,
        ) ==> h@.can_be_parent is Ready)),
        r matches Some(t) ==> ({
            let t1 = match p1 {
                Option::Some(h) => match h@.can_be_parent {
                    IdentitySignalVw::Ready(v) => Option::Some(v),
                    IdentitySignalVw::Pending => Option::None,
                },
                Option::None => Option::None,
            };
            let t2 = match p2 {
                Option::Some(h) => match h@.can_be_parent {
                    IdentitySignalVw::Ready(v) => Option::Some(v),
                    IdentitySignalVw::Pending => Option::None,
                },
                Option::None => Option::None,
            };
            &&& t.0@ == collapse_parents(
                match t1 {
                    Option::Some(v) => Option::Some(v.hg_hash),
                    Option::None => Option::None,
                },
                match t2 {
                    Option::Some(v) => Option::Some(v.hg_hash),
                    Option::None => Option::None,
                },
            )
            &&& t.1@.len() == (if t1 is Some { 1int } else { 0int }) + (if t2 is Some {
                1int
            } else {
                0int
            })
            &&& (t1 matches Some(v) ==> t.1@[0]@ == v.manifest_id)
            &&& (t2 matches Some(v) ==> (t1 is None ==> t.1@[0]@ == v.manifest_id))
            &&& (t2 matches Some(v) ==> (t1 is Some ==> t.1@[1]@ == v.manifest_id))
            &&& t.2@.len() == (if t1 is Some { 1int } else { 0int }) + (if t2 is Some {
                1int
            } else {
                0int
            })
            &&& (t1 matches Some(v) ==> t.2@[0] == v.bonsai_id)
            &&& (t2 matches Some(v) ==> (t1 is None ==> t.2@[0] == v.bonsai_id))
            &&& (t2 matches Some(v) ==> (t1 is Some ==> t.2@[1] == v.bonsai_id))
        }),
{
    match await_parents_identity(p1, p2) {
        IdentityWait::Satisfied => Some(handle_parents(p1.as_ref(), p2.as_ref())),
        IdentityWait::BlockedOnFirst => None,
        IdentityWait::BlockedOnSecond => None,
    }
}

} // verus!

