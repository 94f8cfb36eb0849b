use vstd::prelude::*;
use crate::errors::{ErrorKind, ErrorVw};

verus! {

/// One commit in the resolver's arena: links to its parents — always
/// earlier entries — what its own completion contributes once its parents
/// are complete, and the memoized completion outcome.
#[derive(Debug)]
pub struct ResolveNode {
    pub p1: Option<usize>,
    pub p2: Option<usize>,
    /// The failure this commit's own work reports, or none on success.
    pub own_err: Option<ErrorKind>,
    /// The cached completion outcome: absent until first awaited, then
    /// served to every later await without recomputation.
    pub outcome: Option<Option<ErrorKind>>,
}

/// What a commit's own work reports, as specifications see it.
pub open spec fn own_err_vw(n: ResolveNode) -> Option<ErrorVw> {
    match n.own_err {
        Option::Some(ref e) => Option::Some(e@),
        Option::None => Option::None,
    }
}

/// The completion outcome a commit must resolve to: the first failure met
/// along first-parent chain, then second-parent chain, then its own work.
pub open spec fn spec_outcome(s: Seq<ResolveNode>, i: int) -> Option<ErrorVw>
    decreases i,
{
    if !(0 <= i < s.len()) {
        Option::None
    } else {
        let r1 = match s[i].p1 {
            Option::Some(j) => if j < i {
                spec_outcome(s, j as int)
            } else {
                Option::None
            },
            Option::None => Option::None,
        };
        match r1 {
            Option::Some(e) => Option::Some(e),
            Option::None => {
                let r2 = match s[i].p2 {
                    Option::Some(j) => if j < i {
                        spec_outcome(s, j as int)
                    } else {
                        Option::None
                    },
                    Option::None => Option::None,
                };
                match r2 {
                    Option::Some(e) => Option::Some(e),
                    Option::None => own_err_vw(s[i]),
                }
            },
        }
    }
}

/// How many commits have a memoized outcome.
pub open spec fn completed_count(s: Seq<ResolveNode>) -> nat
    decreases s.len(),
{
    if s.len() == 0 {
        0
    } else {
        completed_count(s.drop_last()) + (if s.last().outcome is Some {
            1nat
        } else {
            0nat
        })
    }
}

pub proof fn lemma_completed_count_le(s: Seq<ResolveNode>)
    ensures
        completed_count(s) <= s.len(),
    decreases s.len(),
{
    if s.len() > 0 {
        lemma_completed_count_le(s.drop_last());
    }
}

/// A commit without a memoized outcome keeps the count under the size.
proof fn lemma_completed_count_missing(s: Seq<ResolveNode>, i: int)
    requires
        0 <= i < s.len(),
        s[i].outcome is None,
    ensures
        completed_count(s) < s.len(),
    decreases s.len(),
{
    if i == s.len() - 1 {
        lemma_completed_count_le(s.drop_last());
    } else {
        assert(s.drop_last()[i] == s[i]);
        lemma_completed_count_missing(s.drop_last(), i);
    }
}

/// Memoizing one more outcome raises the count by exactly one.
proof fn lemma_completed_count_update(s: Seq<ResolveNode>, t: Seq<ResolveNode>, i: int)
    requires
        0 <= i < s.len(),
        t.len() == s.len(),
        forall|k: int| 0 <= k < s.len() && k != i ==> t[k] == s[k],
        s[i].outcome is None,
        t[i].outcome is Some,
    ensures
        completed_count(t) == completed_count(s) + 1,
    decreases s.len(),
{
    if i == s.len() - 1 {
        assert(t.drop_last() =~= s.drop_last());
    } else {
        assert(t.drop_last()[i] == t[i]);
        assert(s.drop_last()[i] == s[i]);
        assert(forall|k: int| 0 <= k < s.drop_last().len() && k != i ==> t.drop_last()[k]
            == s.drop_last()[k]);
        lemma_completed_count_update(s.drop_last(), t.drop_last(), i);
        assert(t.last() == s.last());
    }
}

/// Entering later commits never changes what an earlier commit must
/// resolve to.
proof fn lemma_spec_outcome_extend(s: Seq<ResolveNode>, t: Seq<ResolveNode>, i: int)
    requires
        t.len() >= s.len(),
        i < s.len(),
        forall|k: int| 0 <= k < s.len() ==> (#[trigger] t[k]) == s[k],
    ensures
        spec_outcome(t, i) == spec_outcome(s, i),
    decreases (if i >= 0 { i + 1 } else { 0 }),
{
    if 0 <= i < s.len() {
        match s[i].p1 {
            Option::Some(j) => {
                if j < i {
                    lemma_spec_outcome_extend(s, t, j as int);
                }
            },
            Option::None => {},
        }
        match s[i].p2 {
            Option::Some(j) => {
                if j < i {
                    lemma_spec_outcome_extend(s, t, j as int);
                }
            },
            Option::None => {},
        }
    }
}

/// The memoized outcome at a node never affects what any node must
/// resolve to: the target depends only on the graph and the own results.
proof fn lemma_spec_outcome_frame(s: Seq<ResolveNode>, t: Seq<ResolveNode>, i: int)
    requires
        t.len() == s.len(),
        i < s.len(),
        forall|k: int| 0 <= k < s.len() ==> (#[trigger] t[k]).p1 == s[k].p1 && t[k].p2 == s[k].p2
            && own_err_vw(t[k]) == own_err_vw(s[k]),
    ensures
        spec_outcome(t, i) == spec_outcome(s, i),
    decreases (if i >= 0 { i + 1 } else { 0 }),
{
    if 0 <= i < s.len() {
        match s[i].p1 {
            Option::Some(j) => {
                if j < i {
                    lemma_spec_outcome_frame(s, t, j as int);
                }
            },
            Option::None => {},
        }
        match s[i].p2 {
            Option::Some(j) => {
                if j < i {
                    lemma_spec_outcome_frame(s, t, j as int);
                }
            },
            Option::None => {},
        }
    }
}

/// A well-formed resolver: parents always point at earlier commits, the
/// work counter counts exactly the memoized outcomes, and every memoized
/// outcome is the one the commit must resolve to.
pub open spec fn resolver_wf(r: ParentResolver) -> bool {
    &&& forall|i: int| 0 <= i < r.nodes@.len() ==> ((#[trigger] r.nodes@[i]).p1 matches Some(j)
        ==> j < i)
    &&& forall|i: int| 0 <= i < r.nodes@.len() ==> ((#[trigger] r.nodes@[i]).p2 matches Some(j)
        ==> j < i)
    &&& r.work == completed_count(r.nodes@)
    &&& forall|i: int| 0 <= i < r.nodes@.len() ==> ((#[trigger] r.nodes@[i]).outcome matches Some(
        res,
    ) ==> (match res {
        Option::Some(e) => spec_outcome(r.nodes@, i) == Option::Some(e@),
        Option::None => spec_outcome(r.nodes@, i) is None,
    }))
}

/// Resolves commit completion over an append-only graph of commits, the
/// way a web of memoized completion signals does: each commit's outcome is
/// computed at most once, however many merges downstream re-await it.
#[derive(Debug)]
pub struct ParentResolver {
    pub nodes: Vec<ResolveNode>,
    /// How many outcomes were actually computed, over the whole life of
    /// the resolver. Bounded by the number of commits: the measure of the
    /// anti-explosion guarantee.
    pub work: u64,
}

impl ParentResolver {
    pub fn new() -> (r: ParentResolver)
        ensures
            resolver_wf(r),
            r.nodes@.len() == 0,
            r.work == 0,
    {
        ParentResolver { nodes: Vec::new(), work: 0 }
    }

    /// The number of commits entered so far.
    pub fn node_count(&self) -> (n: usize)
        ensures
            n == self.nodes@.len(),
    {
        self.nodes.len()
    }

    /// Enters one commit, with parents that were entered before it.
    pub fn add_node(&mut self, p1: Option<usize>, p2: Option<usize>, own_err: Option<ErrorKind>)
        -> (idx: usize)
        requires
            resolver_wf(*old(self)),
            p1 matches Some(j) ==> j < old(self).nodes@.len(),
            p2 matches Some(j) ==> j < old(self).nodes@.len(),
        ensures
            resolver_wf(*final(self)),
            final(self).nodes@.len() == old(self).nodes@.len() + 1,
            idx == old(self).nodes@.len(),
            final(self).work == old(self).work,
    {
        let idx = self.nodes.len();
        let ghost pre = self.nodes@;
        self.nodes.push(ResolveNode { p1, p2, own_err, outcome: None });
        proof {
            assert(self.nodes@.drop_last() =~= pre);
            assert forall|i: int| 0 <= i < self.nodes@.len() implies ((
            #[trigger] self.nodes@[i]).outcome matches Some(res) ==> (match res {
                Option::Some(e) => spec_outcome(self.nodes@, i) == Option::Some(e@),
                Option::None => spec_outcome(self.nodes@, i) is None,
            })) by {
                if i < pre.len() {
                    assert(self.nodes@[i] == pre[i]);
                    lemma_spec_outcome_extend(pre, self.nodes@, i);
                }
            }
        }
        idx
    }

    /// Awaits one commit's completion. A memoized outcome is served as it
    /// stands; otherwise the first parent is awaited fully, then the
    /// second, then the commit's own result is folded in, and the outcome
    /// is cached so no later await recomputes it.
    pub fn complete(&mut self, i: usize) -> (r: Option<ErrorKind>)
        requires
            resolver_wf(*old(self)),
            i < old(self).nodes@.len(),
        ensures
            resolver_wf(*final(self)),
            final(self).nodes@.len() == old(self).nodes@.len(),
            forall|k: int| 0 <= k < old(self).nodes@.len() ==> (#[trigger] final(self).nodes@[k]).p1 == old(self).nodes@[k].p1 && final(self).nodes@[k].p2
                == old(self).nodes@[k].p2 && own_err_vw(final(self).nodes@[k]) == own_err_vw(
                old(self).nodes@[k],
            ),
            forall|k: int| 0 <= k < old(self).nodes@.len() ==> ((#[trigger] old(self).nodes@[k]).outcome is Some ==> final(self).nodes@[k].outcome
                == old(self).nodes@[k].outcome),
            forall|k: int| i < k < old(self).nodes@.len() ==> (#[trigger] final(self).nodes@[k])
                == old(self).nodes@[k],
            final(self).nodes@[i as int].outcome is Some,
            match r {
                Option::Some(e) => spec_outcome(old(self).nodes@, i as int) == Option::Some(e@),
                Option::None => spec_outcome(old(self).nodes@, i as int) is None,
            },
            final(self).work <= final(self).nodes@.len(),
        decreases i,
    {
        proof {
            lemma_completed_count_le(self.nodes@);
        }
        let cached = match &self.nodes[i].outcome {
            Some(res) => Some(match res {
                Some(e) => Some(e.dup()),
                None => None,
            }),
            None => None,
        };
        if let Some(res) = cached {
            proof {
                lemma_spec_outcome_frame(old(self).nodes@, self.nodes@, i as int);
            }
            return res;
        }
        let p1 = self.nodes[i].p1;
        let p2 = self.nodes[i].p2;
        let ghost s0 = self.nodes@;
        let r1 = match p1 {
            Some(j) => self.complete(j),
            None => None,
        };
        let ghost s1 = self.nodes@;
        let r = match r1 {
            Some(e) => Some(e),
            None => {
                let r2 = match p2 {
                    Some(j) => self.complete(j),
                    None => None,
                };
                match r2 {
                    Some(e) => Some(e),
                    None => match &self.nodes[i].own_err {
                        Some(e) => Some(e.dup()),
                        None => None,
                    },
                }
            },
        };
        let ghost s2 = self.nodes@;
        let node = &self.nodes[i];
        let replacement = ResolveNode {
            p1: node.p1,
            p2: node.p2,
            own_err: match &node.own_err {
                Some(e) => Some(e.dup()),
                None => None,
            },
            outcome: Some(
                match &r {
                    Some(e) => Some(e.dup()),
                    None => None,
                },
            ),
        };
        proof {
            assert(s1[i as int] == s0[i as int]);
            assert(s2[i as int] == s0[i as int]);
            assert(s2[i as int].outcome is None);
            assert(self.work == completed_count(s2));
            lemma_completed_count_missing(s2, i as int);
            assert(self.work < s2.len());
        }
        self.nodes.set(i, replacement);
        proof {
            vstd::std_specs::vec::axiom_spec_len(&self.nodes);
            assert(self.nodes@.len() == s2.len());
            assert(self.work < self.nodes@.len());
            assert(self.nodes@.len() <= usize::MAX);
        }
        self.work = self.work + 1;
        proof {
            lemma_completed_count_update(s2, self.nodes@, i as int);
            let target = spec_outcome(s0, i as int);
            match p2 {
                Option::Some(j2) => {
                    lemma_spec_outcome_frame(s0, s1, j2 as int);
                },
                Option::None => {},
            }
            assert(own_err_vw(s2[i as int]) == own_err_vw(s0[i as int]));
            assert(match r {
                Option::Some(ref e) => target == Option::Some(e@),
                Option::None => target is None,
            });
            lemma_spec_outcome_frame(s0, s1, i as int);
            lemma_spec_outcome_frame(s1, s2, i as int);
            lemma_spec_outcome_frame(s2, self.nodes@, i as int);
            assert(spec_outcome(self.nodes@, i as int) == target);
            assert forall|k: int| 0 <= k < self.nodes@.len() implies ((
            #[trigger] self.nodes@[k]).outcome matches Some(res) ==> (match res {
                Option::Some(e) => spec_outcome(self.nodes@, k) == Option::Some(e@),
                Option::None => spec_outcome(self.nodes@, k) is None,
            })) by {
                if k != i {
                    assert(self.nodes@[k] == s2[k]);
                    lemma_spec_outcome_frame(s2, self.nodes@, k);
                } else {
                    assert(self.nodes@[k].outcome == replacement.outcome);
                }
            }
            lemma_completed_count_le(self.nodes@);
        }
        r
    }

    /// Awaits both parents' completion in sequential order: the first
    /// parent fully first; the second is not examined while the first
    /// fails. Returns the first failure observed, if any. Shared ancestry
    /// is memoized, so however many sibling merges call this, the total
    /// work stays bounded by the number of commits.
    pub fn await_both_complete(&mut self, p1: Option<usize>, p2: Option<usize>) -> (r: Option<
        ErrorKind,
    >)
        requires
            resolver_wf(*old(self)),
            p1 matches Some(j) ==> j < old(self).nodes@.len(),
            p2 matches Some(j) ==> j < old(self).nodes@.len(),
        ensures
            resolver_wf(*final(self)),
            final(self).nodes@.len() == old(self).nodes@.len(),
            final(self).work <= final(self).nodes@.len(),
            ({
                let o1 = match p1 {
                    Option::Some(j) => spec_outcome(old(self).nodes@, j as int),
                    Option::None => Option::None,
                };
                let o2 = match p2 {
                    Option::Some(j) => spec_outcome(old(self).nodes@, j as int),
                    Option::None => Option::None,
                };
                match o1 {
                    Option::Some(e) => (r matches Some(e2) && e2@ == e),
                    Option::None => match o2 {
                        Option::Some(e) => (r matches Some(e2) && e2@ == e),
                        Option::None => r is None,
                    },
                }
            }),
    {
        let r1 = match p1 {
            Some(j) => self.complete(j),
            None => None,
        };
        if let Some(e) = r1 {
            return Some(e);
        }
        let ghost s1 = self.nodes@;
        proof {
            match p2 {
                Option::Some(j) => {
                    lemma_spec_outcome_frame(old(self).nodes@, s1, j as int);
                },
                Option::None => {},
            }
        }
        proof {
            lemma_completed_count_le(self.nodes@);
        }
        match p2 {
            Some(j) => self.complete(j),
            None => None,
        }
    }
}

/// However many sibling merges share ancestry, and however deep the
/// shared chains run, the total completion work ever performed stays
/// bounded by the number of commits entered: memoization pays for each
/// shared ancestor exactly once, so resolution scales with the graph's
/// size, not with the number of distinct merge paths through it.
pub proof fn lemma_resolution_work_bounded(r: ParentResolver)
    requires
        resolver_wf(r),
    ensures
        r.work <= r.nodes@.len(),
{
    lemma_completed_count_le(r.nodes@);
}

} // verus!
