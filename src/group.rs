//! Group entries and the delta between the authority sets of two revisions.
use vstd::prelude::*;
use crate::types::{AgentId, GroupEntry};

verus! {

/// Whether `x` occurs in `v`.
pub fn contains_agent(v: &Vec<AgentId>, x: AgentId) -> (r: bool)
    ensures
        r == v@.contains(x),
{
    let mut i: usize = 0;
    while i < v.len()
        invariant
            0 <= i <= v.len(),
            forall|j: int| 0 <= j < i ==> v@[j] != x,
        decreases v.len() - i,
    {
        if v[i] == x {
            return true;
        }
        i = i + 1;
    }
    false
}

/// The agents of `v` that do (`keep == true`) or do not occur in `other`,
/// each once, in their first order of appearance in `v`.
fn select_agents(v: &Vec<AgentId>, other: &Vec<AgentId>, keep: bool) -> (r: Vec<AgentId>)
    ensures
        r@.no_duplicates(),
        forall|a: AgentId| r@.contains(a) <==> (v@.contains(a) && other@.contains(a) == keep),
{
    let mut r: Vec<AgentId> = Vec::new();
    let mut i: usize = 0;
    while i < v.len()
        invariant
            0 <= i <= v.len(),
            r@.no_duplicates(),
            forall|a: AgentId|
                r@.contains(a) <==> (v@.subrange(0, i as int).contains(a) && other@.contains(a)
                    == keep),
        decreases v.len() - i,
    {
        let a = v[i];
        proof {
            assert(v@.subrange(0, i + 1) == v@.subrange(0, i as int).push(a));
        }
        let ghost old_r = r@;
        if contains_agent(other, a) == keep && !contains_agent(&r, a) {
            r.push(a);
        }
        proof {
            assert forall|b: AgentId|
                r@.contains(b) <==> (v@.subrange(0, i + 1).contains(b) && other@.contains(b)
                    == keep) by {
                assert(v@.subrange(0, i + 1)[i as int] == a);
                if r@.len() > old_r.len() {
                    assert(r@[old_r.len() as int] == a);
                }
                if v@.subrange(0, i + 1).contains(b) && b != a {
                    let k = choose|k: int| 0 <= k < i + 1 && #[trigger] v@.subrange(0, i + 1)[k] == b;
                    assert(v@.subrange(0, i as int)[k] == b);
                }
                if r@.contains(b) && b != a {
                    let k = choose|k: int| 0 <= k < r@.len() && r@[k] == b;
                    if k < old_r.len() {
                        assert(old_r[k] == b);
                    }
                }
                if old_r.contains(b) {
                    let k = choose|k: int| 0 <= k < old_r.len() && old_r[k] == b;
                    assert(r@[k] == b);
                }
            }
        }
        i = i + 1;
    }
    proof {
        assert(v@.subrange(0, v.len() as int) == v@);
    }
    r
}

/// How the authority set changes from one revision to the next.
#[derive(Clone, Debug)]
pub struct AuthoritiesDiff {
    pub removed: Vec<AgentId>,
    pub added: Vec<AgentId>,
    pub intersection: Vec<AgentId>,
}

/// Agents present before and absent after.
pub open spec fn removed_of(prev: Set<AgentId>, next: Set<AgentId>) -> Set<AgentId> {
    prev.difference(next)
}

/// Agents absent before and present after.
pub open spec fn added_of(prev: Set<AgentId>, next: Set<AgentId>) -> Set<AgentId> {
    next.difference(prev)
}

/// Agents present on both sides.
pub open spec fn kept_of(prev: Set<AgentId>, next: Set<AgentId>) -> Set<AgentId> {
    prev.intersect(next)
}

impl GroupEntry {
    /// Whether `agent` is an admin of this revision.
    pub fn is_admin(&self, agent: AgentId) -> (r: bool)
        ensures
            r == self.admins@.contains(agent),
    {
        contains_agent(&self.admins, agent)
    }

    /// Whether `agent` is an authority of this revision.
    pub fn is_authority(&self, agent: AgentId) -> (r: bool)
        ensures
            r == self.authorities@.contains(agent),
    {
        contains_agent(&self.authorities, agent)
    }

    /// The delta from this revision's authorities to those of `next`.
    pub fn authorities_diff(&self, next: &GroupEntry) -> (r: AuthoritiesDiff)
        ensures
            r.removed@.to_set() == removed_of(self.authorities@.to_set(), next.authorities@.to_set()),
            r.added@.to_set() == added_of(self.authorities@.to_set(), next.authorities@.to_set()),
            r.intersection@.to_set() == kept_of(self.authorities@.to_set(), next.authorities@.to_set()),
            r.removed@.no_duplicates(),
            r.added@.no_duplicates(),
            r.intersection@.no_duplicates(),
    {
        let removed = select_agents(&self.authorities, &next.authorities, false);
        let added = select_agents(&next.authorities, &self.authorities, false);
        let intersection = select_agents(&self.authorities, &next.authorities, true);
        let r = AuthoritiesDiff { removed, added, intersection };
        proof {
            assert(r.removed@.to_set() =~= removed_of(self.authorities@.to_set(), next.authorities@.to_set()));
            assert(r.added@.to_set() =~= added_of(self.authorities@.to_set(), next.authorities@.to_set()));
            assert(r.intersection@.to_set() =~= kept_of(self.authorities@.to_set(), next.authorities@.to_set()));
        }
        r
    }
}

/// The three parts of an authority delta do not overlap, and together they
/// cover every agent that is an authority before or after.
pub proof fn lemma_authorities_diff_partition(prev: Set<AgentId>, next: Set<AgentId>)
    ensures
        removed_of(prev, next).disjoint(added_of(prev, next)),
        removed_of(prev, next).disjoint(kept_of(prev, next)),
        added_of(prev, next).disjoint(kept_of(prev, next)),
        removed_of(prev, next) + added_of(prev, next) + kept_of(prev, next) == prev + next,
{
    assert(removed_of(prev, next) + added_of(prev, next) + kept_of(prev, next) =~= prev + next);
}

} // verus!
