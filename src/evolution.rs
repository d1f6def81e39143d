//! Following a content item's chain of updates to its latest version: by
//! predecessor pointers read from link tags, or by the record store's own
//! update records filtered by authority.
use vstd::prelude::*;
use std::collections::HashMap;
use crate::types::{Addr, AgentId};

verus! {

broadcast use vstd::std_specs::hash::group_hash_axioms;

/// The chain that starts at `start` and follows `m` from each address to
/// its successor, using each pointer at most once.
pub open spec fn walk(start: Addr, m: Map<Addr, Addr>) -> Seq<Addr>
    decreases m.dom().len(),
{
    if m.dom().finite() && m.contains_key(start) {
        seq![start] + walk(m[start], m.remove(start))
    } else {
        seq![start]
    }
}

/// A chain always holds its start, first.
pub proof fn lemma_walk_starts(start: Addr, m: Map<Addr, Addr>)
    ensures
        walk(start, m).len() >= 1,
        walk(start, m)[0] == start,
    decreases m.dom().len(),
{
    if m.dom().finite() && m.contains_key(start) {
        lemma_walk_starts(m[start], m.remove(start));
    }
}

/// Predecessor-to-successor pointers inserted in order: a later pointer
/// from the same predecessor replaces an earlier one.
pub open spec fn shortcut_map(pairs: Seq<(Addr, Addr)>) -> Map<Addr, Addr>
    decreases pairs.len(),
{
    if pairs.len() == 0 {
        Map::empty()
    } else {
        shortcut_map(pairs.drop_last()).insert(pairs.last().0, pairs.last().1)
    }
}

/// The chain from `start` through `updates`, with every address it reached
/// in order: `start` first, the latest version last.
pub fn trace_update_map(start: Addr, updates: &HashMap<Addr, Addr>) -> (r: Vec<Addr>)
    ensures
        r@ == walk(start, updates@),
{
    let mut link_map = updates.clone();
    let mut evolutions: Vec<Addr> = vec![start];
    let mut base: Addr = start;
    loop
        invariant
            link_map@.dom().finite(),
            evolutions@.len() >= 1,
            evolutions@.last() == base,
            walk(start, updates@) == evolutions@.drop_last() + walk(base, link_map@),
        decreases link_map@.dom().len(),
    {
        let ghost before = link_map@;
        match link_map.remove(&base) {
            Some(next_addr) => {
                proof {
                    assert(link_map@ == before.remove(base));
                    assert(walk(base, before) == seq![base] + walk(next_addr, link_map@));
                }
                let ghost ev = evolutions@;
                evolutions.push(next_addr);
                base = next_addr;
                proof {
                    assert(evolutions@.drop_last() == ev);
                    assert(ev == ev.drop_last().push(ev.last()));
                    assert(walk(start, updates@) =~= evolutions@.drop_last() + walk(base, link_map@));
                }
            },
            None => {
                proof {
                    assert(walk(base, before) == seq![base]);
                    assert(evolutions@ =~= evolutions@.drop_last() + seq![base]);
                }
                return evolutions;
            },
        }
    }
}

/// Builds the pointer map of `pairs`, a later pointer from one predecessor
/// replacing an earlier one.
pub fn build_shortcut_map(pairs: &Vec<(Addr, Addr)>) -> (r: HashMap<Addr, Addr>)
    ensures
        r@ == shortcut_map(pairs@),
{
    let mut m: HashMap<Addr, Addr> = HashMap::new();
    let mut i: usize = 0;
    while i < pairs.len()
        invariant
            0 <= i <= pairs.len(),
            m@ == shortcut_map(pairs@.subrange(0, i as int)),
        decreases pairs.len() - i,
    {
        let (base, target) = pairs[i];
        proof {
            assert(pairs@.subrange(0, i + 1).drop_last() == pairs@.subrange(0, i as int));
        }
        m.insert(base, target);
        i = i + 1;
    }
    proof {
        assert(pairs@.subrange(0, pairs.len() as int) == pairs@);
    }
    m
}

/// One update record of the record store: `next` was written by `author`
/// as the successor of `prev`.
#[derive(Clone, Copy, Debug, PartialEq, Eq, Structural)]
pub struct NativeUpdate {
    pub author: AgentId,
    pub prev: Addr,
    pub next: Addr,
}

/// An update may be followed when its author is a current authority, or
/// when its result was made by an authority since archived.
pub open spec fn qualifies(u: NativeUpdate, authorities: Seq<AgentId>, exceptions: Seq<Addr>) -> bool {
    authorities.contains(u.author) || exceptions.contains(u.next)
}

/// Successor pointers of the updates that may be followed: for each
/// predecessor, the first such update in `updates`.
pub open spec fn qualifying_map(
    updates: Seq<NativeUpdate>,
    authorities: Seq<AgentId>,
    exceptions: Seq<Addr>,
) -> Map<Addr, Addr>
    decreases updates.len(),
{
    if updates.len() == 0 {
        Map::empty()
    } else {
        let rest = qualifying_map(updates.drop_first(), authorities, exceptions);
        if qualifies(updates[0], authorities, exceptions) {
            rest.insert(updates[0].prev, updates[0].next)
        } else {
            rest
        }
    }
}

/// Whether `x` occurs in `v`.
pub fn contains_addr(v: &Vec<Addr>, x: Addr) -> (r: bool)
    ensures
        r == v@.contains(x),
{
    let mut i: usize = 0;
    while i < v.len()
        invariant
            0 <= i <= v.len(),
            forall|j: int| 0 <= j < i ==> v@[j] != x,
        decreases v.len() - i,
    {
        if v[i] == x {
            return true;
        }
        i = i + 1;
    }
    false
}

/// The chain of `start` through the store's update records, advancing only
/// along updates written by a current authority or whose result is among
/// `exceptions`; where several may be followed from one address, the first
/// listed is taken.
pub fn trace_evolutions_using_authorities_with_exceptions(
    start: Addr,
    updates: &Vec<NativeUpdate>,
    authorities: &Vec<AgentId>,
    exceptions: &Vec<Addr>,
) -> (r: Vec<Addr>)
    ensures
        r@ == walk(start, qualifying_map(updates@, authorities@, exceptions@)),
{
    let mut m: HashMap<Addr, Addr> = HashMap::new();
    let mut i: usize = updates.len();
    while i > 0
        invariant
            0 <= i <= updates.len(),
            m@ == qualifying_map(updates@.subrange(i as int, updates.len() as int), authorities@, exceptions@),
        decreases i,
    {
        i = i - 1;
        let u = updates[i];
        proof {
            let s = updates@.subrange(i as int, updates.len() as int);
            assert(s.drop_first() == updates@.subrange(i + 1, updates.len() as int));
            assert(s[0] == u);
        }
        if crate::group::contains_agent(authorities, u.author) || contains_addr(exceptions, u.next) {
            m.insert(u.prev, u.next);
        }
    }
    proof {
        assert(updates@.subrange(0, updates.len() as int) == updates@);
    }
    trace_update_map(start, &m)
}

/// The predecessor-to-successor pairs that `updates` declare, in order.
pub open spec fn pairs_of(updates: Seq<NativeUpdate>) -> Seq<(Addr, Addr)> {
    updates.map_values(|u: NativeUpdate| (u.prev, u.next))
}

/// No two updates declare the same predecessor.
pub open spec fn no_collision(updates: Seq<NativeUpdate>) -> bool {
    forall|i: int, j: int|
        0 <= i < updates.len() && 0 <= j < updates.len() && i != j ==> #[trigger] updates[i].prev
            != #[trigger] updates[j].prev
}

/// Without a collision, the pointer map holds exactly one pointer per update.
proof fn lemma_shortcut_map_of_updates(updates: Seq<NativeUpdate>)
    requires
        no_collision(updates),
    ensures
        forall|k: Addr|
            shortcut_map(pairs_of(updates)).contains_key(k) <==> exists|i: int|
                0 <= i < updates.len() && #[trigger] updates[i].prev == k,
        forall|i: int|
            0 <= i < updates.len() ==> shortcut_map(pairs_of(updates))[#[trigger] updates[i].prev]
                == updates[i].next,
    decreases updates.len(),
{
    if updates.len() > 0 {
        let init = updates.drop_last();
        assert(pairs_of(updates).drop_last() =~= pairs_of(init));
        assert(no_collision(init)) by {
            assert forall|i: int, j: int|
                0 <= i < init.len() && 0 <= j < init.len() && i != j implies #[trigger] init[i].prev
                    != #[trigger] init[j].prev by {
                assert(init[i] == updates[i] && init[j] == updates[j]);
            }
        }
        lemma_shortcut_map_of_updates(init);
        let n = updates.len() - 1;
        assert forall|k: Addr|
            shortcut_map(pairs_of(updates)).contains_key(k) <==> exists|i: int|
                0 <= i < updates.len() && #[trigger] updates[i].prev == k by {
            if shortcut_map(pairs_of(init)).contains_key(k) {
                let i = choose|i: int| 0 <= i < init.len() && #[trigger] init[i].prev == k;
                assert(updates[i].prev == k);
            }
            if exists|i: int| 0 <= i < updates.len() && #[trigger] updates[i].prev == k {
                let i = choose|i: int| 0 <= i < updates.len() && #[trigger] updates[i].prev == k;
                if i < n {
                    assert(init[i].prev == k);
                }
            }
        }
        assert forall|i: int| 0 <= i < updates.len() implies shortcut_map(pairs_of(updates))[
            #[trigger] updates[i].prev] == updates[i].next by {
            if i < n {
                assert(init[i] == updates[i]);
                assert(updates[i].prev != updates[n].prev);
            }
        }
    }
}

/// Where every update may be followed and none collide, the map of
/// followed updates holds exactly one pointer per update.
pub proof fn lemma_qualifying_map_of_updates(
    updates: Seq<NativeUpdate>,
    authorities: Seq<AgentId>,
    exceptions: Seq<Addr>,
)
    requires
        no_collision(updates),
        forall|i: int| 0 <= i < updates.len() ==> qualifies(#[trigger] updates[i], authorities, exceptions),
    ensures
        forall|k: Addr|
            qualifying_map(updates, authorities, exceptions).contains_key(k) <==> exists|i: int|
                0 <= i < updates.len() && #[trigger] updates[i].prev == k,
        forall|i: int|
            0 <= i < updates.len() ==> qualifying_map(updates, authorities, exceptions)[
                #[trigger] updates[i].prev] == updates[i].next,
    decreases updates.len(),
{
    if updates.len() > 0 {
        let tail = updates.drop_first();
        assert(no_collision(tail)) by {
            assert forall|i: int, j: int|
                0 <= i < tail.len() && 0 <= j < tail.len() && i != j implies #[trigger] tail[i].prev
                    != #[trigger] tail[j].prev by {
                assert(tail[i] == updates[i + 1] && tail[j] == updates[j + 1]);
            }
        }
        assert forall|i: int| 0 <= i < tail.len() implies qualifies(#[trigger] tail[i], authorities, exceptions) by {
            assert(tail[i] == updates[i + 1]);
        }
        lemma_qualifying_map_of_updates(tail, authorities, exceptions);
        assert(qualifies(updates[0], authorities, exceptions));
        assert forall|k: Addr|
            qualifying_map(updates, authorities, exceptions).contains_key(k) <==> exists|i: int|
                0 <= i < updates.len() && #[trigger] updates[i].prev == k by {
            if qualifying_map(tail, authorities, exceptions).contains_key(k) {
                let i = choose|i: int| 0 <= i < tail.len() && #[trigger] tail[i].prev == k;
                assert(updates[i + 1].prev == k);
            }
            if exists|i: int| 0 <= i < updates.len() && #[trigger] updates[i].prev == k {
                let i = choose|i: int| 0 <= i < updates.len() && #[trigger] updates[i].prev == k;
                if i > 0 {
                    assert(tail[i - 1].prev == k);
                }
            }
        }
        assert forall|i: int| 0 <= i < updates.len() implies qualifying_map(updates, authorities, exceptions)[
            #[trigger] updates[i].prev] == updates[i].next by {
            if i > 0 {
                assert(tail[i - 1] == updates[i]);
                assert(updates[i].prev != updates[0].prev);
            }
        }
    }
}

/// Where no two updates declare the same predecessor and every update may be
/// followed, the walk over the store's update records and the walk over the
/// pointers read from link tags reach the same chain, and so the same
/// latest version.
pub proof fn lemma_full_walk_agrees_with_shortcuts(
    start: Addr,
    updates: Seq<NativeUpdate>,
    authorities: Seq<AgentId>,
    exceptions: Seq<Addr>,
)
    requires
        no_collision(updates),
        forall|i: int| 0 <= i < updates.len() ==> qualifies(#[trigger] updates[i], authorities, exceptions),
    ensures
        walk(start, qualifying_map(updates, authorities, exceptions)) == walk(start, shortcut_map(pairs_of(updates))),
        walk(start, qualifying_map(updates, authorities, exceptions)).last()
            == walk(start, shortcut_map(pairs_of(updates))).last(),
{
    lemma_shortcut_map_of_updates(updates);
    lemma_qualifying_map_of_updates(updates, authorities, exceptions);
    assert(qualifying_map(updates, authorities, exceptions) =~= shortcut_map(pairs_of(updates)));
}

/// The map of followed updates is finite.
pub proof fn lemma_qualifying_map_finite(updates: Seq<NativeUpdate>, authorities: Seq<AgentId>, exceptions: Seq<Addr>)
    ensures
        qualifying_map(updates, authorities, exceptions).dom().finite(),
    decreases updates.len(),
{
    if updates.len() > 0 {
        lemma_qualifying_map_finite(updates.drop_first(), authorities, exceptions);
    }
}

/// A walk along the distinct addresses `chain`, each pointing to the next
/// and the last to nothing, ends at the last.
pub proof fn lemma_walk_chain(chain: Seq<Addr>, m: Map<Addr, Addr>)
    requires
        chain.len() >= 1,
        chain.no_duplicates(),
        m.dom().finite(),
        forall|i: int| 0 <= i < chain.len() - 1 ==> m.contains_key(#[trigger] chain[i]) && m[chain[i]] == chain[i + 1],
        !m.contains_key(chain.last()),
    ensures
        walk(chain[0], m).last() == chain.last(),
    decreases chain.len(),
{
    if chain.len() == 1 {
        assert(walk(chain[0], m) == seq![chain[0]]);
    } else {
        let rest = chain.drop_first();
        let m2 = m.remove(chain[0]);
        assert(m.contains_key(chain[0]) && m[chain[0]] == chain[1]);
        assert forall|i: int| 0 <= i < rest.len() - 1 implies m2.contains_key(#[trigger] rest[i]) && m2[rest[i]] == rest[i + 1] by {
            assert(rest[i] == chain[i + 1]);
            assert(m.contains_key(chain[i + 1]));
        }
        assert(rest.last() == chain.last());
        lemma_walk_chain(rest, m2);
        lemma_walk_starts(chain[1], m2);
        assert(walk(chain[0], m) == seq![chain[0]] + walk(chain[1], m2));
    }
}

} // verus!
