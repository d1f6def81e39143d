//! Reads: the content of a group at a revision, and the latest version of
//! each content item, by the shortcut walk or by the full walk.
use vstd::prelude::*;
use std::collections::HashMap;
use crate::evolution::{
    build_shortcut_map, lemma_walk_starts, qualifying_map, shortcut_map,
    trace_evolutions_using_authorities_with_exceptions, trace_update_map, walk, NativeUpdate,
};
use crate::store::{listed, Link, LinkStore};
use crate::types::{Addr, EngineError, ErrorKind, GroupEntry, LinkTypes, Node, Tag};

verus! {

/// The address a link target stands for: a record always; an entry or an
/// agent unless only records are asked for; an anchor never.
pub open spec fn target_addr(n: Node, records_only: bool) -> Option<Addr> {
    match n {
        Node::Action(a) => Some(a),
        Node::Entry(a) => if records_only { None } else { Some(a) },
        Node::Agent(a) => if records_only { None } else { Some(a) },
        _ => None,
    }
}

/// The address of a link target, as `target_addr` says.
pub fn node_addr(n: Node, records_only: bool) -> (r: Option<Addr>)
    ensures
        r == target_addr(n, records_only),
{
    match n {
        Node::Action(a) => Some(a),
        Node::Entry(a) => if records_only { None } else { Some(a) },
        Node::Agent(a) => if records_only { None } else { Some(a) },
        _ => None,
    }
}

/// The addresses that `links` point to, in order (records only where
/// `records_only` is set).
pub open spec fn link_targets(links: Seq<Link>, records_only: bool) -> Seq<Addr>
    decreases links.len(),
{
    if links.len() == 0 {
        Seq::empty()
    } else {
        let rest = link_targets(links.drop_last(), records_only);
        match target_addr(links.last().target, records_only) {
            Some(a) => rest.push(a),
            None => rest,
        }
    }
}

/// The predecessor-to-successor pointers that the update tags of `links`
/// declare, for links that point to an address, in order.
pub open spec fn update_pointers(links: Seq<Link>) -> Seq<(Addr, Addr)>
    decreases links.len(),
{
    if links.len() == 0 {
        Seq::empty()
    } else {
        let rest = update_pointers(links.drop_last());
        match (links.last().tag, target_addr(links.last().target, false)) {
            (Tag::Update { content_id, prev }, Some(t)) => rest.push((prev, t)),
            _ => rest,
        }
    }
}

/// The nodes that the live links of type `lt` from revision `revision` point to.
pub open spec fn anchors_at(links: Seq<Link>, revision: Addr, lt: LinkTypes) -> Seq<Node> {
    listed(links, Node::Action(revision), lt, None).map_values(|l: Link| l.target)
}

/// The anchors of revision `revision`: its archives, then its authorities.
pub open spec fn group_anchors(links: Seq<Link>, revision: Addr) -> Seq<Node> {
    anchors_at(links, revision, LinkTypes::GroupAuthArchive) + anchors_at(links, revision, LinkTypes::GroupAuth)
}

/// The targets of the live links of type `lt` from each of `anchors`, in
/// order (records only where `records_only` is set).
pub open spec fn targets_of(links: Seq<Link>, anchors: Seq<Node>, lt: LinkTypes, records_only: bool) -> Seq<Addr>
    decreases anchors.len(),
{
    if anchors.len() == 0 {
        Seq::empty()
    } else {
        targets_of(links, anchors.drop_last(), lt, records_only) + link_targets(
            listed(links, anchors.last(), lt, None),
            records_only,
        )
    }
}

/// The update pointers declared from each of `anchors`, in order.
pub open spec fn pointers_of(links: Seq<Link>, anchors: Seq<Node>) -> Seq<(Addr, Addr)>
    decreases anchors.len(),
{
    if anchors.len() == 0 {
        Seq::empty()
    } else {
        pointers_of(links, anchors.drop_last()) + update_pointers(
            listed(links, anchors.last(), LinkTypes::ContentUpdate, None),
        )
    }
}

/// The content items of a group at revision `revision`: what its archived
/// and current authorities created.
pub open spec fn group_roots(links: Seq<Link>, revision: Addr) -> Seq<Addr> {
    targets_of(links, group_anchors(links, revision), LinkTypes::Content, false)
}

/// The content items of a group at revision `revision` that are records,
/// whose chains the full walk can follow.
pub open spec fn group_record_roots(links: Seq<Link>, revision: Addr) -> Seq<Addr> {
    targets_of(links, group_anchors(links, revision), LinkTypes::Content, true)
}

/// The shortcut pointers of a group at revision `revision`.
pub open spec fn group_shortcuts(links: Seq<Link>, revision: Addr) -> Map<Addr, Addr> {
    shortcut_map(pointers_of(links, group_anchors(links, revision)))
}

/// The versions made by authorities archived at revision `revision`.
pub open spec fn group_exceptions(links: Seq<Link>, revision: Addr) -> Seq<Addr> {
    targets_of(links, anchors_at(links, revision, LinkTypes::GroupAuthArchive), LinkTypes::ContentUpdate, true)
}

/// Successor pointers of the full walk of a group at revision `revision`.
pub open spec fn full_walk_map(
    links: Seq<Link>,
    revision: Addr,
    group: GroupEntry,
    updates: Seq<NativeUpdate>,
) -> Map<Addr, Addr> {
    qualifying_map(updates, group.authorities@, group_exceptions(links, revision))
}

/// The nodes that the live links of type `lt` from `revision` point to.
fn linked_anchors(store: &LinkStore, revision: Addr, lt: LinkTypes, out: &mut Vec<Node>)
    ensures
        final(out)@ == old(out)@ + anchors_at(store.links@, revision, lt),
{
    let ls = store.get_links(Node::Action(revision), lt, None);
    let ghost start = out@;
    let mut i: usize = 0;
    while i < ls.len()
        invariant
            0 <= i <= ls@.len(),
            ls@ == listed(store.links@, Node::Action(revision), lt, None),
            out@ == start + ls@.subrange(0, i as int).map_values(|l: Link| l.target),
        decreases ls.len() - i,
    {
        out.push(ls[i].target);
        i = i + 1;
        proof {
            assert(ls@.subrange(0, i as int).map_values(|l: Link| l.target) =~= ls@.subrange(0, i - 1).map_values(|l: Link| l.target).push(ls@[i - 1].target));
        }
    }
    proof {
        assert(ls@.subrange(0, ls@.len() as int) == ls@);
    }
}

/// The anchors of `revision`: its archives, then its authorities.
fn collect_group_anchors(store: &LinkStore, revision: Addr) -> (r: Vec<Node>)
    ensures
        r@ == group_anchors(store.links@, revision),
{
    let mut r: Vec<Node> = Vec::new();
    linked_anchors(store, revision, LinkTypes::GroupAuthArchive, &mut r);
    linked_anchors(store, revision, LinkTypes::GroupAuth, &mut r);
    proof {
        assert(r@ =~= group_anchors(store.links@, revision));
    }
    r
}

/// The targets of the live links of type `lt` from each of `anchors`.
fn collect_targets(store: &LinkStore, anchors: &Vec<Node>, lt: LinkTypes, records_only: bool) -> (r: Vec<Addr>)
    ensures
        r@ == targets_of(store.links@, anchors@, lt, records_only),
{
    let mut r: Vec<Addr> = Vec::new();
    let mut i: usize = 0;
    while i < anchors.len()
        invariant
            0 <= i <= anchors@.len(),
            r@ == targets_of(store.links@, anchors@.subrange(0, i as int), lt, records_only),
        decreases anchors.len() - i,
    {
        let ls = store.get_links(anchors[i], lt, None);
        let ghost before = r@;
        let mut k: usize = 0;
        while k < ls.len()
            invariant
                0 <= k <= ls@.len(),
                r@ == before + link_targets(ls@.subrange(0, k as int), records_only),
            decreases ls.len() - k,
        {
            proof {
                assert(ls@.subrange(0, k + 1).drop_last() == ls@.subrange(0, k as int));
            }
            match node_addr(ls[k].target, records_only) {
                Some(a) => r.push(a),
                None => {},
            }
            proof {
                assert(r@ =~= before + link_targets(ls@.subrange(0, k + 1), records_only));
            }
            k = k + 1;
        }
        proof {
            assert(ls@.subrange(0, ls@.len() as int) == ls@);
            assert(anchors@.subrange(0, i + 1).drop_last() == anchors@.subrange(0, i as int));
        }
        i = i + 1;
    }
    proof {
        assert(anchors@.subrange(0, anchors@.len() as int) == anchors@);
    }
    r
}

/// The update pointers declared from each of `anchors`.
fn collect_pointers(store: &LinkStore, anchors: &Vec<Node>) -> (r: Vec<(Addr, Addr)>)
    ensures
        r@ == pointers_of(store.links@, anchors@),
{
    let mut r: Vec<(Addr, Addr)> = Vec::new();
    let mut i: usize = 0;
    while i < anchors.len()
        invariant
            0 <= i <= anchors@.len(),
            r@ == pointers_of(store.links@, anchors@.subrange(0, i as int)),
        decreases anchors.len() - i,
    {
        let ls = store.get_links(anchors[i], LinkTypes::ContentUpdate, None);
        let ghost before = r@;
        let mut k: usize = 0;
        while k < ls.len()
            invariant
                0 <= k <= ls@.len(),
                r@ == before + update_pointers(ls@.subrange(0, k as int)),
            decreases ls.len() - k,
        {
            proof {
                assert(ls@.subrange(0, k + 1).drop_last() == ls@.subrange(0, k as int));
            }
            match (ls[k].tag, node_addr(ls[k].target, false)) {
                (Tag::Update { content_id, prev }, Some(t)) => r.push((prev, t)),
                _ => {},
            }
            proof {
                assert(r@ =~= before + update_pointers(ls@.subrange(0, k + 1)));
            }
            k = k + 1;
        }
        proof {
            assert(ls@.subrange(0, ls@.len() as int) == ls@);
            assert(anchors@.subrange(0, i + 1).drop_last() == anchors@.subrange(0, i as int));
        }
        i = i + 1;
    }
    proof {
        assert(anchors@.subrange(0, anchors@.len() as int) == anchors@);
    }
    r
}

/// The shortcut pointers of the group at revision `group_rev`: for each
/// predecessor, the successor declared last over its archives, then its
/// authorities.
fn group_shortcut_map(store: &LinkStore, anchors: &Vec<Node>) -> (r: HashMap<Addr, Addr>)
    ensures
        r@ == shortcut_map(pointers_of(store.links@, anchors@)),
{
    let pointers = collect_pointers(store, anchors);
    build_shortcut_map(&pointers)
}

/// Each content item of the group at revision `group_rev`, with its chain
/// through the shortcut pointers from its creation to its latest version.
pub fn trace_all_group_content_evolutions_shortcuts(store: &LinkStore, group_rev: Addr) -> (r: Vec<(Addr, Vec<Addr>)>)
    ensures
        r@.len() == group_roots(store.links@, group_rev).len(),
        forall|i: int| 0 <= i < r@.len() ==> {
            &&& (#[trigger] r@[i]).0 == group_roots(store.links@, group_rev)[i]
            &&& r@[i].1@ == walk(r@[i].0, group_shortcuts(store.links@, group_rev))
        },
{
    let anchors = collect_group_anchors(store, group_rev);
    let targets = collect_targets(store, &anchors, LinkTypes::Content, false);
    let updates = group_shortcut_map(store, &anchors);
    let mut r: Vec<(Addr, Vec<Addr>)> = Vec::new();
    let mut i: usize = 0;
    while i < targets.len()
        invariant
            0 <= i <= targets@.len(),
            targets@ == group_roots(store.links@, group_rev),
            updates@ == group_shortcuts(store.links@, group_rev),
            r@.len() == i,
            forall|k: int| 0 <= k < i ==> {
                &&& (#[trigger] r@[k]).0 == targets@[k]
                &&& r@[k].1@ == walk(r@[k].0, updates@)
            },
        decreases targets.len() - i,
    {
        let addr = targets[i];
        r.push((addr, trace_update_map(addr, &updates)));
        i = i + 1;
    }
    r
}

/// Each content item of the group at revision `group_rev`, with its latest
/// version by the shortcut pointers.
pub fn get_all_group_content_targets_shortcuts(store: &LinkStore, group_rev: Addr) -> (r: Vec<(Addr, Addr)>)
    ensures
        r@.len() == group_roots(store.links@, group_rev).len(),
        forall|i: int| 0 <= i < r@.len() ==> #[trigger] r@[i] == (
            group_roots(store.links@, group_rev)[i],
            walk(group_roots(store.links@, group_rev)[i], group_shortcuts(store.links@, group_rev)).last(),
        ),
{
    let evolutions = trace_all_group_content_evolutions_shortcuts(store, group_rev);
    let mut r: Vec<(Addr, Addr)> = Vec::new();
    let mut i: usize = 0;
    while i < evolutions.len()
        invariant
            0 <= i <= evolutions@.len(),
            evolutions@.len() == group_roots(store.links@, group_rev).len(),
            forall|k: int| 0 <= k < evolutions@.len() ==> {
                &&& (#[trigger] evolutions@[k]).0 == group_roots(store.links@, group_rev)[k]
                &&& evolutions@[k].1@ == walk(evolutions@[k].0, group_shortcuts(store.links@, group_rev))
            },
            r@.len() == i,
            forall|k: int| 0 <= k < i ==> #[trigger] r@[k] == (
                group_roots(store.links@, group_rev)[k],
                walk(group_roots(store.links@, group_rev)[k], group_shortcuts(store.links@, group_rev)).last(),
            ),
        decreases evolutions.len() - i,
    {
        let (key, chain) = (evolutions[i].0, &evolutions[i].1);
        proof {
            let e = evolutions@[i as int];
            lemma_walk_starts(e.0, group_shortcuts(store.links@, group_rev));
        }
        let latest = chain[chain.len() - 1];
        r.push((key, latest));
        i = i + 1;
    }
    r
}

/// The versions made by the authorities archived at `group_rev`.
fn collect_exceptions(store: &LinkStore, group_rev: Addr) -> (r: Vec<Addr>)
    ensures
        r@ == group_exceptions(store.links@, group_rev),
{
    let mut archives: Vec<Node> = Vec::new();
    linked_anchors(store, group_rev, LinkTypes::GroupAuthArchive, &mut archives);
    proof {
        assert(archives@ =~= anchors_at(store.links@, group_rev, LinkTypes::GroupAuthArchive));
    }
    collect_targets(store, &archives, LinkTypes::ContentUpdate, true)
}

/// Each content item of the group at revision `group_rev` that is a record,
/// where the group's content is `group`, with its latest version by the full walk over the store's
/// update records `updates`: an update is followed where its author is an
/// authority of `group`, or its result was made by an authority archived
/// at `group_rev`.
pub fn get_all_group_content_targets_full_trace(
    store: &LinkStore,
    group_rev: Addr,
    group: &GroupEntry,
    updates: &Vec<NativeUpdate>,
) -> (r: Vec<(Addr, Addr)>)
    ensures
        r@.len() == group_record_roots(store.links@, group_rev).len(),
        forall|i: int| 0 <= i < r@.len() ==> #[trigger] r@[i] == (
            group_record_roots(store.links@, group_rev)[i],
            walk(group_record_roots(store.links@, group_rev)[i], full_walk_map(store.links@, group_rev, *group, updates@)).last(),
        ),
{
    let exceptions = collect_exceptions(store, group_rev);
    let anchors = collect_group_anchors(store, group_rev);
    let targets = collect_targets(store, &anchors, LinkTypes::Content, true);
    let mut r: Vec<(Addr, Addr)> = Vec::new();
    let mut i: usize = 0;
    while i < targets.len()
        invariant
            0 <= i <= targets@.len(),
            targets@ == group_record_roots(store.links@, group_rev),
            exceptions@ == group_exceptions(store.links@, group_rev),
            r@.len() == i,
            forall|k: int| 0 <= k < i ==> #[trigger] r@[k] == (
                targets@[k],
                walk(targets@[k], full_walk_map(store.links@, group_rev, *group, updates@)).last(),
            ),
        decreases targets.len() - i,
    {
        let addr = targets[i];
        let chain = trace_evolutions_using_authorities_with_exceptions(addr, updates, &group.authorities, &exceptions);
        proof {
            lemma_walk_starts(addr, full_walk_map(store.links@, group_rev, *group, updates@));
        }
        r.push((addr, chain[chain.len() - 1]));
        i = i + 1;
    }
    r
}

/// Each content item of the group at `group_rev` with its latest version:
/// by the full walk where `full_trace` is `Some(true)`, else by the
/// shortcut pointers.
pub fn get_all_group_content_targets(
    store: &LinkStore,
    group_rev: Addr,
    group: &GroupEntry,
    updates: &Vec<NativeUpdate>,
    full_trace: Option<bool>,
) -> (r: Vec<(Addr, Addr)>)
    ensures
        full_trace == Some(true) ==> r@.len() == group_record_roots(store.links@, group_rev).len(),
        full_trace == Some(true) ==> forall|i: int| 0 <= i < r@.len() ==> #[trigger] r@[i] == (
            group_record_roots(store.links@, group_rev)[i],
            walk(group_record_roots(store.links@, group_rev)[i], full_walk_map(store.links@, group_rev, *group, updates@)).last(),
        ),
        full_trace != Some(true) ==> r@.len() == group_roots(store.links@, group_rev).len(),
        full_trace != Some(true) ==> forall|i: int| 0 <= i < r@.len() ==> #[trigger] r@[i] == (
            group_roots(store.links@, group_rev)[i],
            walk(group_roots(store.links@, group_rev)[i], group_shortcuts(store.links@, group_rev)).last(),
        ),
{
    match full_trace {
        Some(true) => get_all_group_content_targets_full_trace(store, group_rev, group, updates),
        _ => get_all_group_content_targets_shortcuts(store, group_rev),
    }
}

/// The latest version of content item `content_id` of the group at
/// revision `group_rev`, whose content is `group`, by the full walk over
/// the store's update records `updates`. A chain always holds its start,
/// so the error for an empty chain never comes.
pub fn get_group_content_latest_full_trace(
    store: &LinkStore,
    group_rev: Addr,
    group: &GroupEntry,
    updates: &Vec<NativeUpdate>,
    content_id: Addr,
) -> (r: Result<Addr, EngineError>)
    ensures
        r matches Ok(a) && a == walk(content_id, full_walk_map(store.links@, group_rev, *group, updates@)).last(),
{
    let exceptions = collect_exceptions(store, group_rev);
    let chain = trace_evolutions_using_authorities_with_exceptions(content_id, updates, &group.authorities, &exceptions);
    proof {
        lemma_walk_starts(content_id, full_walk_map(store.links@, group_rev, *group, updates@));
    }
    match chain.last() {
        Some(a) => Ok(*a),
        None => Err(EngineError {
            kind: ErrorKind::InternalInvariantViolation,
            message: "Evolution chain is empty".to_string(),
        }),
    }
}

/// The latest version of content item `content_id` of the group at
/// revision `group_rev`, by the shortcut pointers; not found where no
/// archived or current authority of the group created it.
pub fn get_group_content_latest_shortcuts(store: &LinkStore, group_rev: Addr, content_id: Addr) -> (r: Result<Addr, EngineError>)
    ensures
        group_roots(store.links@, group_rev).contains(content_id) ==> (r matches Ok(a) && a == walk(
            content_id,
            group_shortcuts(store.links@, group_rev),
        ).last()),
        !group_roots(store.links@, group_rev).contains(content_id) ==> (r matches Err(e) && e.kind == ErrorKind::NotFound),
{
    let evolutions = trace_all_group_content_evolutions_shortcuts(store, group_rev);
    let mut i: usize = 0;
    while i < evolutions.len()
        invariant
            0 <= i <= evolutions@.len(),
            evolutions@.len() == group_roots(store.links@, group_rev).len(),
            forall|k: int| 0 <= k < evolutions@.len() ==> {
                &&& (#[trigger] evolutions@[k]).0 == group_roots(store.links@, group_rev)[k]
                &&& evolutions@[k].1@ == walk(evolutions@[k].0, group_shortcuts(store.links@, group_rev))
            },
            forall|k: int| 0 <= k < i ==> group_roots(store.links@, group_rev)[k] != content_id,
        decreases evolutions.len() - i,
    {
        if evolutions[i].0 == content_id {
            let chain = &evolutions[i].1;
            proof {
                lemma_walk_starts(content_id, group_shortcuts(store.links@, group_rev));
            }
            return Ok(chain[chain.len() - 1]);
        }
        i = i + 1;
    }
    Err(EngineError { kind: ErrorKind::NotFound, message: "Content ID is not in group content".to_string() })
}

/// The latest version of content item `content_id` of the group at
/// `group_rev`: by the full walk where `full_trace` is `Some(true)`, else by
/// the shortcut pointers.
pub fn get_group_content_latest(
    store: &LinkStore,
    group_rev: Addr,
    group: &GroupEntry,
    updates: &Vec<NativeUpdate>,
    content_id: Addr,
    full_trace: Option<bool>,
) -> (r: Result<Addr, EngineError>)
    ensures
        full_trace == Some(true) ==> (r matches Ok(a) && a == walk(content_id, full_walk_map(store.links@, group_rev, *group, updates@)).last()),
        full_trace != Some(true) && group_roots(store.links@, group_rev).contains(content_id) ==> (r matches Ok(a) && a == walk(
            content_id,
            group_shortcuts(store.links@, group_rev),
        ).last()),
        full_trace != Some(true) && !group_roots(store.links@, group_rev).contains(content_id) ==> (r matches Err(e) && e.kind == ErrorKind::NotFound),
{
    match full_trace {
        Some(true) => get_group_content_latest_full_trace(store, group_rev, group, updates, content_id),
        _ => get_group_content_latest_shortcuts(store, group_rev, content_id),
    }
}

/// The address of a target of one of `links` is among their targets.
proof fn lemma_action_target_in(links: Seq<Link>, i: int, c: Addr, records_only: bool)
    requires
        0 <= i < links.len(),
        target_addr(links[i].target, records_only) == Some(c),
    ensures
        link_targets(links, records_only).contains(c),
    decreases links.len(),
{
    let rest = link_targets(links.drop_last(), records_only);
    if i == links.len() - 1 {
        assert(rest.push(c)[rest.len() as int] == c);
    } else {
        assert(links.drop_last()[i] == links[i]);
        lemma_action_target_in(links.drop_last(), i, c, records_only);
        let k = choose|k: int| 0 <= k < rest.len() && rest[k] == c;
        if let Some(a) = target_addr(links.last().target, records_only) {
            assert(rest.push(a)[k] == c);
        }
    }
}

/// A record that a live link of type `lt` from one of `anchors` points to
/// is among the targets of `anchors`.
proof fn lemma_linked_target_in(links: Seq<Link>, anchors: Seq<Node>, lt: LinkTypes, k: int, i: int, c: Addr, records_only: bool)
    requires
        0 <= k < anchors.len(),
        0 <= i < links.len(),
        !links[i].deleted,
        links[i].base == anchors[k],
        links[i].link_type == lt,
        target_addr(links[i].target, records_only) == Some(c),
    ensures
        targets_of(links, anchors, lt, records_only).contains(c),
    decreases anchors.len(),
{
    let init = anchors.drop_last();
    if k == anchors.len() - 1 {
        crate::store::lemma_listed_contains(links, anchors[k], lt, None, i);
        let ls = listed(links, anchors[k], lt, None);
        let j = choose|j: int| 0 <= j < ls.len() && ls[j] == links[i];
        lemma_action_target_in(ls, j, c, records_only);
        let t = link_targets(ls, records_only);
        let m = choose|m: int| 0 <= m < t.len() && t[m] == c;
        assert((targets_of(links, init, lt, records_only) + t)[targets_of(links, init, lt, records_only).len() + m] == c);
    } else {
        assert(init[k] == anchors[k]);
        lemma_linked_target_in(links, init, lt, k, i, c, records_only);
        let t = targets_of(links, init, lt, records_only);
        let m = choose|m: int| 0 <= m < t.len() && t[m] == c;
        assert((t + link_targets(listed(links, anchors.last(), lt, None), records_only))[m] == c);
    }
}

/// A node that a live link of type `lt` from revision `revision` points to
/// is among the anchors of that revision.
proof fn lemma_anchor_at(links: Seq<Link>, revision: Addr, lt: LinkTypes, i: int)
    requires
        0 <= i < links.len(),
        !links[i].deleted,
        links[i].base == Node::Action(revision),
        links[i].link_type == lt,
    ensures
        anchors_at(links, revision, lt).contains(links[i].target),
{
    crate::store::lemma_listed_contains(links, Node::Action(revision), lt, None, i);
    let ls = listed(links, Node::Action(revision), lt, None);
    let j = choose|j: int| 0 <= j < ls.len() && ls[j] == links[i];
    assert(anchors_at(links, revision, lt)[j] == links[i].target);
}

/// Every key of a pointer map is the predecessor of one of its pairs.
proof fn lemma_shortcut_map_keys(pairs: Seq<(Addr, Addr)>, k: Addr)
    requires
        shortcut_map(pairs).contains_key(k),
    ensures
        exists|i: int| 0 <= i < pairs.len() && #[trigger] pairs[i].0 == k,
    decreases pairs.len(),
{
    if pairs.last().0 != k {
        lemma_shortcut_map_keys(pairs.drop_last(), k);
        let i = choose|i: int| 0 <= i < pairs.len() - 1 && #[trigger] pairs.drop_last()[i].0 == k;
        assert(pairs[i].0 == k);
    } else {
        assert(pairs[pairs.len() - 1].0 == k);
    }
}

/// Every key of the map of followed updates is the predecessor of an update.
proof fn lemma_qualifying_map_keys(updates: Seq<NativeUpdate>, authorities: Seq<crate::types::AgentId>, exceptions: Seq<Addr>, k: Addr)
    requires
        qualifying_map(updates, authorities, exceptions).contains_key(k),
    ensures
        exists|i: int| 0 <= i < updates.len() && #[trigger] updates[i].prev == k,
    decreases updates.len(),
{
    if updates[0].prev != k {
        lemma_qualifying_map_keys(updates.drop_first(), authorities, exceptions, k);
        let i = choose|i: int| 0 <= i < updates.len() - 1 && #[trigger] updates.drop_first()[i].prev == k;
        assert(updates[i + 1].prev == k);
    } else {
        assert(updates[0].prev == k);
    }
}

/// Content just registered by an authority linked from revision `revision`
/// is listed among the group's content at that revision, and while no
/// update declares it as predecessor, both walks give it as its own latest
/// version.
pub proof fn lemma_new_content_is_its_own_latest(
    s: LinkStore,
    revision: Addr,
    group_id: Addr,
    author: crate::types::AgentId,
    c: Addr,
    group: GroupEntry,
    updates: Seq<NativeUpdate>,
)
    requires
        s.has_link(Node::Action(revision), Node::AuthAnchor(group_id, author), LinkTypes::GroupAuth, Tag::Empty),
        s.has_link(Node::AuthAnchor(group_id, author), Node::Action(c), LinkTypes::Content, Tag::Empty),
    ensures
        group_roots(s.links@, revision).contains(c),
        (forall|i: int| 0 <= i < pointers_of(s.links@, group_anchors(s.links@, revision)).len()
            ==> (#[trigger] pointers_of(s.links@, group_anchors(s.links@, revision))[i]).0 != c)
            ==> walk(c, group_shortcuts(s.links@, revision)).last() == c,
        (forall|i: int| 0 <= i < updates.len() ==> (#[trigger] updates[i]).prev != c)
            ==> walk(c, full_walk_map(s.links@, revision, group, updates)).last() == c,
{
    let links = s.links@;
    let anchor = Node::AuthAnchor(group_id, author);
    let i = choose|i: int| 0 <= i < links.len() && crate::store::is_live(#[trigger] links[i], Node::Action(revision), anchor, LinkTypes::GroupAuth, Tag::Empty);
    let j = choose|j: int| 0 <= j < links.len() && crate::store::is_live(#[trigger] links[j], anchor, Node::Action(c), LinkTypes::Content, Tag::Empty);
    lemma_anchor_at(links, revision, LinkTypes::GroupAuth, i);
    let archives = anchors_at(links, revision, LinkTypes::GroupAuthArchive);
    let auths = anchors_at(links, revision, LinkTypes::GroupAuth);
    let m = choose|m: int| 0 <= m < auths.len() && auths[m] == anchor;
    assert(group_anchors(links, revision)[archives.len() + m] == anchor);
    lemma_linked_target_in(links, group_anchors(links, revision), LinkTypes::Content, archives.len() + m, j, c, false);
    let sm = group_shortcuts(links, revision);
    if !sm.contains_key(c) {
        assert(walk(c, sm) == seq![c]);
    } else {
        if forall|i: int| 0 <= i < pointers_of(links, group_anchors(links, revision)).len()
            ==> (#[trigger] pointers_of(links, group_anchors(links, revision))[i]).0 != c {
            lemma_shortcut_map_keys(pointers_of(links, group_anchors(links, revision)), c);
        }
    }
    let fm = full_walk_map(links, revision, group, updates);
    if !fm.contains_key(c) {
        assert(walk(c, fm) == seq![c]);
    } else {
        if forall|i: int| 0 <= i < updates.len() ==> (#[trigger] updates[i]).prev != c {
            lemma_qualifying_map_keys(updates, group.authorities@, group_exceptions(links, revision), c);
        }
    }
}

/// Once `agent` is archived at revision `revision`, everything it created
/// under the group is still listed among the group's content there, and
/// every version it made is an exception that the full walk follows.
pub proof fn lemma_removed_authority_content_reachable(
    s: LinkStore,
    group_id: Addr,
    revision: Addr,
    agent: crate::types::AgentId,
    i: int,
    t: Addr,
)
    requires
        crate::registry::archived(s, group_id, revision, agent),
        0 <= i < s.links@.len(),
        crate::registry::is_content_link_of(s.links@[i], Node::AuthAnchor(group_id, agent)),
        s.links@[i].target == Node::Action(t),
    ensures
        s.links@[i].link_type == LinkTypes::Content ==> group_roots(s.links@, revision).contains(t),
        s.links@[i].link_type == LinkTypes::ContentUpdate ==> group_exceptions(s.links@, revision).contains(t),
{
    let links = s.links@;
    let archive = Node::ArchiveAnchor(revision, agent);
    let a = choose|a: int| 0 <= a < links.len() && crate::store::is_live(#[trigger] links[a], Node::Action(revision), archive, LinkTypes::GroupAuthArchive, Tag::Empty);
    lemma_anchor_at(links, revision, LinkTypes::GroupAuthArchive, a);
    let archives = anchors_at(links, revision, LinkTypes::GroupAuthArchive);
    let m = choose|m: int| 0 <= m < archives.len() && archives[m] == archive;
    let lt = links[i].link_type;
    let tag = links[i].tag;
    assert(s.has_link(archive, Node::Action(t), lt, tag));
    let j = choose|j: int| 0 <= j < links.len() && crate::store::is_live(#[trigger] links[j], archive, Node::Action(t), lt, tag);
    if lt == LinkTypes::Content {
        assert(group_anchors(links, revision)[m] == archive);
        lemma_linked_target_in(links, group_anchors(links, revision), LinkTypes::Content, m, j, t, false);
    } else {
        lemma_linked_target_in(links, archives, LinkTypes::ContentUpdate, m, j, t, true);
    }
}

/// Once `agent` is archived at revision `revision`, every update whose
/// result the agent registered under the group before its removal is still
/// followed by the full walk at that revision, whoever the authorities are.
pub proof fn lemma_archived_updates_are_followed(
    s: LinkStore,
    group_id: Addr,
    revision: Addr,
    agent: crate::types::AgentId,
    group: GroupEntry,
    u: NativeUpdate,
    tag: Tag,
)
    requires
        crate::registry::archived(s, group_id, revision, agent),
        s.has_link(Node::AuthAnchor(group_id, agent), Node::Action(u.next), LinkTypes::ContentUpdate, tag),
    ensures
        crate::evolution::qualifies(u, group.authorities@, group_exceptions(s.links@, revision)),
{
    let i = choose|i: int| 0 <= i < s.links@.len() && crate::store::is_live(#[trigger] s.links@[i], Node::AuthAnchor(group_id, agent), Node::Action(u.next), LinkTypes::ContentUpdate, tag);
    lemma_removed_authority_content_reachable(s, group_id, revision, agent, i, u.next);
}

/// Content `chain[0]` was created by `agent` and updated by it step by step
/// to `chain.last()`, each version registered under the group, before the
/// agent was archived at revision `revision`: the full walk there still
/// reaches `chain.last()`, whoever the authorities are.
pub proof fn lemma_removed_authority_latest(
    s: LinkStore,
    group_id: Addr,
    revision: Addr,
    agent: crate::types::AgentId,
    group: GroupEntry,
    chain: Seq<Addr>,
    updates: Seq<NativeUpdate>,
)
    requires
        crate::registry::archived(s, group_id, revision, agent),
        chain.len() >= 1,
        chain.no_duplicates(),
        updates.len() == chain.len() - 1,
        forall|i: int| 0 <= i < updates.len() ==> (#[trigger] updates[i]).prev == chain[i] && updates[i].next == chain[i + 1],
        forall|i: int| 0 <= i < updates.len() ==> exists|tag: Tag|
            s.has_link(Node::AuthAnchor(group_id, agent), Node::Action(#[trigger] updates[i].next), LinkTypes::ContentUpdate, tag),
    ensures
        walk(chain[0], full_walk_map(s.links@, revision, group, updates)).last() == chain.last(),
{
    let exc = group_exceptions(s.links@, revision);
    assert forall|i: int| 0 <= i < updates.len() implies crate::evolution::qualifies(#[trigger] updates[i], group.authorities@, exc) by {
        let tag = choose|tag: Tag| s.has_link(Node::AuthAnchor(group_id, agent), Node::Action(updates[i].next), LinkTypes::ContentUpdate, tag);
        lemma_archived_updates_are_followed(s, group_id, revision, agent, group, updates[i], tag);
    }
    assert(crate::evolution::no_collision(updates)) by {
        assert forall|i: int, j: int| 0 <= i < updates.len() && 0 <= j < updates.len() && i != j
            implies #[trigger] updates[i].prev != #[trigger] updates[j].prev by {
            assert(updates[i].prev == chain[i] && updates[j].prev == chain[j]);
        }
    }
    crate::evolution::lemma_qualifying_map_of_updates(updates, group.authorities@, exc);
    crate::evolution::lemma_qualifying_map_finite(updates, group.authorities@, exc);
    let m = full_walk_map(s.links@, revision, group, updates);
    assert forall|i: int| 0 <= i < chain.len() - 1 implies m.contains_key(#[trigger] chain[i]) && m[chain[i]] == chain[i + 1] by {
        assert(updates[i].prev == chain[i]);
    }
    if m.contains_key(chain.last()) {
        let i = choose|i: int| 0 <= i < updates.len() && #[trigger] updates[i].prev == chain.last();
        assert(chain[i] == chain[chain.len() - 1]);
    }
    crate::evolution::lemma_walk_chain(chain, m);
}

} // verus!
