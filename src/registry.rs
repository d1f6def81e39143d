//! Writes: groups and their revisions, authority and archive anchors, and
//! the content links registered against them.
use vstd::prelude::*;
use crate::group::{added_of, removed_of};
use crate::store::{is_listed, is_live, lemma_listed_contains, lemma_listed_sound, listed, Link, LinkStore};
use crate::types::{Addr, AgentId, EngineError, ErrorKind, GroupEntry, LinkTypes, Node, Tag};
use crate::validation::update_entry::{group_update_allowed, same_agents};

verus! {

/// The anchor under which `author` registers content of group `group_id`.
/// It is keyed by the group's identity, not by its revision: an authority
/// kept from one revision to the next keeps its anchor, and with it the
/// content it registered earlier. Each revision lists its current
/// authorities by its own authority links to these anchors.
pub fn group_auth_anchor_hash(group_id: Addr, author: AgentId) -> (r: Node)
    ensures
        r == Node::AuthAnchor(group_id, author),
{
    Node::AuthAnchor(group_id, author)
}

/// The anchor that keeps the content of `author`, removed from the
/// authorities at revision `revision`.
pub fn group_auth_archive_anchor_hash(revision: Addr, author: AgentId) -> (r: Node)
    ensures
        r == Node::ArchiveAnchor(revision, author),
{
    Node::ArchiveAnchor(revision, author)
}

/// A live create or update link from `anchor`.
pub open spec fn is_content_link_of(l: Link, anchor: Node) -> bool {
    !l.deleted && l.base == anchor && (l.link_type == LinkTypes::Content || l.link_type
        == LinkTypes::ContentUpdate)
}

/// `after` only appends to the links of `before`, and no appended link
/// starts from an authority anchor.
pub open spec fn appends_no_content(before: LinkStore, after: LinkStore) -> bool {
    &&& after.links@.len() >= before.links@.len()
    &&& forall|j: int| 0 <= j < before.links@.len() ==> #[trigger] after.links@[j] == before.links@[j]
    &&& forall|j: int| before.links@.len() <= j < after.links@.len() ==> !(#[trigger] after.links@[j].base is AuthAnchor)
}

/// The archive of `agent` at revision `revision` is in place: its anchor
/// exists, is linked from the revision, and holds a copy of every live
/// create and update link of the agent's authority anchor under `group_id`.
pub open spec fn archived(s: LinkStore, group_id: Addr, revision: Addr, agent: AgentId) -> bool {
    &&& s.has_entry(Node::ArchiveAnchor(revision, agent))
    &&& s.has_link(Node::Action(revision), Node::ArchiveAnchor(revision, agent), LinkTypes::GroupAuthArchive, Tag::Empty)
    &&& forall|i: int|
        0 <= i < s.links@.len() && is_content_link_of(#[trigger] s.links@[i], Node::AuthAnchor(group_id, agent))
            ==> s.has_link(Node::ArchiveAnchor(revision, agent), s.links@[i].target, s.links@[i].link_type, s.links@[i].tag)
}

proof fn lemma_appends_no_content_trans(a: LinkStore, b: LinkStore, c: LinkStore)
    requires
        appends_no_content(a, b),
        appends_no_content(b, c),
    ensures
        appends_no_content(a, c),
{
    assert forall|j: int| a.links@.len() <= j < c.links@.len() implies !(#[trigger] c.links@[j].base is AuthAnchor) by {
        if j < b.links@.len() {
            assert(c.links@[j] == b.links@[j]);
        }
    }
}

/// An archive stays in place while links are only appended elsewhere.
proof fn lemma_archived_kept(a: LinkStore, b: LinkStore, group_id: Addr, revision: Addr, agent: AgentId)
    requires
        archived(a, group_id, revision, agent),
        appends_no_content(a, b),
        b.extends(&a),
    ensures
        archived(b, group_id, revision, agent),
{
    assert forall|i: int|
        0 <= i < b.links@.len() && is_content_link_of(#[trigger] b.links@[i], Node::AuthAnchor(group_id, agent))
            implies b.has_link(Node::ArchiveAnchor(revision, agent), b.links@[i].target, b.links@[i].link_type, b.links@[i].tag) by {
        assert(a.links@[i] == b.links@[i]);
    }
}

/// Creating a link from a node that is no authority anchor appends no content.
proof fn lemma_create_link_frame(before: LinkStore, after: LinkStore, base: Node, target: Node, lt: LinkTypes, tag: Tag, h: Addr)
    requires
        !(base is AuthAnchor),
        before.has_link(base, target, lt, tag) ==> after.same_as(&before),
        !before.has_link(base, target, lt, tag) ==> after.links@ == before.links@.push(
            (Link { create_link_hash: h, base, target, link_type: lt, tag, deleted: false }),
        ),
    ensures
        appends_no_content(before, after),
{
}

/// The link at `j` is live, and no live link equal to it comes before it.
pub open spec fn fresh_at(links: Seq<Link>, j: int) -> bool {
    &&& !links[j].deleted
    &&& forall|k: int| 0 <= k < j ==> !is_live(#[trigger] links[k], links[j].base, links[j].target, links[j].link_type, links[j].tag)
}

/// `after` keeps every link of `before` at its index, and each link it
/// appends is live and was not there before.
pub open spec fn appends_fresh(before: LinkStore, after: LinkStore) -> bool {
    &&& after.links@.len() >= before.links@.len()
    &&& forall|j: int| 0 <= j < before.links@.len() ==> #[trigger] after.links@[j] == before.links@[j]
    &&& forall|j: int| before.links@.len() <= j < after.links@.len() ==> #[trigger] fresh_at(after.links@, j)
}

/// `after` keeps every entry of `before` at its index, and each entry it
/// appends was not there before.
pub open spec fn entries_fresh(before: LinkStore, after: LinkStore) -> bool {
    &&& after.entries@.len() >= before.entries@.len()
    &&& forall|j: int| 0 <= j < before.entries@.len() ==> #[trigger] after.entries@[j] == before.entries@[j]
    &&& forall|j: int, k: int| before.entries@.len() <= j < after.entries@.len() && 0 <= k < j
        ==> #[trigger] after.entries@[k] != #[trigger] after.entries@[j]
}

proof fn lemma_fresh_trans(a: LinkStore, b: LinkStore, c: LinkStore)
    requires
        appends_fresh(a, b),
        appends_fresh(b, c),
        entries_fresh(a, b),
        entries_fresh(b, c),
    ensures
        appends_fresh(a, c),
        entries_fresh(a, c),
{
    assert forall|j: int| a.links@.len() <= j < c.links@.len() implies #[trigger] fresh_at(c.links@, j) by {
        if j < b.links@.len() {
            assert(fresh_at(b.links@, j));
            assert forall|k: int| 0 <= k < j implies !is_live(#[trigger] c.links@[k], c.links@[j].base, c.links@[j].target, c.links@[j].link_type, c.links@[j].tag) by {
                assert(c.links@[k] == b.links@[k]);
            }
        }
    }
    assert forall|j: int, k: int| a.entries@.len() <= j < c.entries@.len() && 0 <= k < j
        implies #[trigger] c.entries@[k] != #[trigger] c.entries@[j] by {
        if j < b.entries@.len() {
            assert(c.entries@[k] == b.entries@[k] && c.entries@[j] == b.entries@[j]);
        }
    }
}

/// What `create_link` does keeps the store's growth fresh.
proof fn lemma_create_link_fresh(before: LinkStore, after: LinkStore, base: Node, target: Node, lt: LinkTypes, tag: Tag, h: Addr)
    requires
        after.entries@ == before.entries@,
        before.has_link(base, target, lt, tag) ==> after.same_as(&before),
        !before.has_link(base, target, lt, tag) ==> after.links@ == before.links@.push(
            (Link { create_link_hash: h, base, target, link_type: lt, tag, deleted: false }),
        ),
    ensures
        appends_fresh(before, after),
        entries_fresh(before, after),
{
    if !before.has_link(base, target, lt, tag) {
        let n = before.links@.len() as int;
        assert forall|k: int| 0 <= k < n implies !is_live(#[trigger] after.links@[k], base, target, lt, tag) by {
            assert(after.links@[k] == before.links@[k]);
        }
        assert(fresh_at(after.links@, n));
    }
}

/// What `create_if_not_exists` does keeps the store's growth fresh.
proof fn lemma_create_entry_fresh(before: LinkStore, after: LinkStore, entry: Node)
    requires
        after.links@ == before.links@,
        before.has_entry(entry) ==> after.same_as(&before),
        !before.has_entry(entry) ==> after.entries@ == before.entries@.push(entry),
    ensures
        appends_fresh(before, after),
        entries_fresh(before, after),
{
    if !before.has_entry(entry) {
        let n = before.entries@.len() as int;
        assert forall|j: int, k: int| n <= j < after.entries@.len() && 0 <= k < j
            implies #[trigger] after.entries@[k] != #[trigger] after.entries@[j] by {
            assert(j == n);
            assert(after.entries@[k] == before.entries@[k]);
        }
    }
}

/// Copies each of `links` onto `archive` as a link of type `lt`, keeping
/// its target and tag.
fn copy_links(store: &mut LinkStore, archive: Node, links: &Vec<Link>, lt: LinkTypes)
    requires
        archive is ArchiveAnchor,
    ensures
        forall|k: int| 0 <= k < links@.len() ==> final(store).has_link(archive, #[trigger] links@[k].target, lt, links@[k].tag),
        final(store).extends(old(store)),
        final(store).entries@ == old(store).entries@,
        appends_no_content(*old(store), *final(store)),
        appends_fresh(*old(store), *final(store)),
        entries_fresh(*old(store), *final(store)),
        forall|j: int| old(store).links@.len() <= j < final(store).links@.len() ==> {
            &&& (#[trigger] final(store).links@[j]).base == archive
            &&& final(store).links@[j].link_type == lt
            &&& exists|m: int| 0 <= m < links@.len() && #[trigger] links@[m].target == final(store).links@[j].target
                && links@[m].tag == final(store).links@[j].tag
        },
        (forall|k: int| 0 <= k < links@.len() ==> old(store).has_link(archive, #[trigger] links@[k].target, lt, links@[k].tag))
            ==> final(store).same_as(old(store)),
{
    let ghost start = *store;
    let mut k: usize = 0;
    while k < links.len()
        invariant
            0 <= k <= links@.len(),
            archive is ArchiveAnchor,
            forall|m: int| 0 <= m < k ==> store.has_link(archive, #[trigger] links@[m].target, lt, links@[m].tag),
            store.extends(&start),
            store.entries@ == start.entries@,
            appends_no_content(start, *store),
            appends_fresh(start, *store),
            entries_fresh(start, *store),
            forall|j: int| start.links@.len() <= j < store.links@.len() ==> {
                &&& (#[trigger] store.links@[j]).base == archive
                &&& store.links@[j].link_type == lt
                &&& exists|m: int| 0 <= m < links@.len() && #[trigger] links@[m].target == store.links@[j].target
                    && links@[m].tag == store.links@[j].tag
            },
            (forall|m: int| 0 <= m < links@.len() ==> start.has_link(archive, #[trigger] links@[m].target, lt, links@[m].tag))
                ==> store.same_as(&start),
        decreases links.len() - k,
    {
        let l = links[k];
        let ghost before = *store;
        let h = store.create_link(archive, l.target, lt, l.tag);
        proof {
            lemma_create_link_frame(before, *store, archive, l.target, lt, l.tag, h);
            lemma_create_link_fresh(before, *store, archive, l.target, lt, l.tag, h);
            lemma_fresh_trans(start, before, *store);
            lemma_appends_no_content_trans(start, before, *store);
            assert forall|j: int| start.links@.len() <= j < store.links@.len() implies {
                &&& (#[trigger] store.links@[j]).base == archive
                &&& store.links@[j].link_type == lt
                &&& exists|m: int| 0 <= m < links@.len() && #[trigger] links@[m].target == store.links@[j].target
                    && links@[m].tag == store.links@[j].tag
            } by {
                if j < before.links@.len() {
                    assert(store.links@[j] == before.links@[j]);
                } else {
                    assert(links@[k as int].target == store.links@[j].target);
                }
            }
            assert forall|m: int| 0 <= m < k + 1 implies store.has_link(archive, #[trigger] links@[m].target, lt, links@[m].tag) by {
                if m < k {
                    assert(before.has_link(archive, links@[m].target, lt, links@[m].tag));
                }
            }
            if forall|m: int| 0 <= m < links@.len() ==> start.has_link(archive, #[trigger] links@[m].target, lt, links@[m].tag) {
                assert(start.has_link(archive, links@[k as int].target, lt, links@[k as int].tag));
            }
        }
        k = k + 1;
    }
}

/// A link that archiving `agent` at `revision` may add to `before`: the
/// archive link from the revision, or a copy onto the archive anchor of a
/// live create or update link of the agent's authority anchor.
pub open spec fn archive_link_kind(before: LinkStore, group_id: Addr, revision: Addr, agent: AgentId, l: Link) -> bool {
    ||| (l.base == Node::Action(revision) && l.target == Node::ArchiveAnchor(revision, agent)
        && l.link_type == LinkTypes::GroupAuthArchive && l.tag == Tag::Empty)
    ||| (l.base == Node::ArchiveAnchor(revision, agent) && exists|i: int|
        0 <= i < before.links@.len() && is_content_link_of(#[trigger] before.links@[i], Node::AuthAnchor(group_id, agent))
            && before.links@[i].target == l.target && before.links@[i].link_type == l.link_type
            && before.links@[i].tag == l.tag)
}

/// Moves `agent`, removed from the authorities at `revision`, into an
/// archive: creates the archive anchor, links it from the revision, and
/// copies onto it every live create and update link of the agent's
/// authority anchor. Running it again for the same revision and agent
/// changes nothing.
pub fn archive_authority(store: &mut LinkStore, group_id: Addr, revision: Addr, agent: AgentId)
    ensures
        archived(*final(store), group_id, revision, agent),
        final(store).extends(old(store)),
        appends_no_content(*old(store), *final(store)),
        appends_fresh(*old(store), *final(store)),
        entries_fresh(*old(store), *final(store)),
        forall|j: int| old(store).entries@.len() <= j < final(store).entries@.len()
            ==> #[trigger] final(store).entries@[j] == Node::ArchiveAnchor(revision, agent),
        forall|j: int| old(store).links@.len() <= j < final(store).links@.len()
            ==> archive_link_kind(*old(store), group_id, revision, agent, #[trigger] final(store).links@[j]),
        archived(*old(store), group_id, revision, agent) ==> final(store).same_as(old(store)),
{
    let ghost start = *store;
    let archive = group_auth_archive_anchor_hash(revision, agent);
    let anchor = group_auth_anchor_hash(group_id, agent);
    store.create_if_not_exists(archive);
    let ghost s1 = *store;
    let h = store.create_link(Node::Action(revision), archive, LinkTypes::GroupAuthArchive, Tag::Empty);
    proof {
        lemma_create_entry_fresh(start, s1, archive);
        lemma_create_link_fresh(s1, *store, Node::Action(revision), archive, LinkTypes::GroupAuthArchive, Tag::Empty, h);
        lemma_fresh_trans(start, s1, *store);
        lemma_create_link_frame(s1, *store, Node::Action(revision), archive, LinkTypes::GroupAuthArchive, Tag::Empty, h);
        assert(appends_no_content(start, s1));
        lemma_appends_no_content_trans(start, s1, *store);
    }
    let ghost s2 = *store;
    let creates = store.get_links(anchor, LinkTypes::Content, None);
    proof {
        lemma_listed_sound(s2.links@, anchor, LinkTypes::Content, None);
        if archived(start, group_id, revision, agent) {
            assert forall|m: int| 0 <= m < creates@.len() implies s2.has_link(archive, #[trigger] creates@[m].target, LinkTypes::Content, creates@[m].tag) by {
                let j = choose|j: int| 0 <= j < s2.links@.len() && s2.links@[j] == creates@[m];
                assert(is_content_link_of(start.links@[j], anchor));
            }
        }
    }
    copy_links(store, archive, &creates, LinkTypes::Content);
    let ghost s3 = *store;
    proof {
        lemma_appends_no_content_trans(start, s2, s3);
    }
    let updates = store.get_links(anchor, LinkTypes::ContentUpdate, None);
    proof {
        lemma_listed_sound(s3.links@, anchor, LinkTypes::ContentUpdate, None);
        if archived(start, group_id, revision, agent) {
            assert forall|m: int| 0 <= m < updates@.len() implies s3.has_link(archive, #[trigger] updates@[m].target, LinkTypes::ContentUpdate, updates@[m].tag) by {
                let j = choose|j: int| 0 <= j < s3.links@.len() && s3.links@[j] == updates@[m];
                assert(is_content_link_of(start.links@[j], anchor));
            }
        }
    }
    copy_links(store, archive, &updates, LinkTypes::ContentUpdate);
    proof {
        lemma_appends_no_content_trans(start, s3, *store);
        lemma_fresh_trans(start, s2, s3);
        lemma_fresh_trans(start, s3, *store);
        assert forall|j: int| start.entries@.len() <= j < store.entries@.len()
            implies #[trigger] store.entries@[j] == archive by {
            assert(store.entries@ == s1.entries@);
        }
        assert forall|j: int| start.links@.len() <= j < store.links@.len()
            implies archive_link_kind(start, group_id, revision, agent, #[trigger] store.links@[j]) by {
            let l = store.links@[j];
            if j < s2.links@.len() {
                assert(l == s2.links@[j]);
                assert(s1.links@ == start.links@);
                assert(s2.links@.len() == start.links@.len() + 1);
                assert(s2.links@ == s1.links@.push(l));
            } else if j < s3.links@.len() {
                assert(l == s3.links@[j]);
                let m = choose|m: int| 0 <= m < creates@.len() && #[trigger] creates@[m].target == l.target && creates@[m].tag == l.tag;
                let jj = choose|jj: int| 0 <= jj < s2.links@.len() && s2.links@[jj] == creates@[m];
                assert(is_listed(creates@[m], anchor, LinkTypes::Content, None));
                assert(jj < start.links@.len());
                assert(start.links@[jj] == s2.links@[jj]);
                assert(is_content_link_of(start.links@[jj], anchor));
            } else {
                let m = choose|m: int| 0 <= m < updates@.len() && #[trigger] updates@[m].target == l.target && updates@[m].tag == l.tag;
                let jj = choose|jj: int| 0 <= jj < s3.links@.len() && s3.links@[jj] == updates@[m];
                assert(is_listed(updates@[m], anchor, LinkTypes::ContentUpdate, None));
                assert(jj < start.links@.len());
                assert(start.links@[jj] == s3.links@[jj]);
                assert(is_content_link_of(start.links@[jj], anchor));
            }
        }
        assert forall|i: int|
            0 <= i < store.links@.len() && is_content_link_of(#[trigger] store.links@[i], anchor)
                implies store.has_link(archive, store.links@[i].target, store.links@[i].link_type, store.links@[i].tag) by {
            let l = store.links@[i];
            assert(i < start.links@.len());
            assert(s2.links@[i] == l && s3.links@[i] == l);
            if l.link_type == LinkTypes::Content {
                lemma_listed_contains(s2.links@, anchor, LinkTypes::Content, None, i);
                let m = choose|m: int| 0 <= m < creates@.len() && creates@[m] == l;
                assert(s3.has_link(archive, creates@[m].target, LinkTypes::Content, creates@[m].tag));
            } else {
                lemma_listed_contains(s3.links@, anchor, LinkTypes::ContentUpdate, None, i);
                let m = choose|m: int| 0 <= m < updates@.len() && updates@[m] == l;
            }
        }
        assert(s1.has_entry(archive));
    }
}

/// A link that creating group `group_id` by `creator` with the initial
/// authorities `authorities` may add: an authority link from the genesis
/// revision, or the creator's link to the group.
pub open spec fn genesis_link_kind(group_id: Addr, creator: AgentId, authorities: Seq<AgentId>, l: Link) -> bool {
    ||| (l.base == Node::Action(group_id) && l.link_type == LinkTypes::GroupAuth && l.tag == Tag::Empty
        && anchor_of_one(l.target, group_id, authorities))
    ||| (l.base == Node::Agent(creator) && l.target == Node::Action(group_id) && l.link_type == LinkTypes::Group
        && l.tag == Tag::Empty)
}

/// Registers the genesis revision `group_id` of `group`, made by `creator`:
/// an authority anchor and a link to it from the revision for each initial
/// authority, and a link from the creator to the group. Nothing else is
/// added: in particular no archive link, and no authority link for anyone
/// else.
pub fn create_group(store: &mut LinkStore, group_id: Addr, creator: AgentId, group: &GroupEntry) -> (r: Addr)
    ensures
        r == group_id,
        forall|a: AgentId| group.authorities@.contains(a) ==> {
            &&& final(store).has_entry(Node::AuthAnchor(group_id, a))
            &&& final(store).has_link(Node::Action(group_id), Node::AuthAnchor(group_id, a), LinkTypes::GroupAuth, Tag::Empty)
        },
        final(store).has_link(Node::Agent(creator), Node::Action(group_id), LinkTypes::Group, Tag::Empty),
        final(store).extends(old(store)),
        appends_fresh(*old(store), *final(store)),
        entries_fresh(*old(store), *final(store)),
        forall|j: int| old(store).links@.len() <= j < final(store).links@.len()
            ==> genesis_link_kind(group_id, creator, group.authorities@, #[trigger] final(store).links@[j]),
        forall|j: int| old(store).entries@.len() <= j < final(store).entries@.len()
            ==> anchor_of_one(#[trigger] final(store).entries@[j], group_id, group.authorities@),
{
    let ghost start = *store;
    link_authorities(store, group_id, group_id, &group.authorities, true);
    let ghost s1 = *store;
    let h = store.create_link(Node::Agent(creator), Node::Action(group_id), LinkTypes::Group, Tag::Empty);
    proof {
        lemma_create_link_fresh(s1, *store, Node::Agent(creator), Node::Action(group_id), LinkTypes::Group, Tag::Empty, h);
        lemma_fresh_trans(start, s1, *store);
        assert forall|a: AgentId| group.authorities@.contains(a) implies {
            &&& store.has_entry(Node::AuthAnchor(group_id, a))
            &&& store.has_link(Node::Action(group_id), Node::AuthAnchor(group_id, a), LinkTypes::GroupAuth, Tag::Empty)
        } by {
            let k = choose|k: int| 0 <= k < group.authorities@.len() && group.authorities@[k] == a;
            assert(s1.has_entry(Node::AuthAnchor(group_id, group.authorities@[k])));
            assert(s1.has_link(Node::Action(group_id), Node::AuthAnchor(group_id, group.authorities@[k]), LinkTypes::GroupAuth, Tag::Empty));
        }
        assert forall|j: int| start.links@.len() <= j < store.links@.len()
            implies genesis_link_kind(group_id, creator, group.authorities@, #[trigger] store.links@[j]) by {
            if j < s1.links@.len() {
                assert(store.links@[j] == s1.links@[j]);
            }
        }
        assert forall|j: int| start.entries@.len() <= j < store.entries@.len()
            implies anchor_of_one(#[trigger] store.entries@[j], group_id, group.authorities@) by {
            assert(store.entries@[j] == s1.entries@[j]);
        }
    }
    group_id
}

/// `e` is the authority anchor under `group_id` of one of `agents`.
pub open spec fn anchor_of_one(e: Node, group_id: Addr, agents: Seq<AgentId>) -> bool {
    exists|k: int| 0 <= k < agents.len() && e == Node::AuthAnchor(group_id, #[trigger] agents[k])
}

/// Links each agent of `agents` from revision `revision` as an authority
/// of group `group_id`, creating the anchors where `create` is set.
fn link_authorities(store: &mut LinkStore, group_id: Addr, revision: Addr, agents: &Vec<AgentId>, create: bool)
    ensures
        forall|k: int| 0 <= k < agents@.len() ==> final(store).has_link(Node::Action(revision), Node::AuthAnchor(group_id, #[trigger] agents@[k]), LinkTypes::GroupAuth, Tag::Empty),
        create ==> forall|k: int| 0 <= k < agents@.len() ==> final(store).has_entry(Node::AuthAnchor(group_id, #[trigger] agents@[k])),
        final(store).extends(old(store)),
        appends_no_content(*old(store), *final(store)),
        appends_fresh(*old(store), *final(store)),
        entries_fresh(*old(store), *final(store)),
        forall|j: int| old(store).links@.len() <= j < final(store).links@.len() ==> {
            &&& (#[trigger] final(store).links@[j]).base == Node::Action(revision)
            &&& final(store).links@[j].link_type == LinkTypes::GroupAuth
            &&& final(store).links@[j].tag == Tag::Empty
            &&& anchor_of_one(final(store).links@[j].target, group_id, agents@)
        },
        !create ==> final(store).entries@ == old(store).entries@,
        (forall|k: int| 0 <= k < agents@.len() ==> old(store).has_link(Node::Action(revision), Node::AuthAnchor(group_id, #[trigger] agents@[k]), LinkTypes::GroupAuth, Tag::Empty)
            && (create ==> old(store).has_entry(Node::AuthAnchor(group_id, agents@[k])))) ==> final(store).same_as(old(store)),
        forall|j: int| old(store).entries@.len() <= j < final(store).entries@.len() ==> anchor_of_one(#[trigger] final(store).entries@[j], group_id, agents@),
{
    let ghost start = *store;
    let mut i: usize = 0;
    while i < agents.len()
        invariant
            0 <= i <= agents@.len(),
            store.extends(&start),
            appends_no_content(start, *store),
            appends_fresh(start, *store),
            entries_fresh(start, *store),
            forall|k: int| 0 <= k < i ==> store.has_link(Node::Action(revision), Node::AuthAnchor(group_id, #[trigger] agents@[k]), LinkTypes::GroupAuth, Tag::Empty),
            create ==> forall|k: int| 0 <= k < i ==> store.has_entry(Node::AuthAnchor(group_id, #[trigger] agents@[k])),
            forall|j: int| start.links@.len() <= j < store.links@.len() ==> {
                &&& (#[trigger] store.links@[j]).base == Node::Action(revision)
                &&& store.links@[j].link_type == LinkTypes::GroupAuth
                &&& store.links@[j].tag == Tag::Empty
                &&& anchor_of_one(store.links@[j].target, group_id, agents@)
            },
            !create ==> store.entries@ == start.entries@,
            forall|j: int| start.entries@.len() <= j < store.entries@.len() ==> anchor_of_one(#[trigger] store.entries@[j], group_id, agents@),
            (forall|k: int| 0 <= k < agents@.len() ==> start.has_link(Node::Action(revision), Node::AuthAnchor(group_id, #[trigger] agents@[k]), LinkTypes::GroupAuth, Tag::Empty)
                && (create ==> start.has_entry(Node::AuthAnchor(group_id, agents@[k])))) ==> store.same_as(&start),
        decreases agents.len() - i,
    {
        let anchor = group_auth_anchor_hash(group_id, agents[i]);
        let ghost s0 = *store;
        if create {
            store.create_if_not_exists(anchor);
        }
        let ghost before = *store;
        proof {
            if create {
                lemma_create_entry_fresh(s0, before, anchor);
                lemma_fresh_trans(start, s0, before);
            }
            assert forall|j: int| start.entries@.len() <= j < before.entries@.len() implies anchor_of_one(#[trigger] before.entries@[j], group_id, agents@) by {
                if j < s0.entries@.len() {
                    assert(before.entries@[j] == s0.entries@[j]);
                } else {
                    assert(before.entries@[j] == Node::AuthAnchor(group_id, agents@[i as int]));
                }
            }
        }
        let h = store.create_link(Node::Action(revision), anchor, LinkTypes::GroupAuth, Tag::Empty);
        proof {
            lemma_create_link_frame(before, *store, Node::Action(revision), anchor, LinkTypes::GroupAuth, Tag::Empty, h);
            lemma_create_link_fresh(before, *store, Node::Action(revision), anchor, LinkTypes::GroupAuth, Tag::Empty, h);
            lemma_fresh_trans(start, before, *store);
            assert forall|j: int| start.entries@.len() <= j < store.entries@.len() implies anchor_of_one(#[trigger] store.entries@[j], group_id, agents@) by {
                assert(store.entries@[j] == before.entries@[j]);
                assert(anchor_of_one(before.entries@[j], group_id, agents@));
            }
            assert(appends_no_content(start, before));
            lemma_appends_no_content_trans(start, before, *store);
            assert forall|j: int| start.links@.len() <= j < store.links@.len() implies {
                &&& (#[trigger] store.links@[j]).base == Node::Action(revision)
                &&& store.links@[j].link_type == LinkTypes::GroupAuth
                &&& store.links@[j].tag == Tag::Empty
                &&& anchor_of_one(store.links@[j].target, group_id, agents@)
            } by {
                if j < before.links@.len() {
                    assert(store.links@[j] == before.links@[j]);
                    assert(before.links@[j] == s0.links@[j]);
                } else {
                    assert(store.links@[j].target == Node::AuthAnchor(group_id, agents@[i as int]));
                }
            }
            assert forall|k: int| 0 <= k < i + 1 implies store.has_link(Node::Action(revision), Node::AuthAnchor(group_id, #[trigger] agents@[k]), LinkTypes::GroupAuth, Tag::Empty) by {
                if k < i {
                    assert(s0.has_link(Node::Action(revision), Node::AuthAnchor(group_id, agents@[k]), LinkTypes::GroupAuth, Tag::Empty));
                    assert(before.extends(&s0));
                }
            }
            if create {
                assert forall|k: int| 0 <= k < i + 1 implies store.has_entry(Node::AuthAnchor(group_id, #[trigger] agents@[k])) by {
                    if k < i {
                        assert(s0.has_entry(Node::AuthAnchor(group_id, agents@[k])));
                    }
                }
            }
        }
        i = i + 1;
    }
}

/// A link that the update of group `group_id` from revision `base` (content
/// `prev`) to `revision` (content `next`) may add to `before`: an authority
/// link from the new revision to the anchor of an authority of `next`; an
/// archive link from the new revision to an archive linked from `base`, with
/// its tag; or a link that archiving a removed authority may add.
pub open spec fn update_link_kind(
    before: LinkStore,
    group_id: Addr,
    base: Addr,
    revision: Addr,
    prev: GroupEntry,
    next: GroupEntry,
    l: Link,
) -> bool {
    ||| (l.base == Node::Action(revision) && l.link_type == LinkTypes::GroupAuth && l.tag == Tag::Empty
        && anchor_of_one(l.target, group_id, next.authorities@))
    ||| (l.base == Node::Action(revision) && l.link_type == LinkTypes::GroupAuthArchive && exists|i: int|
        0 <= i < before.links@.len() && is_listed(#[trigger] before.links@[i], Node::Action(base), LinkTypes::GroupAuthArchive, None)
            && before.links@[i].target == l.target && before.links@[i].tag == l.tag)
    ||| exists|a: AgentId| removed_of(prev.authorities@.to_set(), next.authorities@.to_set()).contains(a)
        && #[trigger] archive_link_kind(before, group_id, revision, a, l)
}

/// An entry that the same update may add: the authority anchor of an added
/// authority, or the archive anchor at the new revision of a removed one.
pub open spec fn update_entry_kind(group_id: Addr, revision: Addr, prev: GroupEntry, next: GroupEntry, e: Node) -> bool {
    ||| exists|a: AgentId| #[trigger] added_of(prev.authorities@.to_set(), next.authorities@.to_set()).contains(a)
        && e == Node::AuthAnchor(group_id, a)
    ||| exists|a: AgentId| #[trigger] removed_of(prev.authorities@.to_set(), next.authorities@.to_set()).contains(a)
        && e == Node::ArchiveAnchor(revision, a)
}

proof fn lemma_archive_kind_back(start: LinkStore, s: LinkStore, group_id: Addr, revision: Addr, agent: AgentId, l: Link)
    requires
        appends_no_content(start, s),
        archive_link_kind(s, group_id, revision, agent, l),
    ensures
        archive_link_kind(start, group_id, revision, agent, l),
{
    if !(l.base == Node::Action(revision)) {
        let i = choose|i: int| 0 <= i < s.links@.len() && is_content_link_of(#[trigger] s.links@[i], Node::AuthAnchor(group_id, agent))
            && s.links@[i].target == l.target && s.links@[i].link_type == l.link_type && s.links@[i].tag == l.tag;
        assert(i < start.links@.len());
        assert(start.links@[i] == s.links@[i]);
    }
}

proof fn lemma_anchor_of_subset(t: Node, group_id: Addr, xs: Seq<AgentId>, ys: Seq<AgentId>)
    requires
        anchor_of_one(t, group_id, xs),
        forall|k: int| 0 <= k < xs.len() ==> ys.contains(#[trigger] xs[k]),
    ensures
        anchor_of_one(t, group_id, ys),
{
    let k = choose|k: int| 0 <= k < xs.len() && t == Node::AuthAnchor(group_id, #[trigger] xs[k]);
    assert(ys.contains(xs[k]));
    let k2 = choose|k2: int| 0 <= k2 < ys.len() && ys[k2] == xs[k];
    assert(t == Node::AuthAnchor(group_id, ys[k2]));
}

/// Everything the update of group `group_id` from revision `base` (content
/// `prev`) to `revision` (content `next`) puts in place is already in `s`.
pub open spec fn update_applied(s: LinkStore, group_id: Addr, base: Addr, revision: Addr, prev: GroupEntry, next: GroupEntry) -> bool {
    &&& forall|i: int| 0 <= i < s.links@.len() && is_listed(#[trigger] s.links@[i], Node::Action(base), LinkTypes::GroupAuthArchive, None)
        ==> s.has_link(Node::Action(revision), s.links@[i].target, LinkTypes::GroupAuthArchive, s.links@[i].tag)
    &&& forall|a: AgentId| #[trigger] removed_of(prev.authorities@.to_set(), next.authorities@.to_set()).contains(a)
        ==> archived(s, group_id, revision, a)
    &&& forall|a: AgentId| #[trigger] next.authorities@.contains(a)
        ==> s.has_link(Node::Action(revision), Node::AuthAnchor(group_id, a), LinkTypes::GroupAuth, Tag::Empty)
    &&& forall|a: AgentId| #[trigger] added_of(prev.authorities@.to_set(), next.authorities@.to_set()).contains(a)
        ==> s.has_entry(Node::AuthAnchor(group_id, a))
}

/// Registers `new_revision`, the update by `author` of revision `base` of
/// group `group_id` from `prev` to `next`. Refused as unauthorized where the
/// author is no admin of `prev`, and as invalid where the admin list
/// changes. Otherwise: the archives linked from `base` are linked from the
/// new revision too; each removed authority is archived at the new
/// revision; every authority of `next` is linked from the new revision.
pub fn update_group(
    store: &mut LinkStore,
    group_id: Addr,
    base: Addr,
    new_revision: Addr,
    author: AgentId,
    prev: &GroupEntry,
    next: &GroupEntry,
) -> (r: Result<Addr, EngineError>)
    ensures
        r is Ok <==> group_update_allowed(*prev, *next, author),
        r matches Err(e) ==> final(store).same_as(old(store)) && (e.kind == (if prev.admins@.contains(author) {
            ErrorKind::Validation
        } else {
            ErrorKind::Unauthorized
        })),
        r matches Ok(rev) ==> {
            &&& rev == new_revision
            &&& final(store).extends(old(store))
            &&& forall|a: AgentId| #[trigger] next.authorities@.contains(a) ==> final(store).has_link(
                Node::Action(new_revision),
                Node::AuthAnchor(group_id, a),
                LinkTypes::GroupAuth,
                Tag::Empty,
            )
            &&& forall|a: AgentId| #[trigger] removed_of(prev.authorities@.to_set(), next.authorities@.to_set()).contains(a)
                ==> archived(*final(store), group_id, new_revision, a)
            &&& forall|i: int| 0 <= i < old(store).links@.len() && is_listed(#[trigger] old(store).links@[i], Node::Action(base), LinkTypes::GroupAuthArchive, None)
                ==> final(store).has_link(Node::Action(new_revision), old(store).links@[i].target, LinkTypes::GroupAuthArchive, old(store).links@[i].tag)
            &&& forall|a: AgentId| #[trigger] added_of(prev.authorities@.to_set(), next.authorities@.to_set()).contains(a)
                ==> final(store).has_entry(Node::AuthAnchor(group_id, a))
            &&& appends_fresh(*old(store), *final(store))
            &&& entries_fresh(*old(store), *final(store))
            &&& forall|j: int| old(store).links@.len() <= j < final(store).links@.len()
                ==> update_link_kind(*old(store), group_id, base, new_revision, *prev, *next, #[trigger] final(store).links@[j])
            &&& forall|j: int| old(store).entries@.len() <= j < final(store).entries@.len()
                ==> update_entry_kind(group_id, new_revision, *prev, *next, #[trigger] final(store).entries@[j])
            &&& base != new_revision ==> update_applied(*final(store), group_id, base, new_revision, *prev, *next)
            &&& update_applied(*old(store), group_id, base, new_revision, *prev, *next) ==> final(store).same_as(old(store))
        },
{
    if !prev.is_admin(author) {
        return Err(EngineError {
            kind: ErrorKind::Unauthorized,
            message: "Updating a group can only be done by an admin".to_string(),
        });
    }
    if !same_agents(&next.admins, &prev.admins) {
        return Err(EngineError {
            kind: ErrorKind::Validation,
            message: "Changing a group's admin list requires counter-signing".to_string(),
        });
    }
    let diff = prev.authorities_diff(next);
    let ghost start = *store;

    let archive_links = store.get_links(Node::Action(base), LinkTypes::GroupAuthArchive, None);
    let mut i: usize = 0;
    while i < archive_links.len()
        invariant
            0 <= i <= archive_links@.len(),
            archive_links@ == listed(start.links@, Node::Action(base), LinkTypes::GroupAuthArchive, None),
            store.extends(&start),
            appends_no_content(start, *store),
            appends_fresh(start, *store),
            entries_fresh(start, *store),
            store.entries@ == start.entries@,
            forall|j: int| start.links@.len() <= j < store.links@.len()
                ==> update_link_kind(start, group_id, base, new_revision, *prev, *next, #[trigger] store.links@[j]),
            forall|k: int| 0 <= k < i ==> store.has_link(Node::Action(new_revision), #[trigger] archive_links@[k].target, LinkTypes::GroupAuthArchive, archive_links@[k].tag),
            update_applied(start, group_id, base, new_revision, *prev, *next) ==> store.same_as(&start),
        decreases archive_links.len() - i,
    {
        let l = archive_links[i];
        let ghost before = *store;
        let h = store.create_link(Node::Action(new_revision), l.target, LinkTypes::GroupAuthArchive, l.tag);
        proof {
            lemma_create_link_frame(before, *store, Node::Action(new_revision), l.target, LinkTypes::GroupAuthArchive, l.tag, h);
            lemma_create_link_fresh(before, *store, Node::Action(new_revision), l.target, LinkTypes::GroupAuthArchive, l.tag, h);
            lemma_fresh_trans(start, before, *store);
            lemma_appends_no_content_trans(start, before, *store);
            if update_applied(start, group_id, base, new_revision, *prev, *next) {
                lemma_listed_sound(start.links@, Node::Action(base), LinkTypes::GroupAuthArchive, None);
                assert(is_listed(archive_links@[i as int], Node::Action(base), LinkTypes::GroupAuthArchive, None));
                let ii = choose|ii: int| 0 <= ii < start.links@.len() && start.links@[ii] == archive_links@[i as int];
                assert(is_listed(start.links@[ii], Node::Action(base), LinkTypes::GroupAuthArchive, None));
                assert(start.has_link(Node::Action(new_revision), l.target, LinkTypes::GroupAuthArchive, l.tag));
                assert(before.links@ == start.links@);
                assert(before.has_link(Node::Action(new_revision), l.target, LinkTypes::GroupAuthArchive, l.tag));
            }
            assert forall|j: int| start.links@.len() <= j < store.links@.len()
                implies update_link_kind(start, group_id, base, new_revision, *prev, *next, #[trigger] store.links@[j]) by {
                if j < before.links@.len() {
                    assert(store.links@[j] == before.links@[j]);
                } else {
                    lemma_listed_sound(start.links@, Node::Action(base), LinkTypes::GroupAuthArchive, None);
                    assert(is_listed(archive_links@[i as int], Node::Action(base), LinkTypes::GroupAuthArchive, None));
                    let ii = choose|ii: int| 0 <= ii < start.links@.len() && start.links@[ii] == archive_links@[i as int];
                    assert(is_listed(start.links@[ii], Node::Action(base), LinkTypes::GroupAuthArchive, None));
                }
            }
        }
        i = i + 1;
    }
    let ghost s1 = *store;

    let mut j: usize = 0;
    while j < diff.removed.len()
        invariant
            0 <= j <= diff.removed@.len(),
            store.extends(&s1),
            appends_no_content(s1, *store),
            appends_no_content(start, s1),
            appends_fresh(start, *store),
            entries_fresh(start, *store),
            diff.removed@.to_set() == removed_of(prev.authorities@.to_set(), next.authorities@.to_set()),
            forall|j: int| start.links@.len() <= j < store.links@.len()
                ==> update_link_kind(start, group_id, base, new_revision, *prev, *next, #[trigger] store.links@[j]),
            forall|j: int| start.entries@.len() <= j < store.entries@.len()
                ==> update_entry_kind(group_id, new_revision, *prev, *next, #[trigger] store.entries@[j]),
            forall|k: int| 0 <= k < j ==> archived(*store, group_id, new_revision, #[trigger] diff.removed@[k]),
            update_applied(start, group_id, base, new_revision, *prev, *next) ==> store.same_as(&start),
        decreases diff.removed.len() - j,
    {
        let ghost before = *store;
        archive_authority(store, group_id, new_revision, diff.removed[j]);
        proof {
            lemma_appends_no_content_trans(s1, before, *store);
            lemma_fresh_trans(start, before, *store);
            lemma_appends_no_content_trans(start, s1, before);
            let a = diff.removed@[j as int];
            assert(diff.removed@.to_set().contains(a));
            if update_applied(start, group_id, base, new_revision, *prev, *next) {
                assert(archived(start, group_id, new_revision, a));
                assert(before.links@ == start.links@ && before.entries@ == start.entries@);
                assert(archived(before, group_id, new_revision, a));
            }
            assert forall|jj: int| start.links@.len() <= jj < store.links@.len()
                implies update_link_kind(start, group_id, base, new_revision, *prev, *next, #[trigger] store.links@[jj]) by {
                if jj < before.links@.len() {
                    assert(store.links@[jj] == before.links@[jj]);
                } else {
                    lemma_archive_kind_back(start, before, group_id, new_revision, a, store.links@[jj]);
                    assert(archive_link_kind(start, group_id, new_revision, a, store.links@[jj]));
                }
            }
            assert forall|jj: int| start.entries@.len() <= jj < store.entries@.len()
                implies update_entry_kind(group_id, new_revision, *prev, *next, #[trigger] store.entries@[jj]) by {
                if jj < before.entries@.len() {
                    assert(store.entries@[jj] == before.entries@[jj]);
                } else {
                    assert(store.entries@[jj] == Node::ArchiveAnchor(new_revision, a));
                }
            }
            assert forall|k: int| 0 <= k < j + 1 implies archived(*store, group_id, new_revision, #[trigger] diff.removed@[k]) by {
                if k < j {
                    lemma_archived_kept(before, *store, group_id, new_revision, diff.removed@[k]);
                }
            }
        }
        j = j + 1;
    }
    let ghost s2 = *store;

    proof {
        if update_applied(start, group_id, base, new_revision, *prev, *next) {
            assert forall|k: int| 0 <= k < diff.added@.len() implies s2.has_link(Node::Action(new_revision), Node::AuthAnchor(group_id, #[trigger] diff.added@[k]), LinkTypes::GroupAuth, Tag::Empty)
                && s2.has_entry(Node::AuthAnchor(group_id, diff.added@[k])) by {
                assert(diff.added@.to_set().contains(diff.added@[k]));
                assert(next.authorities@.to_set().contains(diff.added@[k]));
                assert(start.has_link(Node::Action(new_revision), Node::AuthAnchor(group_id, diff.added@[k]), LinkTypes::GroupAuth, Tag::Empty));
                assert(s2.links@ == start.links@ && s2.entries@ == start.entries@);
            }
            assert forall|k: int| 0 <= k < diff.intersection@.len() implies s2.has_link(Node::Action(new_revision), Node::AuthAnchor(group_id, #[trigger] diff.intersection@[k]), LinkTypes::GroupAuth, Tag::Empty) by {
                assert(diff.intersection@.to_set().contains(diff.intersection@[k]));
                assert(next.authorities@.to_set().contains(diff.intersection@[k]));
                assert(start.has_link(Node::Action(new_revision), Node::AuthAnchor(group_id, diff.intersection@[k]), LinkTypes::GroupAuth, Tag::Empty));
                assert(s2.links@ == start.links@);
            }
        }
    }
    link_authorities(store, group_id, new_revision, &diff.added, true);
    let ghost s3 = *store;
    link_authorities(store, group_id, new_revision, &diff.intersection, false);
    proof {
        lemma_appends_no_content_trans(s2, s3, *store);
        lemma_fresh_trans(start, s2, s3);
        lemma_fresh_trans(start, s3, *store);
        assert forall|k: int| 0 <= k < diff.added@.len() implies next.authorities@.contains(#[trigger] diff.added@[k]) by {
            assert(diff.added@.to_set().contains(diff.added@[k]));
        }
        assert forall|k: int| 0 <= k < diff.intersection@.len() implies next.authorities@.contains(#[trigger] diff.intersection@[k]) by {
            assert(diff.intersection@.to_set().contains(diff.intersection@[k]));
        }
        assert forall|jj: int| start.links@.len() <= jj < store.links@.len()
            implies update_link_kind(start, group_id, base, new_revision, *prev, *next, #[trigger] store.links@[jj]) by {
            if jj < s2.links@.len() {
                assert(store.links@[jj] == s2.links@[jj]);
            } else if jj < s3.links@.len() {
                assert(store.links@[jj] == s3.links@[jj]);
                lemma_anchor_of_subset(s3.links@[jj].target, group_id, diff.added@, next.authorities@);
            } else {
                lemma_anchor_of_subset(store.links@[jj].target, group_id, diff.intersection@, next.authorities@);
            }
        }
        assert forall|jj: int| start.entries@.len() <= jj < store.entries@.len()
            implies update_entry_kind(group_id, new_revision, *prev, *next, #[trigger] store.entries@[jj]) by {
            assert(store.entries@ == s3.entries@);
            if jj < s2.entries@.len() {
                assert(s3.entries@[jj] == s2.entries@[jj]);
            } else {
                let e = s3.entries@[jj];
                assert(anchor_of_one(e, group_id, diff.added@));
                let k = choose|k: int| 0 <= k < diff.added@.len() && e == Node::AuthAnchor(group_id, #[trigger] diff.added@[k]);
                assert(diff.added@.to_set().contains(diff.added@[k]));
            }
        }
        if base != new_revision {
            assert forall|i: int| 0 <= i < store.links@.len() && is_listed(#[trigger] store.links@[i], Node::Action(base), LinkTypes::GroupAuthArchive, None)
                implies store.has_link(Node::Action(new_revision), store.links@[i].target, LinkTypes::GroupAuthArchive, store.links@[i].tag) by {
                if i >= start.links@.len() {
                    assert(update_link_kind(start, group_id, base, new_revision, *prev, *next, store.links@[i]));
                    if !(store.links@[i].base == Node::Action(new_revision)) {
                        let a = choose|a: AgentId| removed_of(prev.authorities@.to_set(), next.authorities@.to_set()).contains(a)
                            && #[trigger] archive_link_kind(start, group_id, new_revision, a, store.links@[i]);
                    }
                }
                assert(store.links@[i] == start.links@[i]);
                assert(s1.has_link(Node::Action(new_revision), start.links@[i].target, LinkTypes::GroupAuthArchive, start.links@[i].tag)) by {
                    lemma_listed_contains(start.links@, Node::Action(base), LinkTypes::GroupAuthArchive, None, i);
                    let k = choose|k: int| 0 <= k < archive_links@.len() && archive_links@[k] == start.links@[i];
                }
            }
        }
        if update_applied(start, group_id, base, new_revision, *prev, *next) {
            assert(s2.same_as(&start));
        }
        assert forall|a: AgentId| #[trigger] added_of(prev.authorities@.to_set(), next.authorities@.to_set()).contains(a)
            implies store.has_entry(Node::AuthAnchor(group_id, a)) by {
            assert(diff.added@.to_set().contains(a));
            let k = choose|k: int| 0 <= k < diff.added@.len() && diff.added@[k] == a;
            assert(s3.has_entry(Node::AuthAnchor(group_id, diff.added@[k])));
        }
        assert forall|a: AgentId| #[trigger] removed_of(prev.authorities@.to_set(), next.authorities@.to_set()).contains(a)
            implies archived(*store, group_id, new_revision, a) by {
            assert(diff.removed@.to_set().contains(a));
            let k = choose|k: int| 0 <= k < diff.removed@.len() && diff.removed@[k] == a;
            assert(archived(s2, group_id, new_revision, diff.removed@[k]));
            lemma_archived_kept(s2, *store, group_id, new_revision, a);
        }
        assert forall|a: AgentId| #[trigger] next.authorities@.contains(a) implies store.has_link(
            Node::Action(new_revision), Node::AuthAnchor(group_id, a), LinkTypes::GroupAuth, Tag::Empty) by {
            assert(next.authorities@.to_set().contains(a));
            if prev.authorities@.contains(a) {
                assert(diff.intersection@.to_set().contains(a));
                let k = choose|k: int| 0 <= k < diff.intersection@.len() && diff.intersection@[k] == a;
                assert(store.has_link(Node::Action(new_revision), Node::AuthAnchor(group_id, diff.intersection@[k]), LinkTypes::GroupAuth, Tag::Empty));
            } else {
                assert(diff.added@.to_set().contains(a));
                let k = choose|k: int| 0 <= k < diff.added@.len() && diff.added@[k] == a;
                assert(s3.has_link(Node::Action(new_revision), Node::AuthAnchor(group_id, diff.added@[k]), LinkTypes::GroupAuth, Tag::Empty));
            }
        }
        assert forall|i: int| 0 <= i < start.links@.len() && is_listed(#[trigger] start.links@[i], Node::Action(base), LinkTypes::GroupAuthArchive, None)
            implies store.has_link(Node::Action(new_revision), start.links@[i].target, LinkTypes::GroupAuthArchive, start.links@[i].tag) by {
            lemma_listed_contains(start.links@, Node::Action(base), LinkTypes::GroupAuthArchive, None, i);
            let k = choose|k: int| 0 <= k < archive_links@.len() && archive_links@[k] == start.links@[i];
            assert(s1.has_link(Node::Action(new_revision), archive_links@[k].target, LinkTypes::GroupAuthArchive, archive_links@[k].tag));
        }
    }
    Ok(new_revision)
}

/// Registers `content_target` as content that `author` created under group
/// `group_id`, creating the author's authority anchor where needed.
/// Returns the hash of the create link.
pub fn create_content_link(store: &mut LinkStore, group_id: Addr, author: AgentId, content_target: Node) -> (r: Addr)
    ensures
        final(store).has_entry(Node::AuthAnchor(group_id, author)),
        final(store).has_link_hash(r, Node::AuthAnchor(group_id, author), content_target, LinkTypes::Content, Tag::Empty),
        final(store).extends(old(store)),
        final(store).entries@ == (if old(store).has_entry(Node::AuthAnchor(group_id, author)) {
            old(store).entries@
        } else {
            old(store).entries@.push(Node::AuthAnchor(group_id, author))
        }),
        final(store).links@ == (if old(store).has_link(Node::AuthAnchor(group_id, author), content_target, LinkTypes::Content, Tag::Empty) {
            old(store).links@
        } else {
            old(store).links@.push(
                (Link { create_link_hash: r, base: Node::AuthAnchor(group_id, author), target: content_target, link_type: LinkTypes::Content, tag: Tag::Empty, deleted: false }),
            )
        }),
{
    let anchor = group_auth_anchor_hash(group_id, author);
    store.create_if_not_exists(anchor);
    store.create_link(anchor, content_target, LinkTypes::Content, Tag::Empty)
}

/// Registers `content_next` as the successor of `content_prev` in the
/// evolution of content `content_id`, made by `author` under group
/// `group_id`. Returns the hash of the update link.
pub fn create_content_update_link(
    store: &mut LinkStore,
    group_id: Addr,
    author: AgentId,
    content_id: Addr,
    content_prev: Addr,
    content_next: Node,
) -> (r: Addr)
    ensures
        final(store).has_entry(Node::AuthAnchor(group_id, author)),
        final(store).has_link_hash(
            r,
            Node::AuthAnchor(group_id, author),
            content_next,
            LinkTypes::ContentUpdate,
            Tag::Update { content_id, prev: content_prev },
        ),
        final(store).extends(old(store)),
        final(store).entries@ == (if old(store).has_entry(Node::AuthAnchor(group_id, author)) {
            old(store).entries@
        } else {
            old(store).entries@.push(Node::AuthAnchor(group_id, author))
        }),
        final(store).links@ == (if old(store).has_link(Node::AuthAnchor(group_id, author), content_next, LinkTypes::ContentUpdate, Tag::Update { content_id, prev: content_prev }) {
            old(store).links@
        } else {
            old(store).links@.push(
                (Link {
                    create_link_hash: r,
                    base: Node::AuthAnchor(group_id, author),
                    target: content_next,
                    link_type: LinkTypes::ContentUpdate,
                    tag: Tag::Update { content_id, prev: content_prev },
                    deleted: false,
                }),
            )
        }),
{
    let anchor = group_auth_anchor_hash(group_id, author);
    store.create_if_not_exists(anchor);
    store.create_link(anchor, content_next, LinkTypes::ContentUpdate, Tag::Update { content_id, prev: content_prev })
}

} // verus!
