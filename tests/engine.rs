use coop_content::content::{
    get_all_group_content_targets, get_all_group_content_targets_full_trace,
    get_all_group_content_targets_shortcuts, get_group_content_latest,
    get_group_content_latest_full_trace, get_group_content_latest_shortcuts,
    trace_all_group_content_evolutions_shortcuts,
};
use coop_content::evolution::{
    build_shortcut_map, trace_evolutions_using_authorities_with_exceptions, trace_update_map,
    NativeUpdate,
};
use coop_content::registry::{
    archive_authority, create_content_link, create_content_update_link, create_group,
    group_auth_anchor_hash, group_auth_archive_anchor_hash, update_group,
};
use coop_content::store::LinkStore;
use coop_content::types::{ErrorKind, GroupEntry, LinkTypes, Node, Tag};
use std::collections::HashMap;

const A: u64 = 1;
const B: u64 = 2;
const C: u64 = 3;
const GROUP: u64 = 100;
const REV2: u64 = 101;
const REV3: u64 = 102;
const X: u64 = 200;
const X2: u64 = 201;
const X3: u64 = 202;
const Y: u64 = 300;

fn group(admins: Vec<u64>, authorities: Vec<u64>) -> GroupEntry {
    GroupEntry { admins, authorities }
}

fn upd(author: u64, prev: u64, next: u64) -> NativeUpdate {
    NativeUpdate { author, prev, next }
}

/// Group {A, B}; A creates X and updates it to X2; A is removed at REV2.
fn removed_author_setup() -> (LinkStore, GroupEntry, Vec<NativeUpdate>) {
    let mut store = LinkStore::new();
    let g1 = group(vec![A], vec![A, B]);
    create_group(&mut store, GROUP, A, &g1);
    create_content_link(&mut store, GROUP, A, Node::Action(X));
    create_content_update_link(&mut store, GROUP, A, X, X, Node::Action(X2));
    let g2 = group(vec![A], vec![B]);
    assert_eq!(update_group(&mut store, GROUP, GROUP, REV2, A, &g1, &g2).unwrap(), REV2);
    (store, g2, vec![upd(A, X, X2)])
}

#[test]
fn removed_authority_content_stays_reachable() {
    let (store, g2, updates) = removed_author_setup();
    assert_eq!(get_group_content_latest(&store, REV2, &g2, &updates, X, Some(true)).unwrap(), X2);
    assert_eq!(get_group_content_latest(&store, REV2, &g2, &updates, X, None).unwrap(), X2);
    assert_eq!(get_group_content_latest(&store, REV2, &g2, &updates, X, Some(false)).unwrap(), X2);
}

#[test]
fn update_after_removal_is_not_followed_by_full_walk() {
    let (store, g2, mut updates) = removed_author_setup();
    updates.push(upd(A, X2, X3));
    assert_eq!(get_group_content_latest_full_trace(&store, REV2, &g2, &updates, X).unwrap(), X2);
    // An update by a current authority is followed.
    let updates = vec![upd(A, X, X2), upd(B, X2, X3)];
    assert_eq!(get_group_content_latest_full_trace(&store, REV2, &g2, &updates, X).unwrap(), X3);
}

#[test]
fn archives_propagate_to_later_revisions() {
    let (mut store, g2, updates) = removed_author_setup();
    let g3 = group(vec![A], vec![B, C]);
    update_group(&mut store, GROUP, REV2, REV3, A, &g2, &g3).unwrap();
    let archive = group_auth_archive_anchor_hash(REV2, A);
    let listed = store.get_links(Node::Action(REV3), LinkTypes::GroupAuthArchive, None);
    assert_eq!(listed.len(), 1);
    assert_eq!(listed[0].target, archive);
    assert_eq!(get_group_content_latest(&store, REV3, &g3, &updates, X, Some(true)).unwrap(), X2);
    assert_eq!(get_group_content_latest(&store, REV3, &g3, &updates, X, None).unwrap(), X2);
    let auths = store.get_links(Node::Action(REV3), LinkTypes::GroupAuth, None);
    let targets: Vec<Node> = auths.iter().map(|l| l.target).collect();
    assert_eq!(targets, vec![group_auth_anchor_hash(GROUP, C), group_auth_anchor_hash(GROUP, B)]);
}

#[test]
fn new_content_is_its_own_latest() {
    let mut store = LinkStore::new();
    let g = group(vec![A], vec![A, B]);
    create_group(&mut store, GROUP, A, &g);
    create_content_link(&mut store, GROUP, B, Node::Action(Y));
    let all = get_all_group_content_targets(&store, GROUP, &g, &vec![], None);
    assert_eq!(all, vec![(Y, Y)]);
    let all = get_all_group_content_targets(&store, GROUP, &g, &vec![], Some(true));
    assert_eq!(all, vec![(Y, Y)]);
}

#[test]
fn all_targets_list_every_content_item() {
    let (mut store, g2, mut updates) = removed_author_setup();
    create_content_link(&mut store, GROUP, B, Node::Action(Y));
    updates.push(upd(B, Y, 301));
    create_content_update_link(&mut store, GROUP, B, Y, Y, Node::Action(301));
    let expected = vec![(X, X2), (Y, 301)];
    assert_eq!(get_all_group_content_targets_shortcuts(&store, REV2), expected);
    assert_eq!(get_all_group_content_targets_full_trace(&store, REV2, &g2, &updates), expected);
    let chains = trace_all_group_content_evolutions_shortcuts(&store, REV2);
    assert_eq!(chains, vec![(X, vec![X, X2]), (Y, vec![Y, 301])]);
}

#[test]
fn delete_removes_only_the_matching_target() {
    let mut store = LinkStore::new();
    let anchor = group_auth_anchor_hash(GROUP, A);
    let h1 = create_content_link(&mut store, GROUP, A, Node::Action(X));
    let h2 = create_content_link(&mut store, GROUP, A, Node::Action(Y));
    assert_ne!(h1, h2);
    let removed = store.delete_content_link(anchor, LinkTypes::Content, Some(Tag::Empty), Node::Action(X));
    assert_eq!(removed, vec![h1]);
    let left = store.get_links(anchor, LinkTypes::Content, None);
    assert_eq!(left.len(), 1);
    assert_eq!(left[0].target, Node::Action(Y));
    assert_eq!(left[0].create_link_hash, h2);
    let again = store.delete_content_link(anchor, LinkTypes::Content, None, Node::Action(X));
    assert!(again.is_empty());
}

#[test]
fn colliding_predecessors_keep_one_shortcut() {
    let p: u64 = 400;
    let q: u64 = 401;
    let s: u64 = 402;
    let mut store = LinkStore::new();
    let g = group(vec![A], vec![A, B]);
    create_group(&mut store, GROUP, A, &g);
    create_content_link(&mut store, GROUP, A, Node::Action(p));
    create_content_update_link(&mut store, GROUP, A, p, p, Node::Action(q));
    create_content_update_link(&mut store, GROUP, B, p, p, Node::Action(s));
    let map = build_shortcut_map(&vec![(p, q), (p, s)]);
    assert_eq!(map.len(), 1);
    assert_eq!(map.get(&p), Some(&s));
    assert_eq!(get_group_content_latest_shortcuts(&store, GROUP, p).unwrap(), s);
    let updates = vec![upd(A, p, q), upd(B, p, s)];
    assert_eq!(get_group_content_latest_full_trace(&store, GROUP, &g, &updates, p).unwrap(), q);
    let only_b = group(vec![A], vec![B]);
    assert_eq!(get_group_content_latest_full_trace(&store, GROUP, &only_b, &updates, p).unwrap(), s);
}

#[test]
fn archiving_twice_adds_nothing() {
    let mut store = LinkStore::new();
    create_content_link(&mut store, GROUP, A, Node::Action(X));
    create_content_update_link(&mut store, GROUP, A, X, X, Node::Action(X2));
    archive_authority(&mut store, GROUP, REV2, A);
    let links = store.links.len();
    let entries = store.entries.len();
    assert_eq!(links, 2 + 3);
    archive_authority(&mut store, GROUP, REV2, A);
    assert_eq!(store.links.len(), links);
    assert_eq!(store.entries.len(), entries);
}

#[test]
fn creating_a_link_twice_keeps_one() {
    let mut store = LinkStore::new();
    let h1 = create_content_link(&mut store, GROUP, A, Node::Action(X));
    let h2 = create_content_link(&mut store, GROUP, A, Node::Action(X));
    assert_eq!(h1, h2);
    assert_eq!(store.links.len(), 1);
    assert_eq!(store.entries.len(), 1);
}

#[test]
fn update_by_non_admin_is_unauthorized() {
    let mut store = LinkStore::new();
    let g1 = group(vec![A], vec![A, B]);
    create_group(&mut store, GROUP, A, &g1);
    let before = store.links.len();
    let err = update_group(&mut store, GROUP, GROUP, REV2, B, &g1, &group(vec![A], vec![B])).unwrap_err();
    assert_eq!(err.kind, ErrorKind::Unauthorized);
    assert_eq!(store.links.len(), before);
}

#[test]
fn admin_change_is_a_validation_error() {
    let mut store = LinkStore::new();
    let g1 = group(vec![A], vec![A, B]);
    create_group(&mut store, GROUP, A, &g1);
    let err = update_group(&mut store, GROUP, GROUP, REV2, A, &g1, &group(vec![A, B], vec![A, B])).unwrap_err();
    assert_eq!(err.kind, ErrorKind::Validation);
}

#[test]
fn unknown_content_is_not_found() {
    let (store, _, _) = removed_author_setup();
    let err = get_group_content_latest_shortcuts(&store, REV2, 999).unwrap_err();
    assert_eq!(err.kind, ErrorKind::NotFound);
}

#[test]
fn create_group_links_each_authority() {
    let mut store = LinkStore::new();
    let g = group(vec![A], vec![A, B]);
    assert_eq!(create_group(&mut store, GROUP, A, &g), GROUP);
    let auths = store.get_links(Node::Action(GROUP), LinkTypes::GroupAuth, None);
    let targets: Vec<Node> = auths.iter().map(|l| l.target).collect();
    assert_eq!(targets, vec![Node::AuthAnchor(GROUP, A), Node::AuthAnchor(GROUP, B)]);
    assert_eq!(store.get_links(Node::Agent(A), LinkTypes::Group, None).len(), 1);
    assert_eq!(store.entries, vec![Node::AuthAnchor(GROUP, A), Node::AuthAnchor(GROUP, B)]);
}

#[test]
fn update_link_carries_its_tag() {
    let mut store = LinkStore::new();
    create_content_update_link(&mut store, GROUP, A, X, X2, Node::Action(X3));
    let ls = store.get_links(Node::AuthAnchor(GROUP, A), LinkTypes::ContentUpdate, Some(Tag::Update { content_id: X, prev: X2 }));
    assert_eq!(ls.len(), 1);
    assert_eq!(ls[0].target, Node::Action(X3));
    assert!(store.get_links(Node::AuthAnchor(GROUP, A), LinkTypes::ContentUpdate, Some(Tag::Empty)).is_empty());
}

#[test]
fn shortcut_trace_follows_pointers_once() {
    let mut m: HashMap<u64, u64> = HashMap::new();
    m.insert(1, 2);
    m.insert(2, 3);
    assert_eq!(trace_update_map(1, &m), vec![1, 2, 3]);
    assert_eq!(trace_update_map(3, &m), vec![3]);
    m.insert(3, 1);
    assert_eq!(trace_update_map(1, &m), vec![1, 2, 3, 1]);
}

#[test]
fn full_walk_and_shortcuts_agree_without_collision() {
    let updates = vec![upd(A, 10, 11), upd(B, 11, 12), upd(A, 12, 13)];
    let pairs: Vec<(u64, u64)> = updates.iter().map(|u| (u.prev, u.next)).collect();
    let full = trace_evolutions_using_authorities_with_exceptions(10, &updates, &vec![A, B], &vec![]);
    let short = trace_update_map(10, &build_shortcut_map(&pairs));
    assert_eq!(full, vec![10, 11, 12, 13]);
    assert_eq!(full, short);
}

#[test]
fn full_walk_takes_exceptions() {
    let updates = vec![upd(C, 10, 11), upd(C, 11, 12)];
    let chain = trace_evolutions_using_authorities_with_exceptions(10, &updates, &vec![A], &vec![11]);
    assert_eq!(chain, vec![10, 11]);
    let chain = trace_evolutions_using_authorities_with_exceptions(10, &updates, &vec![A], &vec![]);
    assert_eq!(chain, vec![10]);
}

#[test]
fn entry_hash_content_is_listed_by_shortcuts() {
    let e: u64 = 500;
    let e2: u64 = 501;
    let mut store = LinkStore::new();
    let g = group(vec![A], vec![A]);
    create_group(&mut store, GROUP, A, &g);
    create_content_link(&mut store, GROUP, A, Node::Entry(e));
    assert_eq!(trace_all_group_content_evolutions_shortcuts(&store, GROUP), vec![(e, vec![e])]);
    create_content_update_link(&mut store, GROUP, A, e, e, Node::Entry(e2));
    assert_eq!(get_group_content_latest_shortcuts(&store, GROUP, e).unwrap(), e2);
    // The full walk follows records only.
    assert!(get_all_group_content_targets_full_trace(&store, GROUP, &g, &vec![]).is_empty());
}

#[test]
fn update_adds_only_its_own_links() {
    let mut store = LinkStore::new();
    let g1 = group(vec![A], vec![A, B]);
    create_group(&mut store, GROUP, A, &g1);
    create_content_link(&mut store, GROUP, A, Node::Action(X));
    let before = store.links.clone();
    let g2 = group(vec![A], vec![B, C]);
    update_group(&mut store, GROUP, GROUP, REV2, A, &g1, &g2).unwrap();
    assert_eq!(&store.links[..before.len()], &before[..]);
    let new_links = &store.links[before.len()..];
    // Archive link and its copied create link for A, then authority links for C and B.
    assert_eq!(new_links.len(), 4);
    let auths: Vec<Node> = store.get_links(Node::Action(REV2), LinkTypes::GroupAuth, None).iter().map(|l| l.target).collect();
    assert_eq!(auths, vec![Node::AuthAnchor(GROUP, C), Node::AuthAnchor(GROUP, B)]);
    let archives: Vec<Node> = store.get_links(Node::Action(REV2), LinkTypes::GroupAuthArchive, None).iter().map(|l| l.target).collect();
    assert_eq!(archives, vec![Node::ArchiveAnchor(REV2, A)]);
    assert_eq!(store.entries, vec![Node::AuthAnchor(GROUP, A), Node::AuthAnchor(GROUP, B), Node::ArchiveAnchor(REV2, A), Node::AuthAnchor(GROUP, C)]);
    // Replaying the update changes nothing.
    let links = store.links.len();
    update_group(&mut store, GROUP, GROUP, REV2, A, &g1, &g2).unwrap();
    assert_eq!(store.links.len(), links);
    assert_eq!(store.entries.len(), 4);
}

#[test]
fn genesis_has_no_archives() {
    let mut store = LinkStore::new();
    create_group(&mut store, GROUP, A, &group(vec![A], vec![B]));
    assert!(store.get_links(Node::Action(GROUP), LinkTypes::GroupAuthArchive, None).is_empty());
    assert_eq!(store.links.len(), 2);
}
