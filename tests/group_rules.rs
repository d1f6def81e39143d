use coop_content::tag::{decode_update_tag, encode_update_tag};
use coop_content::types::{EntryTypes, EntryTypesUnit, ErrorKind, GroupEntry, ValidateCallbackResult};
use coop_content::validation::{delete_entry, update_entry};

fn group(admins: Vec<u64>, authorities: Vec<u64>) -> GroupEntry {
    GroupEntry { admins, authorities }
}

#[test]
fn authorities_diff_partitions_both_sets() {
    let prev = group(vec![1], vec![1, 2, 3]);
    let next = group(vec![1], vec![2, 3, 4]);
    let d = prev.authorities_diff(&next);
    assert_eq!(d.removed, vec![1]);
    assert_eq!(d.added, vec![4]);
    assert_eq!(d.intersection, vec![2, 3]);
}

#[test]
fn authorities_diff_of_equal_sets() {
    let prev = group(vec![1], vec![5, 6, 5]);
    let next = group(vec![1], vec![6, 5]);
    let d = prev.authorities_diff(&next);
    assert!(d.removed.is_empty());
    assert!(d.added.is_empty());
    assert_eq!(d.intersection, vec![5, 6]);
}

#[test]
fn authorities_diff_from_empty() {
    let d = group(vec![], vec![]).authorities_diff(&group(vec![], vec![7, 8]));
    assert!(d.removed.is_empty());
    assert_eq!(d.added, vec![7, 8]);
    assert!(d.intersection.is_empty());
}

#[test]
fn admins_and_authorities_are_looked_up() {
    let g = group(vec![1], vec![2]);
    assert!(g.is_admin(1));
    assert!(!g.is_admin(2));
    assert!(g.is_authority(2));
    assert!(!g.is_authority(1));
}

#[test]
fn nothing_can_be_deleted() {
    for kind in [EntryTypesUnit::Group, EntryTypesUnit::ContributionsAnchor, EntryTypesUnit::ArchivedContributionsAnchor] {
        assert!(matches!(delete_entry::validation(kind), ValidateCallbackResult::Invalid(_)));
    }
}

#[test]
fn admin_may_update_authorities() {
    let prev = EntryTypes::Group(group(vec![1], vec![1, 2]));
    let next = EntryTypes::Group(group(vec![1], vec![2, 3]));
    assert!(matches!(update_entry::validation(&next, 1, &prev), ValidateCallbackResult::Valid));
}

#[test]
fn non_admin_may_not_update() {
    let prev = EntryTypes::Group(group(vec![1], vec![1, 2]));
    let next = EntryTypes::Group(group(vec![1], vec![2]));
    match update_entry::validation(&next, 2, &prev) {
        ValidateCallbackResult::Invalid(msg) => assert!(msg.contains("admin")),
        ValidateCallbackResult::Valid => panic!("update by a non-admin was admitted"),
    }
}

#[test]
fn admin_list_change_needs_counter_signing() {
    let prev = EntryTypes::Group(group(vec![1], vec![1]));
    let next = EntryTypes::Group(group(vec![1, 2], vec![1]));
    match update_entry::validation(&next, 1, &prev) {
        ValidateCallbackResult::Invalid(msg) => assert!(msg.contains("counter-signing")),
        ValidateCallbackResult::Valid => panic!("admin change was admitted"),
    }
}

#[test]
fn anchors_cannot_be_updated() {
    let prev = EntryTypes::ContributionsAnchor(100, 1);
    let next = EntryTypes::ContributionsAnchor(100, 2);
    assert!(matches!(update_entry::validation(&next, 1, &prev), ValidateCallbackResult::Invalid(_)));
}

#[test]
fn delete_refusals_name_the_rule() {
    match delete_entry::validation(EntryTypesUnit::Group) {
        ValidateCallbackResult::Invalid(m) => assert_eq!(m, "Groups cannot be deleted; they can be marked as 'dead' using counter-signing"),
        ValidateCallbackResult::Valid => panic!("group deletion was admitted"),
    }
    match delete_entry::validation(EntryTypesUnit::ArchivedContributionsAnchor) {
        ValidateCallbackResult::Invalid(m) => assert_eq!(m, "Anchors are required for the continuity of group content evolution"),
        ValidateCallbackResult::Valid => panic!("anchor deletion was admitted"),
    }
}

#[test]
fn update_refusals_name_the_rule() {
    let prev = EntryTypes::Group(group(vec![1], vec![1]));
    let next = EntryTypes::Group(group(vec![1, 2], vec![1]));
    match update_entry::validation(&next, 2, &prev) {
        ValidateCallbackResult::Invalid(m) => assert_eq!(m, "Updating a group can only be done by an admin"),
        ValidateCallbackResult::Valid => panic!("update by a non-admin was admitted"),
    }
    match update_entry::validation(&next, 1, &prev) {
        ValidateCallbackResult::Invalid(m) => assert_eq!(m, "Changing a group's admin list requires counter-signing"),
        ValidateCallbackResult::Valid => panic!("admin change was admitted"),
    }
}

#[test]
fn update_tag_round_trip() {
    let tag = encode_update_tag(&b"uhCkkX".to_vec(), &b"uhCkkP".to_vec());
    assert_eq!(tag, b"uhCkkX:uhCkkP".to_vec());
    let (a, b) = decode_update_tag(&tag).unwrap();
    assert_eq!(a, b"uhCkkX".to_vec());
    assert_eq!(b, b"uhCkkP".to_vec());
    let (a, b) = decode_update_tag(&b"x:y:z".to_vec()).unwrap();
    assert_eq!((a, b), (b"x".to_vec(), b"y:z".to_vec()));
}

#[test]
fn tag_without_separator_is_malformed() {
    let err = decode_update_tag(&b"uhCkkX".to_vec()).unwrap_err();
    assert_eq!(err.kind, ErrorKind::Malformed);
}
