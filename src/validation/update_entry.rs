//! Updating an entry of the engine.
use vstd::prelude::*;
use crate::types::{AgentId, EntryTypes, ValidateCallbackResult};

verus! {

/// Whether a single-author update of the group revision `prev` to `next`
/// by `author` is admitted: the author is an admin of `prev`, and the admin
/// list is unchanged (changing it takes a multi-party flow).
pub open spec fn group_update_allowed(
    prev: crate::types::GroupEntry,
    next: crate::types::GroupEntry,
    author: AgentId,
) -> bool {
    prev.admins@.contains(author) && next.admins@ == prev.admins@
}

/// Whether two lists of agents are equal, element by element.
pub fn same_agents(a: &Vec<AgentId>, b: &Vec<AgentId>) -> (r: bool)
    ensures
        r == (a@ == b@),
{
    if a.len() != b.len() {
        return false;
    }
    let mut i: usize = 0;
    while i < a.len()
        invariant
            a.len() == b.len(),
            0 <= i <= a.len(),
            forall|j: int| 0 <= j < i ==> a@[j] == b@[j],
        decreases a.len() - i,
    {
        if a[i] != b[i] {
            return false;
        }
        i = i + 1;
    }
    proof {
        assert(a@ =~= b@);
    }
    true
}

/// Admission of an update to `app_entry` by `author`, where `prev_entry` is the
/// entry being updated. Only groups can be updated.
pub fn validation(app_entry: &EntryTypes, author: AgentId, prev_entry: &EntryTypes) -> (r:
    ValidateCallbackResult)
    ensures
        r is Valid <==> (match (app_entry, prev_entry) {
            (EntryTypes::Group(next), EntryTypes::Group(prev)) => group_update_allowed(
                *prev,
                *next,
                author,
            ),
            _ => false,
        }),
        match (app_entry, prev_entry) {
            (EntryTypes::Group(next), EntryTypes::Group(prev)) => {
                &&& !prev.admins@.contains(author) ==> (r matches ValidateCallbackResult::Invalid(m)
                    && m@ == "Updating a group can only be done by an admin"@)
                &&& prev.admins@.contains(author) && next.admins@ != prev.admins@ ==> (
                r matches ValidateCallbackResult::Invalid(m) && m@
                    == "Changing a group's admin list requires counter-signing"@)
            },
            _ => true,
        },
{
    match app_entry {
        EntryTypes::Group(group) => {
            let prev_group = match prev_entry {
                EntryTypes::Group(g) => g,
                _ => {
                    return ValidateCallbackResult::Invalid(
                        "The updated entry is not a group".to_owned(),
                    );
                },
            };
            if !prev_group.is_admin(author) {
                return ValidateCallbackResult::Invalid(
                    "Updating a group can only be done by an admin".to_owned(),
                );
            }
            if !same_agents(&group.admins, &prev_group.admins) {
                return ValidateCallbackResult::Invalid(
                    "Changing a group's admin list requires counter-signing".to_owned(),
                );
            }
            ValidateCallbackResult::Valid
        },
        EntryTypes::ContributionsAnchor(..) => ValidateCallbackResult::Invalid(
            "Anchors cannot be updated".to_owned(),
        ),
        EntryTypes::ArchivedContributionsAnchor(..) => ValidateCallbackResult::Invalid(
            "Archive anchors cannot be updated".to_owned(),
        ),
    }
}

} // verus!
