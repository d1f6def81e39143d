//! Deleting an entry of the engine.
use vstd::prelude::*;
use crate::types::{EntryTypesUnit, ValidateCallbackResult};

verus! {

/// No entry of the engine can be deleted: groups are kept for their history,
/// and anchors hold the continuity of content evolution. The refusal names
/// the rule for the kind of entry.
pub fn validation(deleted_kind: EntryTypesUnit) -> (r: ValidateCallbackResult)
    ensures
        deleted_kind is Group ==> (r matches ValidateCallbackResult::Invalid(m) && m@
            == "Groups cannot be deleted; they can be marked as 'dead' using counter-signing"@),
        !(deleted_kind is Group) ==> (r matches ValidateCallbackResult::Invalid(m) && m@
            == "Anchors are required for the continuity of group content evolution"@),
{
    match deleted_kind {
        EntryTypesUnit::Group => ValidateCallbackResult::Invalid(
            "Groups cannot be deleted; they can be marked as 'dead' using counter-signing".to_owned(),
        ),
        EntryTypesUnit::ContributionsAnchor => ValidateCallbackResult::Invalid(
            "Anchors are required for the continuity of group content evolution".to_owned(),
        ),
        EntryTypesUnit::ArchivedContributionsAnchor => ValidateCallbackResult::Invalid(
            "Anchors are required for the continuity of group content evolution".to_owned(),
        ),
    }
}

} // verus!
