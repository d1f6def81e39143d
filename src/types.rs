//! Plain-value model of the addresses, links and entries the engine handles.
use vstd::prelude::*;

verus! {

/// Address of an agent (its public key, interned as an integer).
pub type AgentId = u64;

/// Address of an immutable record (an action), interned as an integer.
pub type Addr = u64;

/// Anything a link can start from or point to.
#[derive(Clone, Copy, Debug, PartialEq, Eq, Structural)]
pub enum Node {
    /// A record, such as a group revision or a content item.
    Action(Addr),
    /// An entry that is not a record address (a plain content hash).
    Entry(Addr),
    /// An agent's public key.
    Agent(AgentId),
    /// The authority anchor of `agent` under group `group_id`.
    AuthAnchor(Addr, AgentId),
    /// The archive anchor of `agent`, created at revision `revision`.
    ArchiveAnchor(Addr, AgentId),
}

/// The kinds of links the engine attaches.
#[derive(Clone, Copy, Debug, PartialEq, Eq, Structural)]
pub enum LinkTypes {
    Group,
    GroupAuth,
    GroupAuthArchive,
    Content,
    ContentUpdate,
}

/// A link tag: empty, or the `(content id, predecessor)` pair of an update link.
#[derive(Clone, Copy, Debug, PartialEq, Eq, Structural)]
pub enum Tag {
    Empty,
    Update { content_id: Addr, prev: Addr },
}

/// The kinds of entries the validation rules tell apart.
#[derive(Clone, Copy, Debug, PartialEq, Eq, Structural)]
pub enum EntryTypesUnit {
    Group,
    ContributionsAnchor,
    ArchivedContributionsAnchor,
}

/// An entry of one of the engine's kinds, with its content.
#[derive(Clone, Debug)]
pub enum EntryTypes {
    Group(GroupEntry),
    /// The authority anchor of an agent under a group.
    ContributionsAnchor(Addr, AgentId),
    /// The archive anchor of an agent at a revision.
    ArchivedContributionsAnchor(Addr, AgentId),
}

/// The outcome of an admission rule.
#[derive(Clone, Debug)]
pub enum ValidateCallbackResult {
    Valid,
    /// Refused, with the rule that was broken.
    Invalid(String),
}

/// A group revision's content: who may administer it and who may write under it.
#[derive(Clone, Debug)]
pub struct GroupEntry {
    pub admins: Vec<AgentId>,
    pub authorities: Vec<AgentId>,
}

/// Why an operation was refused.
#[derive(Clone, Copy, Debug, PartialEq, Eq, Structural)]
pub enum ErrorKind {
    /// A forbidden mutation.
    Validation,
    /// The author is not an admin or authority for the operation.
    Unauthorized,
    /// A referenced revision, content item or anchor is absent.
    NotFound,
    /// A tag could not be decoded.
    Malformed,
    /// An evolution chain came out empty.
    InternalInvariantViolation,
}

/// A refusal: its kind and the rule that was broken, in words.
#[derive(Clone, Debug)]
pub struct EngineError {
    pub kind: ErrorKind,
    pub message: String,
}

} // verus!
