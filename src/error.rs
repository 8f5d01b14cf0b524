use vstd::prelude::*;

verus! {

/// What can go wrong in the library and in the calls around it.
#[derive(Debug, Clone, PartialEq, Eq)]
pub enum UrbitAPIError {
    FailedToLogin,
    FailedToCreateNewChannel,
    FailedToCreateNewSubscription,
    /// The channel was deleted: it issues no further message ids.
    ChannelDeleted,
    /// The ship did not acknowledge an action (named) with success.
    ActionFailed(String),
    FailedToFetchKeys,
    FailedToFetchTags,
    FailedToSendChatMessage(String),
    FailedToGetUpdateLog(String),
    FailedToGetGraph(String),
    FailedToGetGraphNode(String),
    FailedToArchiveGraph(String),
    FailedToAddTag(String),
    FailedToRemoveTag(String),
    FailedToAddNodesToGraphStore(String),
    FailedToRemoveNodesFromGraphStore(String),
    FailedToRemoveGraphFromGraphStore(String),
    FailedToCreateGraphInShip(String),
    /// A graph payload held no node.
    FailedToCreateGraphFromJSON,
    /// A node payload lacked a required field or had one of the wrong type.
    FailedToCreateGraphNodeFromJSON,
    FailedToInsertGraphNode,
    InvalidNoteGraphNode(String),
    InvalidLinkGraphNode(String),
    InvalidNoteGraphNodeIndex(String),
    FailedToCreateNote(String),
    FailedToCreateComment(String),
    InvalidCommentGraphNodeIndex(String),
    Other(String),
    /// The transport failed; the text describes how.
    TransportError(String),
}

} // verus!
