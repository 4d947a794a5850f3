//! The values that flow through the core: updates, containers, entities,
//! difference requests and responses, and the persisted state.
use vstd::prelude::*;

verus! {

/// One logical stream of updates, governed by its own `pts` counter.
#[derive(Clone, Copy, Debug, PartialEq, Eq, Structural)]
pub enum BoxId {
    /// The account-wide stream, which also carries `qts`, `seq` and `date`.
    Common,
    /// The stream of one channel, by channel id.
    Channel(i64),
}

/// Where an update sits in its stream: the `pts` it brings the stream to and
/// how many `pts` units it consumes.
#[derive(Clone, Copy, Debug, PartialEq, Eq, Structural)]
pub struct PtsInfo {
    pub box_id: BoxId,
    pub pts: i32,
    pub count: i32,
}

/// An update in raw form. `payload` identifies its content; `pts` is absent
/// for updates that belong to no stream (they are delivered as they come).
#[derive(Clone, Copy, Debug, PartialEq, Eq, Structural)]
pub struct RawUpdate {
    pub payload: u64,
    pub pts: Option<PtsInfo>,
}

/// A user or chat as embedded in a container, with its access hash if the
/// server sent one. `min` marks a hash obtained from a reduced context.
#[derive(Clone, Copy, Debug, PartialEq, Eq, Structural)]
pub struct Entity {
    pub id: i64,
    pub access_hash: Option<i64>,
    pub min: bool,
}

/// A container of updates pushed by the server.
///
/// `too_long` marks the server's signal that too many updates were missed.
/// `seq == 0` marks a container outside the `seq` ordering.
#[derive(Clone, Debug)]
pub struct Container {
    pub too_long: bool,
    pub updates: Vec<RawUpdate>,
    pub users: Vec<Entity>,
    pub chats: Vec<Entity>,
    pub date: i32,
    pub seq_start: i32,
    pub seq: i32,
}

/// The users and chats that came with one container or difference.
#[derive(Clone, Debug)]
pub struct ChatMap {
    pub users: Vec<Entity>,
    pub chats: Vec<Entity>,
}

/// Updates ready for consumers, with the entities that came with them.
#[derive(Clone, Debug)]
pub struct UpdateResult {
    pub updates: Vec<RawUpdate>,
    pub users: Vec<Entity>,
    pub chats: Vec<Entity>,
}

/// The counters of the common box, as the server echoes them.
#[derive(Clone, Copy, Debug, PartialEq, Eq, Structural)]
pub struct CommonState {
    pub pts: i32,
    pub qts: i32,
    pub seq: i32,
    pub date: i32,
}

/// The stored `pts` of one channel.
#[derive(Clone, Copy, Debug, PartialEq, Eq, Structural)]
pub struct ChannelState {
    pub id: i64,
    pub pts: i32,
}

/// What a session persists of the reconciliation state.
#[derive(Clone, Debug)]
pub struct UpdateState {
    pub pts: i32,
    pub qts: i32,
    pub seq: i32,
    pub date: i32,
    pub channels: Vec<ChannelState>,
}

/// Request for the events of the common box missed since the given counters.
#[derive(Clone, Copy, Debug, PartialEq, Eq, Structural)]
pub struct GetDifference {
    pub pts: i32,
    pub qts: i32,
    pub date: i32,
}

/// Request for the events of one channel missed since `pts`.
#[derive(Clone, Copy, Debug, PartialEq, Eq, Structural)]
pub struct GetChannelDifference {
    pub channel_id: i64,
    pub access_hash: i64,
    pub pts: i32,
    pub limit: i32,
}

/// Messages and updates of a difference response, with the state it leads to.
#[derive(Clone, Debug)]
pub struct DifferenceBatch {
    pub new_messages: Vec<u64>,
    pub other_updates: Vec<RawUpdate>,
    pub users: Vec<Entity>,
    pub chats: Vec<Entity>,
    pub state: CommonState,
}

/// The three shapes of a response to [`GetDifference`].
#[derive(Clone, Debug)]
pub enum Difference {
    /// Nothing was missed; the counters move to the echoed values.
    Empty(CommonState),
    /// Part of what was missed; more is to be fetched.
    Slice(DifferenceBatch),
    /// The rest of what was missed.
    Final(DifferenceBatch),
}

/// A response to [`GetChannelDifference`].
#[derive(Clone, Debug)]
pub struct ChannelDifference {
    pub is_final: bool,
    pub pts: i32,
    pub new_messages: Vec<u64>,
    pub other_updates: Vec<RawUpdate>,
    pub users: Vec<Entity>,
    pub chats: Vec<Entity>,
}

/// Why a channel difference ended before its response was applied.
#[derive(Clone, Copy, Debug, PartialEq, Eq, Structural)]
pub enum PrematureEndReason {
    /// The server had transient trouble: the stored `pts` stays as it was.
    TemporaryServerIssues,
    /// The account can no longer read the channel: its box is removed.
    Banned,
}

/// A container refers to a channel whose access hash is unknown.
#[derive(Clone, Copy, Debug, PartialEq, Eq, Structural)]
pub struct UnknownPeer;

/// A container could not be applied because updates were missed; the common
/// box is now fetching a difference.
#[derive(Clone, Copy, Debug, PartialEq, Eq, Structural)]
pub struct Gap;

} // verus!
