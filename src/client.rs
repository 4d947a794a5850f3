//! The sequencer: the decisions taken between transport round trips. The
//! caller performs what a [`Step`] asks and hands back what came of it.
use crate::hashes::{merged, peers_known, PeerHashTable};
use crate::message_box::{
    absorbed, as_updates, checked, delivered_in_order, routed_all, eligible, grew, state_view, wake_at, BoxState, MessageBox,
};
use crate::queue::{extended, paired, room, UpdateQueue};
use crate::types::{
    BoxId, ChannelDifference, ChatMap, Container, Difference, Entity, GetChannelDifference, GetDifference,
    PrematureEndReason, RawUpdate, UpdateState,
};
use std::sync::Arc;
use vstd::prelude::*;

verus! {

/// Settings of the update core.
#[derive(Clone, Copy, Debug, PartialEq, Eq, Structural)]
pub struct InitParams {
    /// At most this many updates wait in the queue (`None`: no bound).
    pub update_queue_limit: Option<usize>,
    /// Whether a restored session first fetches what was missed while offline.
    pub catch_up: bool,
}

/// Where the reconciliation state is persisted between runs.
pub struct Session {
    pub state: Option<UpdateState>,
}

impl Session {
    pub fn new() -> (r: Self)
        ensures
            r.state is None,
    {
        Session { state: None }
    }

    /// Stores `state`, replacing what was stored.
    pub fn set_state(&mut self, state: UpdateState)
        ensures
            final(self).state == Some(state),
    {
        self.state = Some(state);
    }
}

/// An error the server returned for a request.
pub struct RpcError {
    pub code: i32,
    pub name: String,
}

/// Why a request failed.
pub enum InvocationError {
    /// The server answered with an error.
    Rpc(RpcError),
    /// The request did not complete; the text says why.
    Transport(String),
}

/// What a failed channel difference request means for the channel's stream.
#[derive(Clone, Copy, Debug, PartialEq, Eq, Structural)]
pub enum FailureKind {
    /// Transient trouble on the server's side.
    Temporary,
    /// The account may no longer read the channel.
    Banned,
    /// Anything else, for the caller to handle.
    Other,
}

/// Timestamps out of date, or an internal server error, are transient; a
/// private channel means a ban; the rest is the caller's.
pub open spec fn failure_kind(e: InvocationError) -> FailureKind {
    match e {
        InvocationError::Rpc(r) => if r.name@ == "PERSISTENT_TIMESTAMP_OUTDATED"@ {
            FailureKind::Temporary
        } else if r.name@ == "CHANNEL_PRIVATE"@ {
            FailureKind::Banned
        } else if r.code == 500 {
            FailureKind::Temporary
        } else {
            FailureKind::Other
        },
        InvocationError::Transport(_) => FailureKind::Other,
    }
}

/// Classifies a failed channel difference request.
pub fn classify_failure(e: &InvocationError) -> (r: FailureKind)
    ensures
        r == failure_kind(*e),
{
    match e {
        InvocationError::Rpc(r) => {
            if r.name == "PERSISTENT_TIMESTAMP_OUTDATED".to_owned() {
                FailureKind::Temporary
            } else if r.name == "CHANNEL_PRIVATE".to_owned() {
                FailureKind::Banned
            } else if r.code == 500 {
                FailureKind::Temporary
            } else {
                FailureKind::Other
            }
        },
        InvocationError::Transport(_) => FailureKind::Other,
    }
}

/// Why a container was not applied.
#[derive(Clone, Copy, Debug, PartialEq, Eq, Structural)]
pub enum UpdateError {
    /// It refers to a channel whose access hash is unknown; nothing changed.
    UnknownPeer,
    /// Updates were missed; the common box now fetches a difference.
    Gap,
}

/// What the sequencer needs next.
pub enum Step {
    /// Hand this update, with its chat map, to the consumer.
    Deliver(RawUpdate, Arc<ChatMap>),
    /// Send this request and hand its response to `on_difference`.
    GetDifference(GetDifference),
    /// Send this request and hand its outcome to `on_channel_difference`.
    GetChannelDifference(GetChannelDifference),
    /// Wait until this instant, or until new containers arrive.
    Wait(u64),
}

/// The update core of one account: streams, access hashes, the queue of
/// updates for consumers, and the session where the state is persisted.
pub struct Client {
    pub message_box: MessageBox,
    pub chat_hashes: PeerHashTable,
    pub updates: UpdateQueue,
    pub session: Session,
}

/// The queue after the updates of `out` that fit are appended, each with a
/// chat map made of `users` and `chats`.
pub open spec fn queued(
    before: UpdateQueue,
    after: UpdateQueue,
    out: Seq<RawUpdate>,
    users: Seq<Entity>,
    chats: Seq<Entity>,
) -> bool {
    let kept = room(before.items@.len(), out.len(), before.limit);
    &&& after.wf()
    &&& after.limit == before.limit
    &&& after.items@.len() == before.items@.len() + kept
    &&& after.items@.take(before.items@.len() as int) == before.items@
    &&& forall|i: int|
        0 <= i < kept ==> {
            let e = #[trigger] after.items@[before.items@.len() + i];
            &&& e.0 == out[i]
            &&& e.1.users@ == users
            &&& e.1.chats@ == chats
        }
}

/// What applying container `c` at `now` does to a client in state `s0`,
/// leaving it in state `s1` with result `r`.
pub open spec fn container_step(
    s0: Client,
    c: Container,
    now: u64,
    s1: Client,
    r: Result<bool, UpdateError>,
) -> bool {
    &&& s1.wf()
    &&& grew(s0.message_box, s1.message_box)
    &&& s1.session == s0.session
    &&& !peers_known(s0.chat_hashes.chats@, c) ==> {
        &&& r == Err::<bool, UpdateError>(UpdateError::UnknownPeer)
        &&& s1 == s0
    }
    &&& peers_known(s0.chat_hashes.chats@, c) ==> {
        &&& s1.chat_hashes.users@ == merged(s0.chat_hashes.users@, c.users@)
        &&& s1.chat_hashes.chats@ == merged(s0.chat_hashes.chats@, c.chats@)
        &&& c.too_long || (c.seq != 0 && c.seq_start > s0.message_box.seq + 1) ==> {
            &&& r == Err::<bool, UpdateError>(UpdateError::Gap)
            &&& s1.updates == s0.updates
            &&& s1.message_box.common == BoxState { getting_diff: true, ..s0.message_box.common }
            &&& s1.message_box.seq == s0.message_box.seq
        }
        &&& !c.too_long && c.seq != 0 && c.seq_start <= s0.message_box.seq ==> {
            &&& r == Ok::<bool, UpdateError>(false)
            &&& s1.updates == s0.updates
            &&& s1.message_box == s0.message_box
        }
        &&& !c.too_long && c.seq == 0 ==> {
            &&& (forall|i: int| 0 <= i < c.updates@.len() ==> (#[trigger] c.updates@[i]).pts is Some)
                ==> forall|i: int| 0 <= i < c.updates@.len() ==> absorbed(s1.message_box, #[trigger] c.updates@[i])
            &&& (forall|i: int| 0 <= i < c.updates@.len() ==> absorbed(s0.message_box, #[trigger] c.updates@[i]))
                ==> s1.updates == s0.updates
        }
        &&& !c.too_long && (c.seq == 0 || c.seq_start == s0.message_box.seq + 1) ==> {
            &&& r is Ok
            &&& s1.message_box.seq == (if c.seq != 0 { c.seq } else { s0.message_box.seq })
            &&& s1.message_box.date == (if c.seq != 0 { c.date } else { s0.message_box.date })
            &&& exists|states: Seq<MessageBox>, outs: Seq<Seq<RawUpdate>>| {
                &&& #[trigger] routed_all(s0.message_box, c.updates@, now, states, outs)
                &&& s1.message_box == if c.seq != 0 {
                    MessageBox { seq: c.seq, date: c.date, ..states.last() }
                } else {
                    states.last()
                }
                &&& delivered_in_order(s0.message_box, s1.message_box, outs.flatten())
                &&& queued(s0.updates, s1.updates, outs.flatten(), c.users@, c.chats@)
            }
        }
    }
}

/// `states` goes from `s0` to `s1` through one container step per container
/// of `cs`, with `results`; `warn` says whether any step asked for a warning.
pub open spec fn batch_steps(
    s0: Client,
    cs: Seq<Container>,
    now: u64,
    s1: Client,
    states: Seq<Client>,
    results: Seq<Result<bool, UpdateError>>,
    warn: bool,
) -> bool {
    &&& states.len() == cs.len() + 1
    &&& results.len() == cs.len()
    &&& states[0] == s0
    &&& states[cs.len() as int] == s1
    &&& forall|k: int| 0 <= k < cs.len() ==> #[trigger] container_step(states[k], cs[k], now, states[k + 1], results[k])
    &&& warn == exists|k: int| 0 <= k < results.len() && #[trigger] results[k] == Ok::<bool, UpdateError>(true)
}

/// The messages that a difference response carries.
pub open spec fn difference_messages(d: Difference) -> Seq<u64> {
    match d {
        Difference::Empty(_) => Seq::empty(),
        Difference::Slice(b) | Difference::Final(b) => b.new_messages@,
    }
}

/// The users that a difference response carries.
pub open spec fn difference_users(d: Difference) -> Seq<Entity> {
    match d {
        Difference::Empty(_) => Seq::empty(),
        Difference::Slice(b) | Difference::Final(b) => b.users@,
    }
}

/// The chats that a difference response carries.
pub open spec fn difference_chats(d: Difference) -> Seq<Entity> {
    match d {
        Difference::Empty(_) => Seq::empty(),
        Difference::Slice(b) | Difference::Final(b) => b.chats@,
    }
}

/// The queue's own account of an append, restated per entry.
proof fn lemma_queued(before: UpdateQueue, after: UpdateQueue, out: Seq<RawUpdate>, m: Arc<ChatMap>)
    requires
        after.wf(),
        after.limit == before.limit,
        after.items@ == before.items@ + paired(
            out.take(room(before.items@.len(), out.len(), before.limit) as int),
            m,
        ),
        room(before.items@.len(), out.len(), before.limit) <= out.len(),
    ensures
        queued(before, after, out, m.users@, m.chats@),
{
    let kept = room(before.items@.len(), out.len(), before.limit);
    assert(after.items@.take(before.items@.len() as int) =~= before.items@);
    assert forall|i: int| 0 <= i < kept implies {
        let e = #[trigger] after.items@[before.items@.len() + i];
        &&& e.0 == out[i]
        &&& e.1.users@ == m.users@
        &&& e.1.chats@ == m.chats@
    } by {
        assert(after.items@[before.items@.len() + i] == paired(out.take(kept as int), m)[i]);
    }
}

impl Client {
    pub open spec fn wf(&self) -> bool {
        &&& self.message_box.wf()
        &&& self.updates.wf()
    }

    /// A client whose streams come from the session's stored state, if any
    /// (fetching what was missed first when `catch_up` is set), and
    /// otherwise start empty.
    pub fn new(params: InitParams, session: Session, now: u64) -> (r: Self)
        ensures
            r.wf(),
            r.updates.items@.len() == 0,
            r.updates.limit == params.update_queue_limit,
            r.chat_hashes.users@.len() == 0,
            r.chat_hashes.chats@.len() == 0,
            r.session == session,
            match session.state {
                Some(s) => crate::message_box::unique_channels(s.channels@) ==> r.message_box.snapshot() == state_view(s),
                None => r.message_box.snapshot().1.len() == 0,
            },
    {
        let message_box = match &session.state {
            Some(s) => MessageBox::load(s, now, params.catch_up),
            None => MessageBox::new(now),
        };
        Client {
            message_box,
            chat_hashes: PeerHashTable::new(),
            updates: UpdateQueue::new(params.update_queue_limit),
            session,
        }
    }

    /// Stores the current reconciliation state in the session.
    pub fn sync_update_state(&mut self)
        requires
            old(self).wf(),
        ensures
            final(self).session.state is Some,
            state_view(final(self).session.state.unwrap()) == old(self).message_box.snapshot(),
            final(self).message_box == old(self).message_box,
            final(self).updates == old(self).updates,
            final(self).chat_hashes == old(self).chat_hashes,
    {
        let state = self.message_box.session_state();
        self.session.set_state(state);
    }

    /// Queues `updates` with their chat map, dropping the newest ones that do
    /// not fit; says whether a warning about dropped updates is due.
    pub fn extend_update_queue(&mut self, updates: Vec<RawUpdate>, chat_map: Arc<ChatMap>, now: u64) -> (warn: bool)
        requires
            old(self).wf(),
        ensures
            final(self).wf(),
            extended(old(self).updates, final(self).updates, updates@, chat_map, now, warn),
            final(self).message_box == old(self).message_box,
            final(self).chat_hashes == old(self).chat_hashes,
            final(self).session == old(self).session,
    {
        self.updates.extend(updates, chat_map, now)
    }

    /// Applies one container from the server: it is dropped, with nothing
    /// changed, when it refers to a channel of unknown access hash; otherwise
    /// its entities join the hash table, it goes through the message box, and
    /// what became deliverable is queued with the container's chat map. The
    /// result says whether a warning about dropped updates is due.
    pub fn process_container(&mut self, c: &Container, now: u64) -> (r: Result<bool, UpdateError>)
        requires
            old(self).wf(),
        ensures
            container_step(*old(self), *c, now, *final(self), r),
    {
        match self.chat_hashes.ensure_known(c) {
            Err(_) => {
                return Err(UpdateError::UnknownPeer);
            },
            Ok(()) => {},
        }
        let ghost s0 = *self;
        self.chat_hashes.extend(&c.users, &c.chats);
        let ghost mb0 = self.message_box;
        match self.message_box.process_updates(c, now) {
            Err(_) => {
                proof {
                    assert forall|b: BoxId| (#[trigger] mb0.box_state(b)) is Some implies self.message_box.box_state(b) is Some
                        && mb0.box_state(b).unwrap().pts <= self.message_box.box_state(b).unwrap().pts by {
                        if b != BoxId::Common {
                            assert(self.message_box.box_state(b) == mb0.box_state(b));
                        }
                    }
                }
                Err(UpdateError::Gap)
            },
            Ok(res) => {
                let ghost out = res.updates@;
                if res.updates.len() == 0 {
                    proof {
                        assert(queued(s0.updates, self.updates, out, c.users@, c.chats@)) by {
                            assert(self.updates.items@.take(s0.updates.items@.len() as int) =~= s0.updates.items@);
                        }
                        if !c.too_long && c.seq != 0 && c.seq_start <= s0.message_box.seq {
                        } else {
                            assert(delivered_in_order(s0.message_box, self.message_box, out));
                        }
                    }
                    return Ok(false);
                }
                let ghost q0 = self.updates;
                let map = Arc::new(ChatMap { users: res.users, chats: res.chats });
                let warn = self.updates.extend(res.updates, map, now);
                proof {
                    lemma_queued(q0, self.updates, out, map);
                    assert(delivered_in_order(s0.message_box, self.message_box, out));
                }
                Ok(warn)
            },
        }
    }

    /// Applies the containers in order, each as `process_container` does
    /// (those that cannot be applied are skipped). Says whether a warning
    /// about dropped updates is due after any of them.
    pub fn process_socket_updates(&mut self, all_updates: Vec<Container>, now: u64) -> (warn: bool)
        requires
            old(self).wf(),
        ensures
            final(self).wf(),
            exists|states: Seq<Client>, results: Seq<Result<bool, UpdateError>>| #[trigger] batch_steps(
                *old(self),
                all_updates@,
                now,
                *final(self),
                states,
                results,
                warn,
            ),
    {
        let ghost mut states: Seq<Client> = seq![*self];
        let ghost mut results: Seq<Result<bool, UpdateError>> = Seq::empty();
        let mut warn = false;
        let mut i: usize = 0;
        while i < all_updates.len()
            invariant
                self.wf(),
                i <= all_updates@.len(),
                states.len() == i + 1,
                results.len() == i,
                states[0] == *old(self),
                states[i as int] == *self,
                forall|k: int| 0 <= k < i ==> #[trigger] container_step(
                    states[k],
                    all_updates@[k],
                    now,
                    states[k + 1],
                    results[k],
                ),
                warn == exists|k: int| 0 <= k < results.len() && #[trigger] results[k] == Ok::<bool, UpdateError>(true),
            decreases all_updates@.len() - i,
        {
            let ghost was = warn;
            let ghost before = results;
            let r = self.process_container(&all_updates[i], now);
            proof {
                states = states.push(*self);
                results = results.push(r);
                assert forall|k: int| 0 <= k < i + 1 implies #[trigger] container_step(
                    states[k],
                    all_updates@[k],
                    now,
                    states[k + 1],
                    results[k],
                ) by {
                    if k < i {
                        assert(states[k] == states.drop_last()[k]);
                        assert(results[k] == before[k]);
                    }
                }
            }
            match r {
                Ok(w) => {
                    if w {
                        warn = true;
                    }
                },
                Err(_) => {},
            }
            proof {
                if was {
                    let k = choose|k: int| 0 <= k < before.len() && #[trigger] before[k] == Ok::<bool, UpdateError>(true);
                    assert(results[k] == before[k]);
                } else if r == Ok::<bool, UpdateError>(true) {
                    assert(results[i as int] == r);
                } else {
                    assert forall|k: int| 0 <= k < results.len() implies #[trigger] results[k] != Ok::<bool, UpdateError>(true) by {
                        if k < i {
                            assert(results[k] == before[k]);
                        }
                    }
                }
            }
            i = i + 1;
        }
        assert(batch_steps(*old(self), all_updates@, now, *self, states, results, warn));
        warn
    }

    /// Decides the next step of the sequencer: the oldest queued update if
    /// there is one; else, once due times are checked, the common box's
    /// difference request, or a channel's; else a wait until the earliest
    /// instant at which some stream needs attention.
    pub fn poll(&mut self, now: u64) -> (r: Step)
        requires
            old(self).wf(),
        ensures
            final(self).wf(),
            final(self).chat_hashes == old(self).chat_hashes,
            final(self).session == old(self).session,
            old(self).updates.items@.len() > 0 ==> {
                &&& r matches Step::Deliver(u, m)
                &&& old(self).updates.items@[0] == (u, m)
                &&& final(self).updates.items@ == old(self).updates.items@.drop_first()
                &&& final(self).message_box == old(self).message_box
            },
            old(self).updates.items@.len() == 0 ==> {
                &&& final(self).updates == old(self).updates
                &&& forall|b: BoxId| #[trigger] old(self).message_box.box_state(b) is Some
                    ==> final(self).message_box.box_state(b) == Some(
                    checked(old(self).message_box.box_state(b).unwrap(), now),
                )
                &&& forall|b: BoxId| #[trigger] old(self).message_box.box_state(b) is None
                    ==> final(self).message_box.box_state(b) is None
                &&& match r {
                    Step::Deliver(_, _) => false,
                    Step::GetDifference(req) => {
                        &&& final(self).message_box.common.getting_diff
                        &&& req == GetDifference {
                            pts: final(self).message_box.common.pts,
                            qts: final(self).message_box.qts,
                            date: final(self).message_box.date,
                        }
                    },
                    Step::GetChannelDifference(req) => {
                        &&& !final(self).message_box.common.getting_diff
                        &&& eligible(final(self).message_box, final(self).chat_hashes, req.channel_id)
                        &&& req.pts == final(self).message_box.channels@[req.channel_id].state.pts
                        &&& req.access_hash == final(self).chat_hashes.chats@[req.channel_id].hash
                        &&& final(self).message_box.channels@[req.channel_id].last_request == now
                    },
                    Step::Wait(t) => {
                        &&& !final(self).message_box.common.getting_diff
                        &&& forall|id: i64| !eligible(final(self).message_box, final(self).chat_hashes, id)
                        &&& forall|b: BoxId| #[trigger] final(self).message_box.box_state(b) is Some
                            ==> t <= wake_at(final(self).message_box.box_state(b).unwrap(), now)
                        &&& exists|b: BoxId| #[trigger] final(self).message_box.box_state(b) is Some
                            && t == wake_at(final(self).message_box.box_state(b).unwrap(), now)
                    },
                }
            },
    {
        if self.updates.len() > 0 {
            let (u, m) = self.updates.pop().unwrap();
            return Step::Deliver(u, m);
        }
        let deadline = self.message_box.check_deadlines(now);
        match self.message_box.get_difference() {
            Some(req) => {
                return Step::GetDifference(req);
            },
            None => {},
        }
        let ghost mid = self.message_box;
        match self.message_box.get_channel_difference(&self.chat_hashes, now) {
            Some(req) => {
                proof {
                    assert forall|b: BoxId| #[trigger] mid.box_state(b) == self.message_box.box_state(b) by {
                        match b {
                            BoxId::Common => {},
                            BoxId::Channel(x) => {},
                        }
                    }
                }
                Step::GetChannelDifference(req)
            },
            None => Step::Wait(deadline),
        }
    }

    /// Applies a response to the common box's difference request and queues
    /// what it delivered, with the response's chat map. Says whether a
    /// warning about dropped updates is due.
    pub fn on_difference(&mut self, response: Difference, now: u64) -> (warn: bool)
        requires
            old(self).wf(),
        ensures
            final(self).wf(),
            grew(old(self).message_box, final(self).message_box),
            final(self).session == old(self).session,
            exists|out: Seq<RawUpdate>|
                delivered_in_order(old(self).message_box, final(self).message_box, out)
                && out.len() >= difference_messages(response).len()
                && out.take(difference_messages(response).len() as int) == as_updates(difference_messages(response))
                && queued(old(self).updates, final(self).updates, out, difference_users(response), difference_chats(response)),
            match response {
                Difference::Empty(state) => {
                    &&& !final(self).message_box.common.getting_diff
                    &&& final(self).message_box.common.pts >= state.pts
                },
                Difference::Slice(batch) => {
                    &&& final(self).message_box.common.getting_diff == old(self).message_box.common.getting_diff
                    &&& final(self).message_box.common.pts >= batch.state.pts
                },
                Difference::Final(batch) => {
                    &&& !final(self).message_box.common.getting_diff
                    &&& final(self).message_box.common.pts >= batch.state.pts
                },
            },
    {
        let ghost d = response;
        let res = self.message_box.apply_difference(response, &mut self.chat_hashes, now);
        let ghost out = res.updates@;
        let ghost q0 = self.updates;
        proof {
            if d is Empty {
                assert(res.users@ =~= difference_users(d));
                assert(res.chats@ =~= difference_chats(d));
                assert(out.take(0) =~= as_updates(difference_messages(d)));
            }
        }
        let map = Arc::new(ChatMap { users: res.users, chats: res.chats });
        let warn = self.updates.extend(res.updates, map, now);
        proof {
            lemma_queued(q0, self.updates, out, map);
            assert(delivered_in_order(old(self).message_box, self.message_box, out)
                && out.len() >= difference_messages(d).len()
                && out.take(difference_messages(d).len() as int) == as_updates(difference_messages(d))
                && queued(old(self).updates, self.updates, out, difference_users(d), difference_chats(d)));
        }
        warn
    }

    /// Handles the outcome of the channel difference request `req`: a
    /// response is applied and what it delivered is queued; a transient
    /// server failure ends the fetch with the channel's `pts` kept; a ban
    /// removes the channel's box and forgets its access hash, so that later
    /// updates of the channel are dropped as of an unknown peer; any other
    /// failure is returned.
    pub fn on_channel_difference(
        &mut self,
        req: &GetChannelDifference,
        outcome: Result<ChannelDifference, InvocationError>,
        now: u64,
    ) -> (r: Result<bool, InvocationError>)
        requires
            old(self).wf(),
        ensures
            final(self).wf(),
            final(self).session == old(self).session,
            match outcome {
                Ok(resp) => {
                    &&& r is Ok
                    &&& grew(old(self).message_box, final(self).message_box)
                    &&& !old(self).message_box.channels@.contains_key(req.channel_id) ==> {
                        &&& final(self).message_box == old(self).message_box
                        &&& final(self).updates == old(self).updates
                    }
                    &&& old(self).message_box.channels@.contains_key(req.channel_id) ==> {
                        &&& final(self).message_box.channels@[req.channel_id].state.pts >= resp.pts
                        &&& resp.is_final ==> !final(self).message_box.channels@[req.channel_id].state.getting_diff
                        &&& exists|out: Seq<RawUpdate>|
                            delivered_in_order(old(self).message_box, final(self).message_box, out)
                            && out.len() >= resp.new_messages@.len()
                            && out.take(resp.new_messages@.len() as int) == as_updates(resp.new_messages@)
                            && queued(old(self).updates, final(self).updates, out, resp.users@, resp.chats@)
                    }
                },
                Err(e) => match failure_kind(e) {
                    FailureKind::Temporary => {
                        &&& r == Ok::<bool, InvocationError>(false)
                        &&& final(self).updates == old(self).updates
                        &&& forall|b: BoxId| #[trigger] old(self).message_box.box_state(b) is Some
                            ==> final(self).message_box.box_state(b) is Some
                            && final(self).message_box.box_state(b).unwrap().pts == old(self).message_box.box_state(b).unwrap().pts
                    },
                    FailureKind::Banned => {
                        &&& r == Ok::<bool, InvocationError>(false)
                        &&& final(self).updates == old(self).updates
                        &&& final(self).message_box.channels@ == old(self).message_box.channels@.remove(req.channel_id)
                        &&& final(self).message_box.common == old(self).message_box.common
                        &&& final(self).chat_hashes.chats@ == old(self).chat_hashes.chats@.remove(req.channel_id)
                    },
                    FailureKind::Other => {
                        &&& r == Err::<bool, InvocationError>(e)
                        &&& *final(self) == *old(self)
                    },
                },
            },
    {
        match outcome {
            Ok(resp) => {
                let ghost rsp = resp;
                let res = self.message_box.apply_channel_difference(req, resp, &mut self.chat_hashes, now);
                if res.updates.len() == 0 {
                    proof {
                        let out = res.updates@;
                        assert(self.updates.items@.take(self.updates.items@.len() as int) =~= self.updates.items@);
                        if old(self).message_box.channels@.contains_key(req.channel_id) {
                            assert(queued(old(self).updates, self.updates, out, rsp.users@, rsp.chats@));
                            assert(delivered_in_order(old(self).message_box, self.message_box, out));
                        }
                    }
                    return Ok(false);
                }
                let ghost out = res.updates@;
                let ghost q0 = self.updates;
                let map = Arc::new(ChatMap { users: res.users, chats: res.chats });
                let warn = self.updates.extend(res.updates, map, now);
                proof {
                    lemma_queued(q0, self.updates, out, map);
                }
                Ok(warn)
            },
            Err(e) => {
                match classify_failure(&e) {
                    FailureKind::Temporary => {
                        self.message_box.end_channel_difference(req, PrematureEndReason::TemporaryServerIssues, now);
                        Ok(false)
                    },
                    FailureKind::Banned => {
                        self.message_box.end_channel_difference(req, PrematureEndReason::Banned, now);
                        self.chat_hashes.forget_chat(req.channel_id);
                        Ok(false)
                    },
                    FailureKind::Other => Err(e),
                }
            },
        }
    }
}

} // verus!
