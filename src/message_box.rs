//! The per-stream state machines and the router that owns them.
use crate::hashes::PeerHashTable;
use crate::types::{
    BoxId, ChannelDifference, ChannelState, Container, Difference, Gap, PrematureEndReason, UpdateResult, CommonState, GetChannelDifference, GetDifference, PtsInfo, RawUpdate,
    UpdateState,
};
use vstd::hash_map::HashMapWithView;
use vstd::prelude::*;

verus! {

broadcast use vstd::std_specs::hash::group_hash_axioms;

/// Milliseconds without updates after which the common box asks for a difference.
pub const COMMON_TIMEOUT_MS: u64 = 900_000;

/// Milliseconds without updates after which a channel box asks for a difference.
pub const CHANNEL_TIMEOUT_MS: u64 = 600_000;

/// Default milliseconds that updates arriving ahead wait for their predecessors.
pub const POSSIBLE_GAP_MS: u64 = 500;

/// How many events one channel difference request asks for.
pub const CHANNEL_DIFF_LIMIT: i32 = 100;

/// `now + d`, saturating at the largest instant.
pub open spec fn later(now: u64, d: u64) -> u64 {
    if now > u64::MAX - d {
        u64::MAX
    } else {
        (now + d) as u64
    }
}

fn after(now: u64, d: u64) -> (r: u64)
    ensures
        r == later(now, d),
{
    if now > u64::MAX - d {
        u64::MAX
    } else {
        now + d
    }
}

/// The no-update timeout of a box.
pub open spec fn timeout_of(b: BoxId) -> u64 {
    match b {
        BoxId::Common => COMMON_TIMEOUT_MS,
        BoxId::Channel(_) => CHANNEL_TIMEOUT_MS,
    }
}

fn timeout(b: BoxId) -> (r: u64)
    ensures
        r == timeout_of(b),
{
    match b {
        BoxId::Common => COMMON_TIMEOUT_MS,
        BoxId::Channel(_) => CHANNEL_TIMEOUT_MS,
    }
}

/// How an update relates to the `pts` of its box.
#[derive(Clone, Copy, Debug, PartialEq, Eq, Structural)]
pub enum Verdict {
    /// Already applied, or overlapping what was applied: dropped.
    Stale,
    /// Follows the box's `pts` exactly: applied.
    InOrder,
    /// Updates in between are missing: buffered.
    Gap,
}

/// An update bringing a box to `pts` after `count` units is stale when it
/// does not move past `local`, or starts before it; in order when it starts
/// exactly at `local`; and leaves a gap otherwise.
pub open spec fn classify(local: i32, pts: i32, count: i32) -> Verdict {
    if pts <= local || pts - count < local {
        Verdict::Stale
    } else if pts - count == local {
        Verdict::InOrder
    } else {
        Verdict::Gap
    }
}

/// Classifies an update against the `pts` of its box.
pub fn verdict(local: i32, pts: i32, count: i32) -> (r: Verdict)
    ensures
        r == classify(local, pts, count),
{
    let start = pts as i64 - count as i64;
    if pts <= local || start < local as i64 {
        Verdict::Stale
    } else if start == local as i64 {
        Verdict::InOrder
    } else {
        Verdict::Gap
    }
}

/// The state of one stream.
#[derive(Clone, Copy, Debug, PartialEq, Eq, Structural)]
pub struct BoxState {
    /// The last applied `pts`.
    pub pts: i32,
    /// When a difference is fetched even though no gap was seen.
    pub deadline: u64,
    /// A difference request is outstanding; updates are buffered meanwhile.
    pub getting_diff: bool,
    /// Until when updates that arrived ahead wait for their predecessors.
    pub gap_until: Option<u64>,
}

/// The state of one channel's stream, with when it last had a difference
/// requested (for fair selection among channels).
#[derive(Clone, Copy, Debug, PartialEq, Eq, Structural)]
pub struct ChannelBox {
    pub state: BoxState,
    pub last_request: u64,
}

/// The stream an update with `pts` information belongs to.
pub open spec fn box_of(u: RawUpdate) -> BoxId {
    u.pts.unwrap().box_id
}

/// The `pts` an update brings its stream to.
pub open spec fn pts_of(u: RawUpdate) -> i32 {
    u.pts.unwrap().pts
}

/// All streams of one account: the common box, one box per channel, and the
/// updates waiting for a gap to close.
pub struct MessageBox {
    pub common: BoxState,
    pub qts: i32,
    pub seq: i32,
    pub date: i32,
    pub channels: HashMapWithView<i64, ChannelBox>,
    /// The channels that have a box, in the order their boxes were made.
    pub channel_ids: Vec<i64>,
    /// Updates that arrived ahead of their stream, or while it was fetching a difference.
    pub pending: Vec<RawUpdate>,
    /// How long, in milliseconds, updates that arrived ahead wait.
    pub gap_wait: u64,
}

/// How many `pts` units an update with `pts` information consumes.
pub open spec fn count_of(u: RawUpdate) -> i32 {
    u.pts.unwrap().count
}

/// Only stream `b` may differ between the two states; the other streams,
/// the account counters and the settings are untouched.
pub open spec fn same_except(before: MessageBox, after: MessageBox, b: BoxId) -> bool {
    &&& after.qts == before.qts
    &&& after.seq == before.seq
    &&& after.date == before.date
    &&& after.gap_wait == before.gap_wait
    &&& forall|o: BoxId| o != b ==> #[trigger] after.box_state(o) == before.box_state(o)
    &&& forall|id: i64|
        #[trigger] before.channels@.contains_key(id) && BoxId::Channel(id) != b
            ==> after.channels@[id] == before.channels@[id]
    &&& forall|id: i64|
        BoxId::Channel(id) == b && #[trigger] before.channels@.contains_key(id)
            ==> after.channels@[id].last_request == before.channels@[id].last_request
}

/// No buffered update of stream `b` could be applied or dropped now.
pub open spec fn settled(m: MessageBox, b: BoxId) -> bool {
    forall|j: int|
        0 <= j < m.pending@.len() && box_of(#[trigger] m.pending@[j]) == b ==> classify(
            m.box_state(b).unwrap().pts,
            pts_of(m.pending@[j]),
            count_of(m.pending@[j]),
        ) == Verdict::Gap
}

/// When a stream next needs attention: its no-update deadline, or the end of
/// its wait for missing updates if that comes first.
pub open spec fn due(st: BoxState) -> u64 {
    match st.gap_until {
        Some(t) => if t < st.deadline {
            t
        } else {
            st.deadline
        },
        None => st.deadline,
    }
}

/// A stream that is not fetching a difference and whose due time has come.
pub open spec fn expired(st: BoxState, now: u64) -> bool {
    !st.getting_diff && due(st) <= now
}

/// A stream once its due time is checked: an expired one starts fetching a
/// difference, which absorbs its wait for missing updates.
pub open spec fn checked(st: BoxState, now: u64) -> BoxState {
    if expired(st, now) {
        BoxState { getting_diff: true, gap_until: None, ..st }
    } else {
        st
    }
}

/// When the sequencer must look at a stream again: at once if it is fetching a
/// difference, else at its due time.
pub open spec fn wake_at(st: BoxState, now: u64) -> u64 {
    if st.getting_diff {
        now
    } else {
        due(st)
    }
}

/// A channel may have a difference requested: it is fetching one and its
/// access hash is known.
pub open spec fn eligible(m: MessageBox, hashes: PeerHashTable, id: i64) -> bool {
    &&& m.channels@.contains_key(id)
    &&& m.channels@[id].state.getting_diff
    &&& hashes.chats@.contains_key(id)
}

/// Channel `a` comes before channel `b` in the fair order: least recently
/// requested first, then by id.
pub open spec fn comes_first(m: MessageBox, a: i64, b: i64) -> bool {
    let ra = m.channels@[a].last_request;
    let rb = m.channels@[b].last_request;
    ra < rb || (ra == rb && a <= b)
}

/// Whether no two channels in `s` share an id.
pub open spec fn unique_channels(s: Seq<ChannelState>) -> bool {
    forall|i: int, j: int| 0 <= i < j < s.len() ==> (#[trigger] s[i]).id != (#[trigger] s[j]).id
}

/// The persisted state as plain values.
pub open spec fn state_view(s: UpdateState) -> (CommonState, Seq<ChannelState>) {
    (CommonState { pts: s.pts, qts: s.qts, seq: s.seq, date: s.date }, s.channels@)
}

/// Messages of a difference, delivered as updates of no stream.
pub open spec fn as_updates(m: Seq<u64>) -> Seq<RawUpdate> {
    m.map_values(|p: u64| RawUpdate { payload: p, pts: None })
}

/// Update `u` would now be dropped as stale by its stream.
pub open spec fn stale_now(m: MessageBox, u: RawUpdate) -> bool {
    &&& m.box_state(box_of(u)) is Some
    &&& classify(m.box_state(box_of(u)).unwrap().pts, pts_of(u), count_of(u)) == Verdict::Stale
}

/// Update `u` is buffered, and would be buffered again: its stream is
/// fetching a difference, or `u` still leaves a gap.
pub open spec fn held(m: MessageBox, u: RawUpdate) -> bool {
    &&& m.box_state(box_of(u)) is Some
    &&& m.pending@.contains(u)
    &&& (m.box_state(box_of(u)).unwrap().getting_diff || classify(
        m.box_state(box_of(u)).unwrap().pts,
        pts_of(u),
        count_of(u),
    ) == Verdict::Gap)
}

/// Update `u` has been taken in: routing it again would deliver nothing.
pub open spec fn absorbed(m: MessageBox, u: RawUpdate) -> bool {
    &&& u.pts is Some
    &&& (stale_now(m, u) || held(m, u))
}

/// A stale update stays stale while its stream's `pts` grows.
pub proof fn lemma_stale_stays(local: i32, later_local: i32, pts: i32, count: i32)
    requires
        classify(local, pts, count) == Verdict::Stale,
        local <= later_local,
    ensures
        classify(later_local, pts, count) == Verdict::Stale,
{
}

/// The `pts` of stream `b` once the updates of `us` that belong to it are
/// taken as authoritative, starting from `local`.
pub open spec fn running_pts(local: i32, us: Seq<RawUpdate>, b: BoxId) -> i32
    decreases us.len(),
{
    if us.len() == 0 {
        local
    } else {
        let p = running_pts(local, us.drop_last(), b);
        let u = us.last();
        if u.pts is Some && box_of(u) == b && pts_of(u) > p {
            pts_of(u)
        } else {
            p
        }
    }
}

/// Update `k` of `us` belongs to stream `b` and moves past everything of `b`
/// before it, starting from `local`.
pub open spec fn fresh(local: i32, us: Seq<RawUpdate>, b: BoxId, k: int) -> bool {
    &&& us[k].pts is Some
    &&& box_of(us[k]) == b
    &&& pts_of(us[k]) > running_pts(local, us.take(k), b)
}

/// What routing update `u` at `now` does: `before` becomes `after` and
/// `out` is delivered.
pub open spec fn routed(before: MessageBox, u: RawUpdate, now: u64, after: MessageBox, out: Seq<RawUpdate>) -> bool {
    &&& after.wf()
    &&& delivered_in_order(before, after, out)
    &&& grew(before, after)
    &&& after.qts == before.qts
    &&& after.seq == before.seq
    &&& after.date == before.date
    &&& after.gap_wait == before.gap_wait
    &&& u.pts is None ==> out == seq![u] && after == before
    &&& u.pts is Some ==> absorbed(after, u)
    &&& absorbed(before, u) ==> out.len() == 0
    &&& forall|x: RawUpdate| #[trigger] absorbed(before, x) ==> absorbed(after, x)
    &&& u.pts is Some ==> ({
            let b = box_of(u);
            match before.box_state(b) {
                None => {
                    &&& out == seq![u]
                    &&& after.box_state(b) == Some(
                        BoxState {
                            pts: pts_of(u),
                            deadline: later(now, timeout_of(b)),
                            getting_diff: false,
                            gap_until: None,
                        },
                    )
                    &&& same_except(before, after, b)
                    &&& after.pending == before.pending
                },
                Some(st) => if st.getting_diff {
                    &&& out == Seq::<RawUpdate>::empty()
                    &&& after.pending@ == before.pending@.push(u)
                    &&& after.box_state(b) == before.box_state(b)
                    &&& same_except(before, after, b)
                } else {
                    match classify(st.pts, pts_of(u), count_of(u)) {
                        Verdict::Stale => out == Seq::<RawUpdate>::empty() && after == before,
                        Verdict::Gap => {
                            &&& out == Seq::<RawUpdate>::empty()
                            &&& after.pending@ == before.pending@.push(u)
                            &&& after.box_state(b) == Some(
                                BoxState {
                                    gap_until: if st.gap_until is None {
                                        Some(later(now, before.gap_wait))
                                    } else {
                                        st.gap_until
                                    },
                                    ..st
                                },
                            )
                            &&& same_except(before, after, b)
                        },
                        Verdict::InOrder => {
                            &&& out.len() >= 1
                            &&& out[0] == u
                            &&& after.box_state(b).unwrap().pts >= pts_of(u)
                            &&& !after.box_state(b).unwrap().getting_diff
                            &&& same_except(before, after, b)
                            &&& settled(after, b)
                        },
                    }
                },
            }
    })
}

/// Routing each update of `us` in turn takes `s0` through `states`,
/// delivering `outs`.
pub open spec fn routed_all(
    s0: MessageBox,
    us: Seq<RawUpdate>,
    now: u64,
    states: Seq<MessageBox>,
    outs: Seq<Seq<RawUpdate>>,
) -> bool {
    &&& states.len() == us.len() + 1
    &&& outs.len() == us.len()
    &&& states[0] == s0
    &&& forall|k: int| 0 <= k < us.len() ==> #[trigger] routed(states[k], us[k], now, states[k + 1], outs[k])
}

/// Each delivered update of a stream moves past where the stream stood
/// `before`, does not go beyond where it stands `after`, and the updates of
/// one stream come in strictly increasing `pts`.
pub open spec fn delivered_in_order(before: MessageBox, after: MessageBox, out: Seq<RawUpdate>) -> bool {
    &&& forall|i: int|
        0 <= i < out.len() && (#[trigger] out[i]).pts is Some ==> {
            &&& after.box_state(box_of(out[i])) is Some
            &&& pts_of(out[i]) <= after.box_state(box_of(out[i])).unwrap().pts
            &&& before.box_state(box_of(out[i])) is Some ==> before.box_state(
                box_of(out[i]),
            ).unwrap().pts < pts_of(out[i])
        }
    &&& forall|i: int, j: int|
        0 <= i < j < out.len() && (#[trigger] out[i]).pts is Some && (#[trigger] out[j]).pts is Some
            && box_of(out[i]) == box_of(out[j]) ==> pts_of(out[i]) < pts_of(out[j])
}

/// No stream loses its box or moves its `pts` back.
pub open spec fn grew(before: MessageBox, after: MessageBox) -> bool {
    forall|b: BoxId|
        (#[trigger] before.box_state(b)) is Some ==> after.box_state(b) is Some
            && before.box_state(b).unwrap().pts <= after.box_state(b).unwrap().pts
}

/// Changes confined to stream `b`, one after the other, stay confined to it.
pub proof fn lemma_same_except_chain(s0: MessageBox, s1: MessageBox, s2: MessageBox, b: BoxId)
    requires
        same_except(s0, s1, b),
        same_except(s1, s2, b),
        grew(s0, s1),
    ensures
        same_except(s0, s2, b),
{
    assert forall|id: i64|
        #[trigger] s0.channels@.contains_key(id) && BoxId::Channel(id) != b implies s2.channels@[id]
        == s0.channels@[id] by {
        assert(s0.box_state(BoxId::Channel(id)) == s1.box_state(BoxId::Channel(id)));
    }
    assert forall|id: i64|
        BoxId::Channel(id) == b && #[trigger] s0.channels@.contains_key(id) implies s2.channels@[id].last_request
        == s0.channels@[id].last_request by {
        assert(s0.box_state(BoxId::Channel(id)) is Some);
    }
}

/// Deliveries of successive steps, put together, are still in order.
pub proof fn lemma_in_order_chain(
    s0: MessageBox,
    s1: MessageBox,
    s2: MessageBox,
    o1: Seq<RawUpdate>,
    o2: Seq<RawUpdate>,
)
    requires
        delivered_in_order(s0, s1, o1),
        delivered_in_order(s1, s2, o2),
        grew(s0, s1),
        grew(s1, s2),
    ensures
        delivered_in_order(s0, s2, o1 + o2),
        grew(s0, s2),
{
    let o = o1 + o2;
    assert forall|i: int| 0 <= i < o.len() && (#[trigger] o[i]).pts is Some implies {
        &&& s2.box_state(box_of(o[i])) is Some
        &&& pts_of(o[i]) <= s2.box_state(box_of(o[i])).unwrap().pts
        &&& s0.box_state(box_of(o[i])) is Some ==> s0.box_state(box_of(o[i])).unwrap().pts < pts_of(o[i])
    } by {
        if i < o1.len() {
            assert(o[i] == o1[i]);
            assert(s1.box_state(box_of(o[i])) is Some);
        } else {
            assert(o[i] == o2[i - o1.len()]);
            if s0.box_state(box_of(o[i])) is Some {
                assert(s1.box_state(box_of(o[i])) is Some);
            }
        }
    }
    assert forall|i: int, j: int|
        0 <= i < j < o.len() && (#[trigger] o[i]).pts is Some && (#[trigger] o[j]).pts is Some
            && box_of(o[i]) == box_of(o[j]) implies pts_of(o[i]) < pts_of(o[j]) by {
        if j < o1.len() {
            assert(o[i] == o1[i] && o[j] == o1[j]);
        } else if i >= o1.len() {
            assert(o[i] == o2[i - o1.len()] && o[j] == o2[j - o1.len()]);
        } else {
            assert(o[i] == o1[i] && o[j] == o2[j - o1.len()]);
            assert(s1.box_state(box_of(o[i])) is Some);
        }
    }
}

impl MessageBox {
    /// What `session_state` reports: the common counters and each channel's
    /// `pts`, channels in the order their boxes were made.
    pub open spec fn snapshot(&self) -> (CommonState, Seq<ChannelState>) {
        (
            CommonState { pts: self.common.pts, qts: self.qts, seq: self.seq, date: self.date },
            self.channel_ids@.map_values(|id: i64| ChannelState { id, pts: self.channels@[id].state.pts }),
        )
    }

    /// The channel ids list each boxed channel once, and only those; every
    /// buffered update names its stream.
    pub open spec fn wf(&self) -> bool {
        &&& self.channel_ids@.no_duplicates()
        &&& forall|i: int|
            0 <= i < self.channel_ids@.len() ==> self.channels@.contains_key(
                #[trigger] self.channel_ids@[i],
            )
        &&& forall|k: i64| #[trigger]
            self.channels@.contains_key(k) ==> self.channel_ids@.contains(k)
        &&& forall|i: int| 0 <= i < self.pending@.len() ==> (#[trigger] self.pending@[i]).pts is Some
    }

    /// The state of stream `b`, if it has a box.
    pub open spec fn box_state(&self, b: BoxId) -> Option<BoxState> {
        match b {
            BoxId::Common => Some(self.common),
            BoxId::Channel(id) => if self.channels@.contains_key(id) {
                Some(self.channels@[id].state)
            } else {
                None
            },
        }
    }

    fn get_box(&self, b: BoxId) -> (r: Option<BoxState>)
        ensures
            r == self.box_state(b),
    {
        match b {
            BoxId::Common => Some(self.common),
            BoxId::Channel(id) => match self.channels.get(&id) {
                Some(c) => Some(c.state),
                None => None,
            },
        }
    }

    fn set_box(&mut self, b: BoxId, st: BoxState)
        requires
            old(self).wf(),
        ensures
            final(self).wf(),
            final(self).box_state(b) == Some(st),
            forall|o: BoxId| o != b ==> #[trigger] final(self).box_state(o) == old(self).box_state(o),
            final(self).pending == old(self).pending,
            final(self).qts == old(self).qts,
            final(self).seq == old(self).seq,
            final(self).date == old(self).date,
            final(self).gap_wait == old(self).gap_wait,
            forall|id: i64| #[trigger] old(self).channels@.contains_key(id) && BoxId::Channel(id) != b
                ==> final(self).channels@[id] == old(self).channels@[id],
            forall|id: i64| BoxId::Channel(id) == b && #[trigger] old(self).channels@.contains_key(id)
                ==> final(self).channels@[id].last_request == old(self).channels@[id].last_request,
            old(self).box_state(b) is Some ==> final(self).channel_ids == old(self).channel_ids
                && final(self).channels@.dom() == old(self).channels@.dom(),
            forall|id: i64| b == BoxId::Channel(id) && !old(self).channels@.contains_key(id)
                ==> final(self).channel_ids@ == old(self).channel_ids@.push(id),
            b != BoxId::Common ==> final(self).common == old(self).common,
    {
        match b {
            BoxId::Common => {
                self.common = st;
            },
            BoxId::Channel(id) => {
                let last_request = match self.channels.get(&id) {
                    Some(c) => c.last_request,
                    None => {
                        self.channel_ids.push(id);
                        0
                    },
                };
                self.channels.insert(id, ChannelBox { state: st, last_request });
                proof {
                    if old(self).channels@.contains_key(id) {
                        assert(self.channels@.dom() =~= old(self).channels@.dom());
                    }
                    assert forall|k: i64| #[trigger]
                        self.channels@.contains_key(k) implies self.channel_ids@.contains(k) by {
                        if k != id {
                            assert(old(self).channel_ids@.contains(k));
                            let j = choose|j: int| 0 <= j < old(self).channel_ids@.len() && old(self).channel_ids@[j] == k;
                            assert(self.channel_ids@[j] == k);
                        } else {
                            if old(self).channels@.contains_key(id) {
                                assert(old(self).channel_ids@.contains(k));
                                let j = choose|j: int| 0 <= j < old(self).channel_ids@.len() && old(self).channel_ids@[j] == k;
                                assert(self.channel_ids@[j] == k);
                            } else {
                                assert(self.channel_ids@[self.channel_ids@.len() - 1] == k);
                            }
                        }
                    }
                    assert forall|o: BoxId| o != b implies #[trigger] self.box_state(o) == old(self).box_state(o) by {
                        match o {
                            BoxId::Common => {},
                            BoxId::Channel(k) => {},
                        }
                    }
                }
            },
        }
    }

    fn find_ready(&self, b: BoxId, local: i32) -> (r: Option<(usize, Verdict)>)
        requires
            self.wf(),
        ensures
            match r {
                Some((j, v)) => {
                    &&& j < self.pending@.len()
                    &&& box_of(self.pending@[j as int]) == b
                    &&& v == classify(local, pts_of(self.pending@[j as int]), count_of(self.pending@[j as int]))
                    &&& v != Verdict::Gap
                },
                None => forall|j: int|
                    0 <= j < self.pending@.len() && box_of(#[trigger] self.pending@[j]) == b
                        ==> classify(local, pts_of(self.pending@[j]), count_of(self.pending@[j]))
                        == Verdict::Gap,
            },
    {
        let mut j: usize = 0;
        while j < self.pending.len()
            invariant
                self.wf(),
                j <= self.pending@.len(),
                forall|k: int|
                    0 <= k < j && box_of(#[trigger] self.pending@[k]) == b ==> classify(
                        local,
                        pts_of(self.pending@[k]),
                        count_of(self.pending@[k]),
                    ) == Verdict::Gap,
            decreases self.pending@.len() - j,
        {
            let u = self.pending[j];
            assert(self.pending@[j as int].pts is Some);
            let info = u.pts.unwrap();
            if info.box_id == b {
                let v = verdict(local, info.pts, info.count);
                if v != Verdict::Gap {
                    return Some((j, v));
                }
            }
            j = j + 1;
        }
        None
    }

    /// Whether some buffered update belongs to stream `b`.
    fn has_pending(&self, b: BoxId) -> (r: bool)
        requires
            self.wf(),
        ensures
            r == exists|j: int| 0 <= j < self.pending@.len() && box_of(#[trigger] self.pending@[j]) == b,
    {
        let mut j: usize = 0;
        while j < self.pending.len()
            invariant
                self.wf(),
                j <= self.pending@.len(),
                forall|k: int| 0 <= k < j ==> box_of(#[trigger] self.pending@[k]) != b,
            decreases self.pending@.len() - j,
        {
            assert(self.pending@[j as int].pts is Some);
            if self.pending[j].pts.unwrap().box_id == b {
                return true;
            }
            j = j + 1;
        }
        false
    }

    /// Applies the buffered updates of stream `b` that have become in order,
    /// drops those that have become stale, and arms or clears the stream's
    /// wait for missing updates by whether any remain buffered.
    fn flush(&mut self, b: BoxId, now: u64) -> (r: Vec<RawUpdate>)
        requires
            old(self).wf(),
            old(self).box_state(b) is Some,
        ensures
            final(self).wf(),
            delivered_in_order(*old(self), *final(self), r@),
            grew(*old(self), *final(self)),
            same_except(*old(self), *final(self), b),
            final(self).box_state(b).unwrap().getting_diff == old(self).box_state(b).unwrap().getting_diff,
            settled(*final(self), b),
            final(self).pending@.len() <= old(self).pending@.len(),
            forall|i: int| 0 <= i < r@.len() ==> (#[trigger] r@[i]).pts is Some && box_of(r@[i]) == b,
            forall|x: RawUpdate| #[trigger] old(self).pending@.contains(x) ==> final(self).pending@.contains(x) || (box_of(x) == b && stale_now(*final(self), x)),
    {
        let ghost start = *self;
        let mut out: Vec<RawUpdate> = Vec::new();
        loop
            invariant
                self.wf(),
                self.box_state(b) is Some,
                start.box_state(b) is Some,
                delivered_in_order(start, *self, out@),
                grew(start, *self),
                same_except(start, *self, b),
                self.box_state(b).unwrap().getting_diff == start.box_state(b).unwrap().getting_diff,
                self.pending@.len() <= start.pending@.len(),
                forall|i: int| 0 <= i < out@.len() ==> (#[trigger] out@[i]).pts is Some && box_of(out@[i]) == b,
                forall|x: RawUpdate| #[trigger] start.pending@.contains(x) ==> self.pending@.contains(x) || (box_of(x) == b && stale_now(*self, x)),
            ensures
                self.wf(),
                self.box_state(b) is Some,
                start.box_state(b) is Some,
                delivered_in_order(start, *self, out@),
                grew(start, *self),
                same_except(start, *self, b),
                self.box_state(b).unwrap().getting_diff == start.box_state(b).unwrap().getting_diff,
                self.pending@.len() <= start.pending@.len(),
                forall|i: int| 0 <= i < out@.len() ==> (#[trigger] out@[i]).pts is Some && box_of(out@[i]) == b,
                forall|x: RawUpdate| #[trigger] start.pending@.contains(x) ==> self.pending@.contains(x) || (box_of(x) == b && stale_now(*self, x)),
                settled(*self, b),
            decreases self.pending@.len(),
        {
            let st = self.get_box(b).unwrap();
            match self.find_ready(b, st.pts) {
                None => {
                    break;
                },
                Some((j, v)) => {
                    let ghost prev = *self;
                    let u = self.pending.remove(j);
                    assert forall|i: int| 0 <= i < self.pending@.len() implies (#[trigger] self.pending@[i]).pts is Some by {
                        if i < j {
                            assert(self.pending@[i] == prev.pending@[i]);
                        } else {
                            assert(self.pending@[i] == prev.pending@[i + 1]);
                        }
                    }
                    assert(self.box_state(b) == prev.box_state(b));
                    assert(grew(prev, *self));
                    assert forall|x: RawUpdate| prev.pending@.contains(x) && x != u implies self.pending@.contains(x) by {
                        let k = choose|k: int| 0 <= k < prev.pending@.len() && prev.pending@[k] == x;
                        if k < j {
                            assert(self.pending@[k] == x);
                        } else {
                            assert(k != j);
                            assert(self.pending@[k - 1] == x);
                        }
                    }
                    if v == Verdict::InOrder {
                        let ghost mid = *self;
                        let info = u.pts.unwrap();
                        let nst = BoxState {
                            pts: info.pts,
                            deadline: after(now, timeout(b)),
                            getting_diff: st.getting_diff,
                            gap_until: st.gap_until,
                        };
                        self.set_box(b, nst);
                        let one: Vec<RawUpdate> = vec![u];
                        assert(delivered_in_order(mid, *self, one@));
                        assert(grew(mid, *self));
                        proof {
                            lemma_same_except_chain(start, mid, *self, b);
                            lemma_in_order_chain(start, mid, *self, out@, one@);
                        }
                        assert forall|x: RawUpdate| #[trigger] start.pending@.contains(x) implies self.pending@.contains(x) || (box_of(x) == b && stale_now(*self, x)) by {
                            if x == u {
                                assert(stale_now(*self, x));
                            } else if !mid.pending@.contains(x) {
                                lemma_stale_stays(prev.box_state(b).unwrap().pts, self.box_state(b).unwrap().pts, pts_of(x), count_of(x));
                            }
                        }
                        let ghost before_out = out@;
                        out.push(u);
                        assert(out@ =~= before_out + one@);
                        assert forall|i: int| 0 <= i < out@.len() implies (#[trigger] out@[i]).pts is Some && box_of(out@[i]) == b by {
                            if i < out@.len() - 1 {
                                assert(out@[i] == before_out[i]);
                            }
                        }
                    } else {
                        assert forall|x: RawUpdate| #[trigger] start.pending@.contains(x) implies self.pending@.contains(x) || (box_of(x) == b && stale_now(*self, x)) by {
                            if x == u {
                                assert(stale_now(*self, x));
                            }
                        }
                        proof {
                            lemma_same_except_chain(start, prev, *self, b);
                            lemma_in_order_chain(start, prev, *self, out@, Seq::empty());
                            assert(out@ + Seq::<RawUpdate>::empty() =~= out@);
                        }
                    }
                },
            }
        }
        let ghost before_arm = *self;
        let st = self.get_box(b).unwrap();
        let waiting = self.has_pending(b);
        let gap_until = if waiting {
            if st.gap_until.is_none() {
                Some(after(now, self.gap_wait))
            } else {
                st.gap_until
            }
        } else {
            None
        };
        self.set_box(
            b,
            BoxState { pts: st.pts, deadline: st.deadline, getting_diff: st.getting_diff, gap_until },
        );
        assert forall|x: RawUpdate| #[trigger] start.pending@.contains(x) implies self.pending@.contains(x) || (box_of(x) == b && stale_now(*self, x)) by {
            if !self.pending@.contains(x) {
                assert(self.box_state(b).unwrap().pts == before_arm.box_state(b).unwrap().pts);
            }
        }
        proof {
            lemma_same_except_chain(start, before_arm, *self, b);
            lemma_in_order_chain(start, before_arm, *self, out@, Seq::empty());
            assert(out@ + Seq::<RawUpdate>::empty() =~= out@);
        }
        out
    }

    /// Routes one update to its stream and returns what became deliverable.
    ///
    /// An update of no stream is delivered at once. The first update of a
    /// channel without a box makes the box, at the update's `pts`, and is
    /// delivered. While its stream fetches a difference an update is buffered.
    /// Otherwise a stale update is dropped, one that leaves a gap is buffered
    /// (arming the stream's wait if it was not armed), and one in order is
    /// applied, followed by the buffered updates that this puts in order.
    pub fn process_update(&mut self, u: RawUpdate, now: u64) -> (r: Vec<RawUpdate>)
        requires
            old(self).wf(),
        ensures
            routed(*old(self), u, now, *final(self), r@),
    {
        let ghost start = *self;
        let info = match u.pts {
            None => {
                let r = vec![u];
                assert(r@ =~= seq![u]);
                return r;
            },
            Some(info) => info,
        };
        let b = info.box_id;
        let st = match self.get_box(b) {
            None => {
                self.set_box(
                    b,
                    BoxState {
                        pts: info.pts,
                        deadline: after(now, timeout(b)),
                        getting_diff: false,
                        gap_until: None,
                    },
                );
                assert forall|x: RawUpdate| #[trigger] absorbed(start, x) implies absorbed(*self, x) by {
                    assert(box_of(x) != b);
                    assert(self.box_state(box_of(x)) == start.box_state(box_of(x)));
                }
                let r = vec![u];
                assert(r@ =~= seq![u]);
                return r;
            },
            Some(st) => st,
        };
        if st.getting_diff {
            self.pending.push(u);
            assert(self.box_state(b) == start.box_state(b));
            assert forall|o: BoxId| #[trigger] self.box_state(o) == start.box_state(o) by {
                match o {
                    BoxId::Common => {},
                    BoxId::Channel(k) => {},
                }
            }
            assert(self.pending@[self.pending@.len() - 1] == u);
            assert forall|x: RawUpdate| #[trigger] absorbed(start, x) implies absorbed(*self, x) by {
                if start.pending@.contains(x) {
                    let k = choose|k: int| 0 <= k < start.pending@.len() && start.pending@[k] == x;
                    assert(self.pending@[k] == x);
                }
            }
            return Vec::new();
        }
        match verdict(st.pts, info.pts, info.count) {
            Verdict::Stale => Vec::new(),
            Verdict::Gap => {
                self.pending.push(u);
                let gap_until = if st.gap_until.is_none() {
                    Some(after(now, self.gap_wait))
                } else {
                    st.gap_until
                };
                let ghost mid = *self;
                assert forall|o: BoxId| #[trigger] mid.box_state(o) == start.box_state(o) by {
                    match o {
                        BoxId::Common => {},
                        BoxId::Channel(k) => {},
                    }
                }
                assert(mid.pending@[mid.pending@.len() - 1] == u);
                assert forall|x: RawUpdate| start.pending@.contains(x) implies mid.pending@.contains(x) by {
                    let k = choose|k: int| 0 <= k < start.pending@.len() && start.pending@[k] == x;
                    assert(mid.pending@[k] == x);
                }
                self.set_box(
                    b,
                    BoxState {
                        pts: st.pts,
                        deadline: st.deadline,
                        getting_diff: st.getting_diff,
                        gap_until,
                    },
                );
                assert forall|x: RawUpdate| #[trigger] absorbed(start, x) implies absorbed(*self, x) by {
                    if box_of(x) != b {
                        assert(self.box_state(box_of(x)) == start.box_state(box_of(x)));
                    }
                }
                assert(absorbed(*self, u));
                Vec::new()
            },
            Verdict::InOrder => {
                self.set_box(
                    b,
                    BoxState {
                        pts: info.pts,
                        deadline: after(now, timeout(b)),
                        getting_diff: false,
                        gap_until: st.gap_until,
                    },
                );
                let ghost mid = *self;
                let mut out: Vec<RawUpdate> = vec![u];
                assert(delivered_in_order(start, mid, out@));
                let mut rest = self.flush(b, now);
                proof {
                    lemma_in_order_chain(start, mid, *self, out@, rest@);
                    lemma_same_except_chain(start, mid, *self, b);
                }
                assert(stale_now(*self, u));
                assert forall|x: RawUpdate| #[trigger] absorbed(start, x) implies absorbed(*self, x) by {
                    if box_of(x) != b {
                        assert(self.box_state(box_of(x)) == start.box_state(box_of(x)));
                        assert(mid.box_state(box_of(x)) == start.box_state(box_of(x)));
                    } else if stale_now(start, x) {
                        lemma_stale_stays(st.pts, self.box_state(b).unwrap().pts, pts_of(x), count_of(x));
                    }
                }
                let ghost first = out@;
                let ghost second = rest@;
                out.append(&mut rest);
                assert(out@ =~= first + second);
                out
            },
        }
    }

    /// Applies a container from the server.
    ///
    /// A container that signals too many missed updates, or whose `seq_start`
    /// lies past the next expected `seq`, is not applied: the common box starts
    /// fetching a difference and `Gap` is returned. A numbered container whose
    /// `seq_start` was already reached is a duplicate and changes nothing.
    /// Otherwise each update is routed in turn; a numbered container then sets
    /// `seq` and `date`.
    pub fn process_updates(&mut self, c: &Container, now: u64) -> (r: Result<UpdateResult, Gap>)
        requires
            old(self).wf(),
        ensures
            final(self).wf(),
            final(self).qts == old(self).qts,
            c.too_long || (c.seq != 0 && c.seq_start > old(self).seq + 1) ==> {
                &&& r == Err::<UpdateResult, Gap>(Gap)
                &&& final(self).common == BoxState { getting_diff: true, ..old(self).common }
                &&& same_except(*old(self), *final(self), BoxId::Common)
                &&& final(self).pending == old(self).pending
            },
            !c.too_long && c.seq != 0 && c.seq_start <= old(self).seq ==> {
                &&& r is Ok
                &&& r.unwrap().updates@.len() == 0
                &&& *final(self) == *old(self)
            },
            !c.too_long && c.seq == 0 ==> {
                &&& (forall|i: int| 0 <= i < c.updates@.len() ==> (#[trigger] c.updates@[i]).pts is Some)
                    ==> forall|i: int| 0 <= i < c.updates@.len() ==> absorbed(*final(self), #[trigger] c.updates@[i])
                &&& (forall|i: int| 0 <= i < c.updates@.len() ==> absorbed(*old(self), #[trigger] c.updates@[i]))
                    ==> r.unwrap().updates@.len() == 0
            },
            !c.too_long && (c.seq == 0 || c.seq_start == old(self).seq + 1) ==> {
                &&& r is Ok
                &&& delivered_in_order(*old(self), *final(self), r.unwrap().updates@)
                &&& grew(*old(self), *final(self))
                &&& r.unwrap().users@ == c.users@
                &&& r.unwrap().chats@ == c.chats@
                &&& exists|states: Seq<MessageBox>, outs: Seq<Seq<RawUpdate>>| {
                    &&& #[trigger] routed_all(*old(self), c.updates@, now, states, outs)
                    &&& r.unwrap().updates@ == outs.flatten()
                    &&& *final(self) == if c.seq != 0 {
                        MessageBox { seq: c.seq, date: c.date, ..states.last() }
                    } else {
                        states.last()
                    }
                }
                &&& final(self).seq == (if c.seq != 0 { c.seq } else { old(self).seq })
                &&& final(self).date == (if c.seq != 0 { c.date } else { old(self).date })
            },
    {
        if c.too_long || (c.seq != 0 && c.seq_start as i64 > self.seq as i64 + 1) {
            let st = self.common;
            self.set_box(
                BoxId::Common,
                BoxState {
                    pts: st.pts,
                    deadline: st.deadline,
                    getting_diff: true,
                    gap_until: st.gap_until,
                },
            );
            return Err(Gap);
        }
        if c.seq != 0 && c.seq_start as i64 <= self.seq as i64 {
            return Ok(UpdateResult { updates: Vec::new(), users: Vec::new(), chats: Vec::new() });
        }
        let ghost start = *self;
        let ghost all_in = forall|k: int| 0 <= k < c.updates@.len() ==> absorbed(start, #[trigger] c.updates@[k]);
        let ghost mut states: Seq<MessageBox> = seq![start];
        let ghost mut outs: Seq<Seq<RawUpdate>> = Seq::empty();
        let mut out: Vec<RawUpdate> = Vec::new();
        let mut i: usize = 0;
        while i < c.updates.len()
            invariant
                self.wf(),
                i <= c.updates@.len(),
                routed_all(start, c.updates@.take(i as int), now, states, outs),
                states.last() == *self,
                out@ == outs.flatten(),
                forall|k: int| 0 <= k < i && (#[trigger] c.updates@[k]).pts is Some ==> absorbed(*self, c.updates@[k]),
                all_in ==> out@.len() == 0,
                all_in ==> forall|k: int| 0 <= k < c.updates@.len() ==> absorbed(*self, #[trigger] c.updates@[k]),
                all_in == forall|k: int| 0 <= k < c.updates@.len() ==> absorbed(start, #[trigger] c.updates@[k]),
                delivered_in_order(start, *self, out@),
                grew(start, *self),
                self.qts == start.qts,
                self.seq == start.seq,
                self.date == start.date,
                self.gap_wait == start.gap_wait,
            decreases c.updates@.len() - i,
        {
            let ghost prev = *self;
            let mut got = self.process_update(c.updates[i], now);
            proof {
                lemma_in_order_chain(start, prev, *self, out@, got@);
                if all_in {
                    assert(absorbed(prev, c.updates@[i as int]));
                }
            }
            let ghost first = out@;
            let ghost second = got@;
            proof {
                outs.lemma_flatten_push(second);
                states = states.push(*self);
                outs = outs.push(second);
                assert forall|k: int| 0 <= k < i + 1 implies #[trigger] routed(
                    states[k],
                    c.updates@.take(i + 1)[k],
                    now,
                    states[k + 1],
                    outs[k],
                ) by {
                    assert(c.updates@.take(i + 1)[k] == c.updates@[k]);
                    if k < i {
                        assert(states[k] == states.drop_last()[k]);
                        assert(states[k + 1] == states.drop_last()[k + 1]);
                        assert(outs[k] == outs.drop_last()[k]);
                        assert(c.updates@.take(i as int)[k] == c.updates@[k]);
                    }
                }
            }
            out.append(&mut got);
            assert(out@ =~= first + second);
            i = i + 1;
        }
        assert(c.updates@.take(c.updates@.len() as int) =~= c.updates@);
        if c.seq != 0 {
            let ghost prev = *self;
            self.seq = c.seq;
            self.date = c.date;
            assert forall|o: BoxId| #[trigger] self.box_state(o) == prev.box_state(o) by {
                match o {
                    BoxId::Common => {},
                    BoxId::Channel(k) => {},
                }
            }
            assert(delivered_in_order(start, *self, out@));
        }
        Ok(UpdateResult { updates: out, users: c.users.clone(), chats: c.chats.clone() })
    }

    fn due_of(st: BoxState) -> (r: u64)
        ensures
            r == due(st),
    {
        match st.gap_until {
            Some(t) => if t < st.deadline {
                t
            } else {
                st.deadline
            },
            None => st.deadline,
        }
    }

    fn check_box(&mut self, b: BoxId, now: u64) -> (r: u64)
        requires
            old(self).wf(),
            old(self).box_state(b) is Some,
        ensures
            final(self).wf(),
            final(self).box_state(b) == Some(checked(old(self).box_state(b).unwrap(), now)),
            r == wake_at(checked(old(self).box_state(b).unwrap(), now), now),
            same_except(*old(self), *final(self), b),
            final(self).pending == old(self).pending,
            final(self).channel_ids == old(self).channel_ids,
            old(self).channels@.dom() == final(self).channels@.dom(),
            b != BoxId::Common ==> final(self).common == old(self).common,
    {
        let st = self.get_box(b).unwrap();
        let d = Self::due_of(st);
        if !st.getting_diff && d <= now {
            self.set_box(
                b,
                BoxState { pts: st.pts, deadline: st.deadline, getting_diff: true, gap_until: None },
            );
            now
        } else if st.getting_diff {
            now
        } else {
            d
        }
    }

    /// Starts a difference for every stream whose due time has come, and
    /// returns the earliest instant at which some stream needs attention
    /// (`now` when one is fetching a difference).
    pub fn check_deadlines(&mut self, now: u64) -> (r: u64)
        requires
            old(self).wf(),
        ensures
            final(self).wf(),
            forall|b: BoxId| #[trigger] old(self).box_state(b) is Some
                ==> final(self).box_state(b) == Some(checked(old(self).box_state(b).unwrap(), now)),
            forall|b: BoxId| #[trigger] old(self).box_state(b) is None ==> final(self).box_state(b) is None,
            forall|b: BoxId| #[trigger] final(self).box_state(b) is Some
                ==> r <= wake_at(final(self).box_state(b).unwrap(), now),
            exists|b: BoxId| #[trigger] final(self).box_state(b) is Some
                && r == wake_at(final(self).box_state(b).unwrap(), now),
            final(self).pending == old(self).pending,
            final(self).channel_ids == old(self).channel_ids,
            final(self).qts == old(self).qts,
            final(self).seq == old(self).seq,
            final(self).date == old(self).date,
            final(self).gap_wait == old(self).gap_wait,
            forall|id: i64| #[trigger] old(self).channels@.contains_key(id)
                ==> final(self).channels@[id].last_request == old(self).channels@[id].last_request,
    {
        let ghost start = *self;
        let mut best = self.check_box(BoxId::Common, now);
        let ghost best_box = BoxId::Common;
        let mut i: usize = 0;
        while i < self.channel_ids.len()
            invariant
                self.wf(),
                i <= self.channel_ids@.len(),
                self.channel_ids == start.channel_ids,
                self.channels@.dom() == start.channels@.dom(),
                self.pending == start.pending,
                self.qts == start.qts,
                self.seq == start.seq,
                self.date == start.date,
                self.gap_wait == start.gap_wait,
                self.common == checked(start.common, now),
                forall|id: i64| #[trigger] start.channels@.contains_key(id) ==> {
                    &&& self.channels@[id].last_request == start.channels@[id].last_request
                    &&& self.channels@[id].state == if self.channel_ids@.take(i as int).contains(id) {
                        checked(start.channels@[id].state, now)
                    } else {
                        start.channels@[id].state
                    }
                },
                best <= wake_at(self.common, now),
                forall|k: int| 0 <= k < i ==> best <= wake_at(
                    #[trigger] self.channels@[self.channel_ids@[k]].state,
                    now,
                ),
                self.box_state(best_box) is Some,
                best == wake_at(self.box_state(best_box).unwrap(), now),
                match best_box {
                    BoxId::Common => true,
                    BoxId::Channel(x) => self.channel_ids@.take(i as int).contains(x),
                },
            decreases self.channel_ids@.len() - i,
        {
            let id = self.channel_ids[i];
            let ghost prev = *self;
            assert(self.channels@.contains_key(id));
            assert(!self.channel_ids@.take(i as int).contains(id)) by {
                if self.channel_ids@.take(i as int).contains(id) {
                    let k = choose|k: int| 0 <= k < i && self.channel_ids@.take(i as int)[k] == id;
                    assert(self.channel_ids@[k] == self.channel_ids@[i as int]);
                }
            }
            let w = self.check_box(BoxId::Channel(id), now);
            assert forall|id2: i64| #[trigger] start.channels@.contains_key(id2) implies {
                &&& self.channels@[id2].last_request == start.channels@[id2].last_request
                &&& self.channels@[id2].state == if self.channel_ids@.take(i + 1).contains(id2) {
                    checked(start.channels@[id2].state, now)
                } else {
                    start.channels@[id2].state
                }
            } by {
                assert(self.channel_ids@.take(i + 1) == self.channel_ids@.take(i as int).push(id));
                if id2 != id {
                    assert(prev.box_state(BoxId::Channel(id2)) == self.box_state(BoxId::Channel(id2)));
                    assert(self.channel_ids@.take(i as int).push(id).contains(id2)
                        == self.channel_ids@.take(i as int).contains(id2));
                } else {
                    assert(self.channel_ids@.take(i as int).push(id)[i as int] == id);
                }
            }
            assert forall|k: int| 0 <= k < i implies best <= wake_at(
                #[trigger] self.channels@[self.channel_ids@[k]].state,
                now,
            ) by {
                let idk = self.channel_ids@[k];
                assert(idk != id);
                assert(prev.box_state(BoxId::Channel(idk)) == self.box_state(BoxId::Channel(idk)));
            }
            proof {
                if best_box != BoxId::Channel(id) {
                    assert(prev.box_state(best_box) == self.box_state(best_box));
                } else {
                    assert(false);
                }
            }
            assert(self.channel_ids@.take(i + 1) == self.channel_ids@.take(i as int).push(id));
            assert(self.channel_ids@.take(i as int).push(id)[i as int] == id);
            proof {
                match best_box {
                    BoxId::Common => {},
                    BoxId::Channel(x) => {
                        let k = choose|k: int| 0 <= k < i && self.channel_ids@.take(i as int)[k] == x;
                        assert(self.channel_ids@.take(i + 1)[k] == x);
                    },
                }
            }
            if w < best {
                best = w;
                proof {
                    best_box = BoxId::Channel(id);
                }
            }
            i = i + 1;
        }
        proof {
            assert(self.channel_ids@.take(self.channel_ids@.len() as int) == self.channel_ids@);
            assert forall|b: BoxId| #[trigger] start.box_state(b) is Some implies self.box_state(b)
                == Some(checked(start.box_state(b).unwrap(), now)) by {
                match b {
                    BoxId::Common => {},
                    BoxId::Channel(x) => {},
                }
            }
            assert forall|b: BoxId| #[trigger] self.box_state(b) is Some implies best <= wake_at(
                self.box_state(b).unwrap(),
                now,
            ) by {
                match b {
                    BoxId::Common => {},
                    BoxId::Channel(x) => {
                        assert(self.channel_ids@.contains(x));
                        let k = choose|k: int| 0 <= k < self.channel_ids@.len() && #[trigger] self.channel_ids@[k] == x;
                    },
                }
            }
        }
        best
    }

    /// A message box with no channels and every counter at zero.
    pub fn new(now: u64) -> (r: Self)
        ensures
            r.wf(),
            r.snapshot() == (CommonState { pts: 0, qts: 0, seq: 0, date: 0 }, Seq::<ChannelState>::empty()),
            r.common == (BoxState { pts: 0, deadline: later(now, COMMON_TIMEOUT_MS), getting_diff: false, gap_until: None }),
            r.pending@.len() == 0,
            r.gap_wait == POSSIBLE_GAP_MS,
    {
        let r = MessageBox {
            common: BoxState { pts: 0, deadline: after(now, COMMON_TIMEOUT_MS), getting_diff: false, gap_until: None },
            qts: 0,
            seq: 0,
            date: 0,
            channels: HashMapWithView::new(),
            channel_ids: Vec::new(),
            pending: Vec::new(),
            gap_wait: POSSIBLE_GAP_MS,
        };
        assert(r.snapshot().1 =~= Seq::<ChannelState>::empty());
        r
    }

    /// A message box restored from a persisted state. With `catch_up`, every
    /// stream starts by fetching what was missed while offline.
    pub fn load(state: &UpdateState, now: u64, catch_up: bool) -> (r: Self)
        ensures
            r.wf(),
            unique_channels(state.channels@) ==> r.snapshot() == state_view(*state),
            forall|b: BoxId| #[trigger] r.box_state(b) is Some ==> r.box_state(b).unwrap().getting_diff == catch_up,
            r.pending@.len() == 0,
    {
        let mut r = Self::new(now);
        r.set_state(state, now);
        if catch_up {
            let ghost before = r;
            r.common.getting_diff = true;
            let mut i: usize = 0;
            while i < r.channel_ids.len()
                invariant
                    r.wf(),
                    i <= r.channel_ids@.len(),
                    r.channel_ids == before.channel_ids,
                    r.channels@.dom() == before.channels@.dom(),
                    r.pending == before.pending,
                    r.common == (BoxState { getting_diff: true, ..before.common }),
                    r.qts == before.qts,
                    r.seq == before.seq,
                    r.date == before.date,
                    forall|id: i64| #[trigger] r.channels@.contains_key(id) ==> {
                        &&& r.channels@[id].state.pts == before.channels@[id].state.pts
                        &&& (r.channel_ids@.take(i as int).contains(id) ==> r.channels@[id].state.getting_diff)
                        &&& (!r.channel_ids@.take(i as int).contains(id) ==> r.channels@[id].state.getting_diff == before.channels@[id].state.getting_diff)
                    },
                    forall|b: BoxId| #[trigger] before.box_state(b) is Some ==> !before.box_state(b).unwrap().getting_diff,
                decreases r.channel_ids@.len() - i,
            {
                let id = r.channel_ids[i];
                let ghost prev = r;
                let st = r.get_box(BoxId::Channel(id)).unwrap();
                r.set_box(BoxId::Channel(id), BoxState { getting_diff: true, ..st });
                assert forall|id2: i64| #[trigger] r.channels@.contains_key(id2) implies {
                    &&& r.channels@[id2].state.pts == before.channels@[id2].state.pts
                    &&& (r.channel_ids@.take(i + 1).contains(id2) ==> r.channels@[id2].state.getting_diff)
                    &&& (!r.channel_ids@.take(i + 1).contains(id2) ==> r.channels@[id2].state.getting_diff == before.channels@[id2].state.getting_diff)
                } by {
                    assert(r.channel_ids@.take(i + 1) == r.channel_ids@.take(i as int).push(id));
                    assert(r.channel_ids@.take(i as int).push(id)[i as int] == id);
                    if id2 != id {
                        assert(prev.box_state(BoxId::Channel(id2)) == r.box_state(BoxId::Channel(id2)));
                        assert(r.channel_ids@.take(i as int).push(id).contains(id2)
                            == r.channel_ids@.take(i as int).contains(id2));
                    }
                }
                i = i + 1;
            }
            proof {
                assert(r.channel_ids@.take(r.channel_ids@.len() as int) == r.channel_ids@);
                assert(r.snapshot() == before.snapshot()) by {
                    assert(r.snapshot().1 =~= before.snapshot().1);
                }
                assert forall|b: BoxId| #[trigger] r.box_state(b) is Some implies r.box_state(b).unwrap().getting_diff == catch_up by {
                    match b {
                        BoxId::Common => {},
                        BoxId::Channel(x) => {},
                    }
                }
            }
        } else {
            assert forall|b: BoxId| #[trigger] r.box_state(b) is Some implies r.box_state(b).unwrap().getting_diff == catch_up by {
                match b {
                    BoxId::Common => {},
                    BoxId::Channel(x) => {},
                }
            }
        }
        r
    }

    /// Replaces the whole state by a persisted one: every channel listed gets
    /// a box at its stored `pts` (a later entry for the same channel wins),
    /// nothing is buffered and no stream is fetching a difference.
    pub fn set_state(&mut self, state: &UpdateState, now: u64)
        requires
            old(self).wf(),
        ensures
            final(self).wf(),
            unique_channels(state.channels@) ==> final(self).snapshot() == state_view(*state),
            forall|b: BoxId| #[trigger] final(self).box_state(b) is Some ==> !final(self).box_state(b).unwrap().getting_diff,
            forall|i: int| 0 <= i < state.channels@.len() ==> final(self).channels@.contains_key(#[trigger] state.channels@[i].id),
            final(self).pending@.len() == 0,
            final(self).gap_wait == old(self).gap_wait,
    {
        self.common = BoxState { pts: state.pts, deadline: after(now, COMMON_TIMEOUT_MS), getting_diff: false, gap_until: None };
        self.qts = state.qts;
        self.seq = state.seq;
        self.date = state.date;
        self.channels = HashMapWithView::new();
        self.channel_ids = Vec::new();
        self.pending = Vec::new();
        let deadline = after(now, CHANNEL_TIMEOUT_MS);
        let mut i: usize = 0;
        while i < state.channels.len()
            invariant
                self.wf(),
                i <= state.channels@.len(),
                self.common.pts == state.pts,
                self.common.getting_diff == false,
                self.qts == state.qts,
                self.seq == state.seq,
                self.date == state.date,
                self.pending@.len() == 0,
                self.gap_wait == old(self).gap_wait,
                forall|id: i64| #[trigger] self.channels@.contains_key(id) ==> !self.channels@[id].state.getting_diff,
                forall|k: int| 0 <= k < i ==> self.channels@.contains_key(#[trigger] state.channels@[k].id),
                unique_channels(state.channels@) ==> self.snapshot().1 == state.channels@.take(i as int),
            decreases state.channels@.len() - i,
        {
            let ch = state.channels[i];
            let ghost prev = *self;
            self.set_box(
                BoxId::Channel(ch.id),
                BoxState { pts: ch.pts, deadline, getting_diff: false, gap_until: None },
            );
            assert forall|id: i64| #[trigger] self.channels@.contains_key(id) implies !self.channels@[id].state.getting_diff by {
                if id != ch.id {
                    assert(prev.box_state(BoxId::Channel(id)) == self.box_state(BoxId::Channel(id)));
                } else {
                    assert(self.box_state(BoxId::Channel(id)) is Some);
                }
            }
            assert forall|k: int| 0 <= k < i + 1 implies self.channels@.contains_key(#[trigger] state.channels@[k].id) by {
                if k < i && state.channels@[k].id != ch.id {
                    assert(prev.box_state(BoxId::Channel(state.channels@[k].id)) == self.box_state(BoxId::Channel(state.channels@[k].id)));
                } else {
                    assert(self.box_state(BoxId::Channel(ch.id)) is Some);
                }
            }
            proof {
                if unique_channels(state.channels@) {
                    assert(!prev.channels@.contains_key(ch.id)) by {
                        if prev.channels@.contains_key(ch.id) {
                            assert(prev.channel_ids@.contains(ch.id));
                            let j = choose|j: int| 0 <= j < prev.channel_ids@.len() && prev.channel_ids@[j] == ch.id;
                            assert(prev.snapshot().1[j].id == ch.id);
                            assert(state.channels@.take(i as int)[j] == state.channels@[j]);
                        }
                    }
                    assert(self.channel_ids@ == prev.channel_ids@.push(ch.id));
                    assert(self.snapshot().1 =~= state.channels@.take(i + 1)) by {
                        assert forall|k: int| 0 <= k < self.channel_ids@.len() implies self.snapshot().1[k] == state.channels@.take(i + 1)[k] by {
                            if k < i {
                                let idk = self.channel_ids@[k];
                                assert(prev.snapshot().1[k] == state.channels@[k]);
                                assert(idk != ch.id);
                                assert(prev.box_state(BoxId::Channel(idk)) == self.box_state(BoxId::Channel(idk)));
                            }
                        }
                    }
                }
            }
            i = i + 1;
        }
        proof {
            assert(state.channels@.take(state.channels@.len() as int) == state.channels@);
            assert forall|b: BoxId| #[trigger] self.box_state(b) is Some implies !self.box_state(b).unwrap().getting_diff by {
                match b {
                    BoxId::Common => {},
                    BoxId::Channel(x) => {},
                }
            }
        }
    }

    /// The state to persist: the common counters and each channel's `pts`.
    pub fn session_state(&self) -> (r: UpdateState)
        requires
            self.wf(),
        ensures
            state_view(r) == self.snapshot(),
    {
        let mut channels: Vec<ChannelState> = Vec::new();
        let mut i: usize = 0;
        while i < self.channel_ids.len()
            invariant
                self.wf(),
                i <= self.channel_ids@.len(),
                channels@ == self.snapshot().1.take(i as int),
            decreases self.channel_ids@.len() - i,
        {
            let id = self.channel_ids[i];
            assert(self.channels@.contains_key(id));
            let st = self.get_box(BoxId::Channel(id)).unwrap();
            channels.push(ChannelState { id, pts: st.pts });
            assert(channels@ =~= self.snapshot().1.take(i + 1));
            i = i + 1;
        }
        assert(channels@ =~= self.snapshot().1);
        UpdateState { pts: self.common.pts, qts: self.qts, seq: self.seq, date: self.date, channels }
    }

    /// The request for the common box's missed events, while it is fetching a
    /// difference.
    pub fn get_difference(&self) -> (r: Option<GetDifference>)
        ensures
            r == (if self.common.getting_diff {
                Some(GetDifference { pts: self.common.pts, qts: self.qts, date: self.date })
            } else {
                None
            }),
    {
        if self.common.getting_diff {
            Some(GetDifference { pts: self.common.pts, qts: self.qts, date: self.date })
        } else {
            None
        }
    }

    /// Picks, among the channels fetching a difference whose access hash is
    /// known, the one least recently requested (ties by lowest id), records
    /// `now` as its request time and returns its request.
    pub fn get_channel_difference(&mut self, hashes: &PeerHashTable, now: u64) -> (r: Option<
        GetChannelDifference,
    >)
        requires
            old(self).wf(),
        ensures
            final(self).wf(),
            match r {
                None => {
                    &&& *final(self) == *old(self)
                    &&& forall|id: i64| !eligible(*old(self), *hashes, id)
                },
                Some(req) => {
                    &&& eligible(*old(self), *hashes, req.channel_id)
                    &&& forall|id: i64| #[trigger] eligible(*old(self), *hashes, id)
                        ==> comes_first(*old(self), req.channel_id, id)
                    &&& req == GetChannelDifference {
                        channel_id: req.channel_id,
                        access_hash: hashes.chats@[req.channel_id].hash,
                        pts: old(self).channels@[req.channel_id].state.pts,
                        limit: CHANNEL_DIFF_LIMIT,
                    }
                    &&& final(self).channels@ == old(self).channels@.insert(
                        req.channel_id,
                        ChannelBox { last_request: now, ..old(self).channels@[req.channel_id] },
                    )
                    &&& final(self).channel_ids == old(self).channel_ids
                    &&& final(self).common == old(self).common
                    &&& final(self).pending == old(self).pending
                    &&& final(self).qts == old(self).qts
                    &&& final(self).seq == old(self).seq
                    &&& final(self).date == old(self).date
                    &&& final(self).gap_wait == old(self).gap_wait
                },
            },
    {
        let mut pick: Option<(i64, ChannelBox, i64)> = None;
        let mut i: usize = 0;
        while i < self.channel_ids.len()
            invariant
                self.wf(),
                i <= self.channel_ids@.len(),
                match pick {
                    None => forall|k: int| 0 <= k < i ==> !eligible(*self, *hashes, #[trigger] self.channel_ids@[k]),
                    Some((id, c, h)) => {
                        &&& eligible(*self, *hashes, id)
                        &&& c == self.channels@[id]
                        &&& h == hashes.chats@[id].hash
                        &&& forall|k: int| 0 <= k < i && eligible(*self, *hashes, #[trigger] self.channel_ids@[k])
                            ==> comes_first(*self, id, self.channel_ids@[k])
                    },
                },
            decreases self.channel_ids@.len() - i,
        {
            let id = self.channel_ids[i];
            assert(self.channels@.contains_key(id));
            let c = *self.channels.get(&id).unwrap();
            if c.state.getting_diff {
                match hashes.get_chat(id) {
                    Some(h) => {
                        let better = match pick {
                            None => true,
                            Some((pid, pc, _)) => c.last_request < pc.last_request || (c.last_request
                                == pc.last_request && id < pid),
                        };
                        if better {
                            pick = Some((id, c, h.hash));
                        }
                    },
                    None => {},
                }
            }
            i = i + 1;
        }
        match pick {
            None => {
                assert forall|id: i64| !eligible(*self, *hashes, id) by {
                    if eligible(*self, *hashes, id) {
                        assert(self.channel_ids@.contains(id));
                        let k = choose|k: int| 0 <= k < self.channel_ids@.len() && self.channel_ids@[k] == id;
                    }
                }
                None
            },
            Some((id, c, h)) => {
                assert forall|id2: i64| #[trigger] eligible(*self, *hashes, id2) implies comes_first(*self, id, id2) by {
                    assert(self.channel_ids@.contains(id2));
                    let k = choose|k: int| 0 <= k < self.channel_ids@.len() && self.channel_ids@[k] == id2;
                }
                let ghost start = *self;
                self.channels.insert(id, ChannelBox { state: c.state, last_request: now });
                assert(self.channels@.dom() =~= start.channels@.dom());
                Some(GetChannelDifference { channel_id: id, access_hash: h, pts: c.state.pts, limit: CHANNEL_DIFF_LIMIT })
            },
        }
    }

    /// Ends the outstanding difference of the channel that `req` asked for,
    /// without applying a response. On temporary server issues the stream's
    /// `pts` stays, its timeout restarts and its wait for missing updates is
    /// armed if updates are buffered; on a ban the channel's box and its
    /// buffered updates are removed.
    pub fn end_channel_difference(&mut self, req: &GetChannelDifference, reason: PrematureEndReason, now: u64)
        requires
            old(self).wf(),
        ensures
            final(self).wf(),
            final(self).common == old(self).common,
            final(self).qts == old(self).qts,
            final(self).seq == old(self).seq,
            final(self).date == old(self).date,
            final(self).gap_wait == old(self).gap_wait,
            forall|b: BoxId| b != BoxId::Channel(req.channel_id) ==> #[trigger] final(self).box_state(b) == old(self).box_state(b),
            forall|id: i64| id != req.channel_id && #[trigger] old(self).channels@.contains_key(id)
                ==> final(self).channels@[id] == old(self).channels@[id],
            reason == PrematureEndReason::Banned ==> {
                &&& final(self).channels@ == old(self).channels@.remove(req.channel_id)
                &&& forall|j: int| 0 <= j < final(self).pending@.len() ==> box_of(#[trigger] final(self).pending@[j]) != BoxId::Channel(req.channel_id)
            },
            reason == PrematureEndReason::TemporaryServerIssues ==> {
                &&& final(self).channels@.dom() == old(self).channels@.dom()
                &&& final(self).pending == old(self).pending
                &&& forall|b: BoxId| #[trigger] old(self).box_state(b) is Some ==> final(self).box_state(b).unwrap().pts == old(self).box_state(b).unwrap().pts
                &&& old(self).channels@.contains_key(req.channel_id) ==> {
                    let st = final(self).channels@[req.channel_id].state;
                    &&& !st.getting_diff
                    &&& st.deadline == later(now, CHANNEL_TIMEOUT_MS)
                }
            },
    {
        let id = req.channel_id;
        let b = BoxId::Channel(id);
        match reason {
            PrematureEndReason::TemporaryServerIssues => {
                match self.get_box(b) {
                    None => {},
                    Some(st) => {
                        let waiting = self.has_pending(b);
                        let gap_until = if waiting {
                            Some(after(now, self.gap_wait))
                        } else {
                            None
                        };
                        self.set_box(
                            b,
                            BoxState { pts: st.pts, deadline: after(now, CHANNEL_TIMEOUT_MS), getting_diff: false, gap_until },
                        );
                        assert forall|o: BoxId| #[trigger] old(self).box_state(o) is Some implies self.box_state(o).unwrap().pts == old(self).box_state(o).unwrap().pts by {
                            if o != b {
                                assert(self.box_state(o) == old(self).box_state(o));
                            }
                        }
                    },
                }
            },
            PrematureEndReason::Banned => {
                self.remove_channel(id);
            },
        }
    }

    fn remove_channel(&mut self, id: i64)
        requires
            old(self).wf(),
        ensures
            final(self).wf(),
            final(self).common == old(self).common,
            final(self).qts == old(self).qts,
            final(self).seq == old(self).seq,
            final(self).date == old(self).date,
            final(self).gap_wait == old(self).gap_wait,
            final(self).channels@ == old(self).channels@.remove(id),
            forall|j: int| 0 <= j < final(self).pending@.len() ==> box_of(#[trigger] final(self).pending@[j]) != BoxId::Channel(id),
            forall|b: BoxId| b != BoxId::Channel(id) ==> #[trigger] final(self).box_state(b) == old(self).box_state(b),
    {
        let ghost start = *self;
        self.channels.remove(&id);
        let mut ids: Vec<i64> = Vec::new();
        let mut i: usize = 0;
        while i < self.channel_ids.len()
            invariant
                i <= self.channel_ids@.len(),
                self.channel_ids == start.channel_ids,
                start.wf(),
                ids@.no_duplicates(),
                forall|k: int| 0 <= k < ids@.len() ==> (#[trigger] ids@[k]) != id && start.channel_ids@.take(i as int).contains(ids@[k]),
                forall|k: int| 0 <= k < i && (#[trigger] start.channel_ids@[k]) != id ==> ids@.contains(start.channel_ids@[k]),
            decreases self.channel_ids@.len() - i,
        {
            let x = self.channel_ids[i];
            assert(start.channel_ids@.take(i + 1) == start.channel_ids@.take(i as int).push(x));
            assert(start.channel_ids@.take(i as int).push(x)[i as int] == x);
            if x != id {
                assert(!ids@.contains(x)) by {
                    if ids@.contains(x) {
                        let k = choose|k: int| 0 <= k < ids@.len() && ids@[k] == x;
                        assert(start.channel_ids@.take(i as int).contains(x));
                        let m = choose|m: int| 0 <= m < i && start.channel_ids@.take(i as int)[m] == x;
                        assert(start.channel_ids@[m] == start.channel_ids@[i as int]);
                    }
                }
                let ghost before = ids@;
                ids.push(x);
                assert forall|k: int| 0 <= k < ids@.len() implies (#[trigger] ids@[k]) != id && start.channel_ids@.take(i + 1).contains(ids@[k]) by {
                    if k < before.len() {
                        assert(ids@[k] == before[k]);
                        let m = choose|m: int| 0 <= m < i && start.channel_ids@.take(i as int)[m] == ids@[k];
                        assert(start.channel_ids@.take(i + 1)[m] == ids@[k]);
                    }
                }
                assert forall|k: int| 0 <= k < i + 1 && (#[trigger] start.channel_ids@[k]) != id implies ids@.contains(start.channel_ids@[k]) by {
                    if k < i {
                        let m = choose|m: int| 0 <= m < before.len() && before[m] == start.channel_ids@[k];
                        assert(ids@[m] == before[m]);
                    } else {
                        assert(ids@[ids@.len() - 1] == x);
                    }
                }
            } else {
                assert forall|k: int| 0 <= k < ids@.len() implies (#[trigger] ids@[k]) != id && start.channel_ids@.take(i + 1).contains(ids@[k]) by {
                    let m = choose|m: int| 0 <= m < i && start.channel_ids@.take(i as int)[m] == ids@[k];
                    assert(start.channel_ids@.take(i + 1)[m] == ids@[k]);
                }
            }
            i = i + 1;
        }
        self.channel_ids = ids;
        let mut kept: Vec<RawUpdate> = Vec::new();
        let mut j: usize = 0;
        while j < self.pending.len()
            invariant
                j <= self.pending@.len(),
                self.pending == start.pending,
                start.wf(),
                forall|k: int| 0 <= k < kept@.len() ==> (#[trigger] kept@[k]).pts is Some && box_of(kept@[k]) != BoxId::Channel(id),
            decreases self.pending@.len() - j,
        {
            let u = self.pending[j];
            assert(start.pending@[j as int].pts is Some);
            if u.pts.unwrap().box_id != BoxId::Channel(id) {
                kept.push(u);
            }
            j = j + 1;
        }
        self.pending = kept;
        proof {
            assert(start.channel_ids@.take(start.channel_ids@.len() as int) == start.channel_ids@);
            assert forall|k: int| 0 <= k < self.channel_ids@.len() implies self.channels@.contains_key(#[trigger] self.channel_ids@[k]) by {
                let m = choose|m: int| 0 <= m < start.channel_ids@.len() && start.channel_ids@[m] == self.channel_ids@[k];
            }
            assert forall|k: i64| #[trigger] self.channels@.contains_key(k) implies self.channel_ids@.contains(k) by {
                assert(start.channel_ids@.contains(k));
                let m = choose|m: int| 0 <= m < start.channel_ids@.len() && start.channel_ids@[m] == k;
            }
            assert forall|b: BoxId| b != BoxId::Channel(id) implies #[trigger] self.box_state(b) == start.box_state(b) by {
                match b {
                    BoxId::Common => {},
                    BoxId::Channel(x) => {},
                }
            }
        }
    }

    /// Applies an update of a difference for stream `b`: the server's answer
    /// is authoritative, so an update of `b` is delivered whenever it moves
    /// past the stream's `pts`. Updates of other streams are routed as usual.
    fn apply_authoritative(&mut self, b: BoxId, u: RawUpdate, now: u64) -> (r: Vec<RawUpdate>)
        requires
            old(self).wf(),
            old(self).box_state(b) is Some,
        ensures
            final(self).wf(),
            delivered_in_order(*old(self), *final(self), r@),
            grew(*old(self), *final(self)),
            final(self).box_state(b) is Some,
            final(self).box_state(b).unwrap().getting_diff == old(self).box_state(b).unwrap().getting_diff,
            final(self).box_state(b).unwrap().pts == (if u.pts is Some && box_of(u) == b && pts_of(u)
                > old(self).box_state(b).unwrap().pts {
                pts_of(u)
            } else {
                old(self).box_state(b).unwrap().pts
            }),
            u.pts is Some && box_of(u) == b && pts_of(u) > old(self).box_state(b).unwrap().pts ==> r@ == seq![u],
            final(self).qts == old(self).qts,
            final(self).seq == old(self).seq,
            final(self).date == old(self).date,
            final(self).gap_wait == old(self).gap_wait,
    {
        match u.pts {
            Some(info) => {
                if info.box_id == b {
                    let st = self.get_box(b).unwrap();
                    if info.pts > st.pts {
                        self.set_box(
                            b,
                            BoxState { pts: info.pts, deadline: st.deadline, getting_diff: st.getting_diff, gap_until: st.gap_until },
                        );
                        return vec![u];
                    }
                    return Vec::new();
                }
            },
            None => {},
        }
        let r = self.process_update(u, now);
        proof {
            if u.pts is Some {
                assert(box_of(u) != b);
                assert(self.box_state(b) == old(self).box_state(b));
            }
        }
        r
    }

    /// Delivers the messages of a difference, then applies its other updates
    /// for stream `b`.
    fn apply_batch(&mut self, b: BoxId, messages: &Vec<u64>, others: &Vec<RawUpdate>, now: u64) -> (r: Vec<RawUpdate>)
        requires
            old(self).wf(),
            old(self).box_state(b) is Some,
        ensures
            final(self).wf(),
            delivered_in_order(*old(self), *final(self), r@),
            grew(*old(self), *final(self)),
            r@.len() >= messages@.len(),
            r@.take(messages@.len() as int) == as_updates(messages@),
            final(self).box_state(b) is Some,
            final(self).box_state(b).unwrap().getting_diff == old(self).box_state(b).unwrap().getting_diff,
            forall|k: int| 0 <= k < others@.len() && fresh(old(self).box_state(b).unwrap().pts, others@, b, k)
                ==> r@.contains(#[trigger] others@[k]),
            final(self).qts == old(self).qts,
            final(self).seq == old(self).seq,
            final(self).date == old(self).date,
            final(self).gap_wait == old(self).gap_wait,
    {
        let ghost start = *self;
        let ghost local = start.box_state(b).unwrap().pts;
        let mut out: Vec<RawUpdate> = Vec::new();
        let mut i: usize = 0;
        while i < messages.len()
            invariant
                i <= messages@.len(),
                out@ == as_updates(messages@.take(i as int)),
            decreases messages@.len() - i,
        {
            out.push(RawUpdate { payload: messages[i], pts: None });
            assert(out@ =~= as_updates(messages@.take(i + 1)));
            i = i + 1;
        }
        assert(messages@.take(messages@.len() as int) =~= messages@);
        assert(delivered_in_order(start, *self, out@));
        let mut k: usize = 0;
        while k < others.len()
            invariant
                self.wf(),
                k <= others@.len(),
                delivered_in_order(start, *self, out@),
                grew(start, *self),
                out@.len() >= messages@.len(),
                out@.take(messages@.len() as int) == as_updates(messages@),
                self.box_state(b) is Some,
                start.box_state(b) is Some,
                self.box_state(b).unwrap().getting_diff == start.box_state(b).unwrap().getting_diff,
                self.qts == start.qts,
                self.seq == start.seq,
                self.date == start.date,
                self.gap_wait == start.gap_wait,
                local == start.box_state(b).unwrap().pts,
                self.box_state(b).unwrap().pts == running_pts(local, others@.take(k as int), b),
                forall|j: int| 0 <= j < k && fresh(local, others@, b, j) ==> out@.contains(#[trigger] others@[j]),
            decreases others@.len() - k,
        {
            let ghost prev = *self;
            let mut got = self.apply_authoritative(b, others[k], now);
            proof {
                lemma_in_order_chain(start, prev, *self, out@, got@);
                assert(others@.take(k + 1).drop_last() =~= others@.take(k as int));
                assert(others@.take(k + 1).last() == others@[k as int]);
            }
            let ghost first = out@;
            let ghost second = got@;
            out.append(&mut got);
            assert(out@ =~= first + second);
            assert(out@.take(messages@.len() as int) =~= first.take(messages@.len() as int));
            assert forall|j: int| 0 <= j < k + 1 && fresh(local, others@, b, j) implies out@.contains(#[trigger] others@[j]) by {
                if j < k {
                    let m = choose|m: int| 0 <= m < first.len() && first[m] == others@[j];
                    assert(out@[m] == first[m]);
                } else {
                    assert(others@.take(j) =~= others@.take(k as int));
                    assert(out@[first.len() as int] == others@[j]);
                }
            }
            k = k + 1;
        }
        out
    }

    /// Finishes applying a difference for stream `b`: when it was the last
    /// part the stream stops fetching and restarts its timeout; buffered
    /// updates put in order are applied; the stream's `pts` moves up to the
    /// echoed one; and buffered updates that became stale are dropped.
    fn settle(&mut self, b: BoxId, echoed: i32, done: bool, now: u64) -> (r: Vec<RawUpdate>)
        requires
            old(self).wf(),
            old(self).box_state(b) is Some,
        ensures
            final(self).wf(),
            delivered_in_order(*old(self), *final(self), r@),
            grew(*old(self), *final(self)),
            same_except(*old(self), *final(self), b),
            final(self).box_state(b) is Some,
            final(self).box_state(b).unwrap().pts >= echoed,
            final(self).box_state(b).unwrap().getting_diff == (if done { false } else { old(self).box_state(b).unwrap().getting_diff }),
            settled(*final(self), b),
    {
        let ghost start = *self;
        let st = self.get_box(b).unwrap();
        if done {
            self.set_box(
                b,
                BoxState { pts: st.pts, deadline: after(now, timeout(b)), getting_diff: false, gap_until: st.gap_until },
            );
        }
        let ghost s1 = *self;
        proof {
            lemma_in_order_chain(start, s1, s1, Seq::empty(), Seq::empty());
            assert(Seq::<RawUpdate>::empty() + Seq::<RawUpdate>::empty() =~= Seq::<RawUpdate>::empty());
        }
        let mut out = self.flush(b, now);
        proof {
            lemma_same_except_chain(start, s1, *self, b);
            lemma_in_order_chain(start, s1, *self, Seq::empty(), out@);
            assert(Seq::<RawUpdate>::empty() + out@ =~= out@);
        }
        let ghost s2 = *self;
        let st2 = self.get_box(b).unwrap();
        if echoed > st2.pts {
            self.set_box(
                b,
                BoxState { pts: echoed, deadline: st2.deadline, getting_diff: st2.getting_diff, gap_until: st2.gap_until },
            );
        }
        let ghost s3 = *self;
        proof {
            lemma_same_except_chain(start, s2, s3, b);
            lemma_in_order_chain(start, s2, s3, out@, Seq::empty());
            assert(out@ + Seq::<RawUpdate>::empty() =~= out@);
        }
        let mut more = self.flush(b, now);
        proof {
            lemma_same_except_chain(start, s3, *self, b);
            lemma_in_order_chain(start, s3, *self, out@, more@);
        }
        let ghost first = out@;
        let ghost second = more@;
        out.append(&mut more);
        assert(out@ =~= first + second);
        out
    }

    /// Applies a response to [`GetDifference`]: its entities join `hashes`,
    /// its messages and then its other updates are delivered, and the common
    /// counters move to the echoed state (`pts` never moving back). An empty
    /// or final response ends the fetch; a slice leaves it outstanding.
    pub fn apply_difference(&mut self, d: Difference, hashes: &mut PeerHashTable, now: u64) -> (r: UpdateResult)
        requires
            old(self).wf(),
        ensures
            final(self).wf(),
            delivered_in_order(*old(self), *final(self), r.updates@),
            grew(*old(self), *final(self)),
            settled(*final(self), BoxId::Common),
            match d {
                Difference::Empty(state) => {
                    &&& final(self).common.pts >= state.pts
                    &&& final(self).qts == state.qts
                    &&& final(self).seq == state.seq
                    &&& final(self).date == state.date
                    &&& !final(self).common.getting_diff
                    &&& r.users@.len() == 0
                    &&& r.chats@.len() == 0
                    &&& *final(hashes) == *old(hashes)
                },
                Difference::Slice(batch) | Difference::Final(batch) => {
                    &&& final(self).common.pts >= batch.state.pts
                    &&& final(self).qts == batch.state.qts
                    &&& final(self).seq == batch.state.seq
                    &&& final(self).date == batch.state.date
                    &&& final(self).common.getting_diff == (if d is Final { false } else { old(self).common.getting_diff })
                    &&& r.updates@.len() >= batch.new_messages@.len()
                    &&& r.updates@.take(batch.new_messages@.len() as int) == as_updates(batch.new_messages@)
                    &&& forall|k: int| 0 <= k < batch.other_updates@.len() && fresh(old(self).common.pts, batch.other_updates@, BoxId::Common, k)
                        ==> r.updates@.contains(#[trigger] batch.other_updates@[k])
                    &&& r.users@ == batch.users@
                    &&& r.chats@ == batch.chats@
                    &&& final(hashes).users@ == crate::hashes::merged(old(hashes).users@, batch.users@)
                    &&& final(hashes).chats@ == crate::hashes::merged(old(hashes).chats@, batch.chats@)
                },
            },
    {
        match d {
            Difference::Empty(state) => {
                let updates = self.settle(BoxId::Common, state.pts, true, now);
                self.qts = state.qts;
                self.seq = state.seq;
                self.date = state.date;
                UpdateResult { updates, users: Vec::new(), chats: Vec::new() }
            },
            Difference::Slice(batch) => {
                self.apply_response(batch, false, hashes, now)
            },
            Difference::Final(batch) => {
                self.apply_response(batch, true, hashes, now)
            },
        }
    }

    fn apply_response(&mut self, batch: crate::types::DifferenceBatch, done: bool, hashes: &mut PeerHashTable, now: u64) -> (r: UpdateResult)
        requires
            old(self).wf(),
        ensures
            final(self).wf(),
            delivered_in_order(*old(self), *final(self), r.updates@),
            grew(*old(self), *final(self)),
            settled(*final(self), BoxId::Common),
            final(self).common.pts >= batch.state.pts,
            final(self).qts == batch.state.qts,
            final(self).seq == batch.state.seq,
            final(self).date == batch.state.date,
            final(self).common.getting_diff == (if done { false } else { old(self).common.getting_diff }),
            r.updates@.len() >= batch.new_messages@.len(),
            r.updates@.take(batch.new_messages@.len() as int) == as_updates(batch.new_messages@),
            forall|k: int| 0 <= k < batch.other_updates@.len() && fresh(old(self).common.pts, batch.other_updates@, BoxId::Common, k)
                ==> r.updates@.contains(#[trigger] batch.other_updates@[k]),
            r.users@ == batch.users@,
            r.chats@ == batch.chats@,
            final(hashes).users@ == crate::hashes::merged(old(hashes).users@, batch.users@),
            final(hashes).chats@ == crate::hashes::merged(old(hashes).chats@, batch.chats@),
    {
        let ghost start = *self;
        hashes.extend(&batch.users, &batch.chats);
        let mut out = self.apply_batch(BoxId::Common, &batch.new_messages, &batch.other_updates, now);
        let ghost s1 = *self;
        let mut more = self.settle(BoxId::Common, batch.state.pts, done, now);
        proof {
            lemma_in_order_chain(start, s1, *self, out@, more@);
        }
        let ghost first = out@;
        let ghost second = more@;
        out.append(&mut more);
        assert(out@ =~= first + second);
        assert(out@.take(batch.new_messages@.len() as int) =~= first.take(batch.new_messages@.len() as int));
        assert forall|k: int| 0 <= k < batch.other_updates@.len() && fresh(start.common.pts, batch.other_updates@, BoxId::Common, k)
            implies out@.contains(#[trigger] batch.other_updates@[k]) by {
            let m = choose|m: int| 0 <= m < first.len() && first[m] == batch.other_updates@[k];
            assert(out@[m] == first[m]);
        }
        let ghost s2 = *self;
        self.qts = batch.state.qts;
        self.seq = batch.state.seq;
        self.date = batch.state.date;
        assert forall|o: BoxId| #[trigger] self.box_state(o) == s2.box_state(o) by {
            match o {
                BoxId::Common => {},
                BoxId::Channel(k) => {},
            }
        }
        assert(delivered_in_order(start, *self, out@));
        UpdateResult { updates: out, users: batch.users, chats: batch.chats }
    }

    /// Applies a response to the [`GetChannelDifference`] `req`. When the
    /// channel no longer has a box nothing changes. Otherwise its entities
    /// join `hashes`, its messages and then its other updates are delivered,
    /// and the channel's `pts` moves up to the echoed one; a final response
    /// ends the fetch.
    pub fn apply_channel_difference(
        &mut self,
        req: &GetChannelDifference,
        resp: ChannelDifference,
        hashes: &mut PeerHashTable,
        now: u64,
    ) -> (r: UpdateResult)
        requires
            old(self).wf(),
        ensures
            final(self).wf(),
            delivered_in_order(*old(self), *final(self), r.updates@),
            grew(*old(self), *final(self)),
            final(self).qts == old(self).qts,
            final(self).seq == old(self).seq,
            final(self).date == old(self).date,
            !old(self).channels@.contains_key(req.channel_id) ==> {
                &&& *final(self) == *old(self)
                &&& *final(hashes) == *old(hashes)
                &&& r.updates@.len() == 0
            },
            old(self).channels@.contains_key(req.channel_id) ==> {
                let st = final(self).channels@[req.channel_id].state;
                &&& final(self).channels@.contains_key(req.channel_id)
                &&& st.pts >= resp.pts
                &&& st.getting_diff == (if resp.is_final { false } else { old(self).channels@[req.channel_id].state.getting_diff })
                &&& settled(*final(self), BoxId::Channel(req.channel_id))
                &&& r.updates@.len() >= resp.new_messages@.len()
                &&& r.updates@.take(resp.new_messages@.len() as int) == as_updates(resp.new_messages@)
                &&& forall|k: int| 0 <= k < resp.other_updates@.len() && fresh(
                    old(self).channels@[req.channel_id].state.pts,
                    resp.other_updates@,
                    BoxId::Channel(req.channel_id),
                    k,
                ) ==> r.updates@.contains(#[trigger] resp.other_updates@[k])
                &&& r.users@ == resp.users@
                &&& r.chats@ == resp.chats@
                &&& final(hashes).users@ == crate::hashes::merged(old(hashes).users@, resp.users@)
                &&& final(hashes).chats@ == crate::hashes::merged(old(hashes).chats@, resp.chats@)
            },
    {
        let b = BoxId::Channel(req.channel_id);
        if !self.channels.contains_key(&req.channel_id) {
            return UpdateResult { updates: Vec::new(), users: Vec::new(), chats: Vec::new() };
        }
        let ghost start = *self;
        hashes.extend(&resp.users, &resp.chats);
        let mut out = self.apply_batch(b, &resp.new_messages, &resp.other_updates, now);
        let ghost s1 = *self;
        let mut more = self.settle(b, resp.pts, resp.is_final, now);
        proof {
            lemma_in_order_chain(start, s1, *self, out@, more@);
        }
        let ghost first = out@;
        let ghost second = more@;
        out.append(&mut more);
        assert(out@ =~= first + second);
        assert(out@.take(resp.new_messages@.len() as int) =~= first.take(resp.new_messages@.len() as int));
        assert forall|k: int| 0 <= k < resp.other_updates@.len() && fresh(
            start.channels@[req.channel_id].state.pts,
            resp.other_updates@,
            b,
            k,
        ) implies out@.contains(#[trigger] resp.other_updates@[k]) by {
            assert(start.box_state(b).unwrap().pts == start.channels@[req.channel_id].state.pts);
            let m = choose|m: int| 0 <= m < first.len() && first[m] == resp.other_updates@[k];
            assert(out@[m] == first[m]);
        }
        UpdateResult { updates: out, users: resp.users, chats: resp.chats }
    }
}

} // verus!
