//! The bounded queue of updates waiting for consumers.
use crate::types::{ChatMap, RawUpdate};
use std::collections::VecDeque;
use std::sync::Arc;
use vstd::prelude::*;

verus! {

/// Milliseconds between two warnings about dropped updates.
pub const LIMIT_WARN_COOLDOWN_MS: u64 = 300_000;

/// Relies on `Arc::clone`: the new pointer shares the same chat map.
#[verifier::external_body]
fn share(m: &Arc<ChatMap>) -> (r: Arc<ChatMap>)
    ensures
        r == *m,
{
    Arc::clone(m)
}

/// Each update paired with the chat map it arrived with.
pub open spec fn paired(updates: Seq<RawUpdate>, chats: Arc<ChatMap>) -> Seq<(RawUpdate, Arc<ChatMap>)> {
    updates.map_values(|u: RawUpdate| (u, chats))
}

/// How many of `incoming` updates fit beside `queued` ones under `limit`.
pub open spec fn room(queued: nat, incoming: nat, limit: Option<usize>) -> nat {
    match limit {
        None => incoming,
        Some(l) => if queued + incoming <= l {
            incoming
        } else if queued <= l {
            (l - queued) as nat
        } else {
            0
        },
    }
}

/// Whether a warning is due at `now`, the last one having been at `last`.
pub open spec fn warn_due(last: Option<u64>, now: u64) -> bool {
    match last {
        None => true,
        Some(t) => now >= t && now - t > LIMIT_WARN_COOLDOWN_MS,
    }
}

/// What appending `updates` with `chats` at `now` does to the queue, and
/// whether a warning is then due.
pub open spec fn extended(
    before: UpdateQueue,
    after: UpdateQueue,
    updates: Seq<RawUpdate>,
    chats: Arc<ChatMap>,
    now: u64,
    warn: bool,
) -> bool {
    let kept = room(before.items@.len(), updates.len(), before.limit);
    let lost = updates.len() - kept;
    &&& after.wf()
    &&& after.limit == before.limit
    &&& after.items@ == before.items@ + paired(updates.take(kept as int), chats)
    &&& after.dropped == (if before.dropped + lost > u64::MAX {
        u64::MAX
    } else {
        (before.dropped + lost) as u64
    })
    &&& lost == 0 ==> !warn && after.last_warn == before.last_warn
    &&& lost > 0 ==> warn == warn_due(before.last_warn, now) && after.last_warn == Some(now)
}

/// A first-in first-out queue of updates with their chat maps. When a batch
/// does not fit under the limit, its newest updates are dropped and counted.
pub struct UpdateQueue {
    pub items: VecDeque<(RawUpdate, Arc<ChatMap>)>,
    pub limit: Option<usize>,
    pub dropped: u64,
    pub last_warn: Option<u64>,
}

impl UpdateQueue {
    /// The queue never holds more than its limit.
    pub open spec fn wf(&self) -> bool {
        match self.limit {
            None => true,
            Some(l) => self.items@.len() <= l,
        }
    }

    pub fn new(limit: Option<usize>) -> (r: Self)
        ensures
            r.wf(),
            r.items@.len() == 0,
            r.limit == limit,
            r.dropped == 0,
            r.last_warn is None,
    {
        UpdateQueue { items: VecDeque::new(), limit, dropped: 0, last_warn: None }
    }

    pub fn len(&self) -> (r: usize)
        ensures
            r == self.items@.len(),
    {
        self.items.len()
    }

    /// Appends as many of `updates`, oldest first, as fit under the limit,
    /// each with `chats`. The rest are counted as dropped; the result says
    /// whether a warning about them is due (at most one per cool-down).
    pub fn extend(&mut self, updates: Vec<RawUpdate>, chats: Arc<ChatMap>, now: u64) -> (warn: bool)
        requires
            old(self).wf(),
        ensures
            extended(*old(self), *final(self), updates@, chats, now, warn),
    {
        let mut warn = false;
        let mut keep = updates.len();
        match self.limit {
            None => {},
            Some(l) => {
                if self.items.len() > l || updates.len() > l - self.items.len() {
                    keep = l - self.items.len();
                    let lost = updates.len() - keep;
                    self.dropped = if self.dropped > u64::MAX - lost as u64 {
                        u64::MAX
                    } else {
                        self.dropped + lost as u64
                    };
                    warn = match self.last_warn {
                        None => true,
                        Some(t) => now >= t && now - t > LIMIT_WARN_COOLDOWN_MS,
                    };
                    self.last_warn = Some(now);
                }
            },
        }
        let ghost start = self.items@;
        let ghost mark = (self.dropped, self.last_warn);
        let mut i: usize = 0;
        while i < keep
            invariant
                keep <= updates@.len(),
                i <= keep,
                self.items@ == start + paired(updates@.take(i as int), chats),
                self.limit == old(self).limit,
                (self.dropped, self.last_warn) == mark,
                match self.limit {
                    None => true,
                    Some(l) => start.len() + keep <= l,
                },
            decreases keep - i,
        {
            self.items.push_back((updates[i], share(&chats)));
            assert(updates@.take(i + 1) == updates@.take(i as int).push(updates@[i as int]));
            assert(self.items@ =~= start + paired(updates@.take(i + 1), chats));
            i = i + 1;
        }
        warn
    }

    /// Takes the oldest update out of the queue.
    pub fn pop(&mut self) -> (r: Option<(RawUpdate, Arc<ChatMap>)>)
        requires
            old(self).wf(),
        ensures
            final(self).wf(),
            final(self).limit == old(self).limit,
            final(self).dropped == old(self).dropped,
            final(self).last_warn == old(self).last_warn,
            old(self).items@.len() == 0 ==> r is None && final(self).items@ == old(self).items@,
            old(self).items@.len() > 0 ==> r == Some(old(self).items@[0]) && final(self).items@
                == old(self).items@.drop_first(),
    {
        self.items.pop_front()
    }
}

} // verus!
