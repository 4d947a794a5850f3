//! The table of access hashes for users and chats.
use crate::types::{BoxId, Container, Entity, PtsInfo, UnknownPeer};
use vstd::hash_map::HashMapWithView;
use vstd::prelude::*;

verus! {

broadcast use vstd::std_specs::hash::group_hash_axioms;

/// A known access hash; `min` marks one obtained from a reduced context.
#[derive(Clone, Copy, Debug, PartialEq, Eq, Structural)]
pub struct PeerHash {
    pub hash: i64,
    pub min: bool,
}

/// The table after one entity is merged in: entities without a hash change
/// nothing, and a `min` hash never replaces one that is not `min`.
pub open spec fn merge_one(m: Map<i64, PeerHash>, e: Entity) -> Map<i64, PeerHash> {
    match e.access_hash {
        None => m,
        Some(h) => if e.min && m.contains_key(e.id) && !m[e.id].min {
            m
        } else {
            m.insert(e.id, PeerHash { hash: h, min: e.min })
        },
    }
}

/// The table after the entities of `s` are merged in, in order.
pub open spec fn merged(m: Map<i64, PeerHash>, s: Seq<Entity>) -> Map<i64, PeerHash>
    decreases s.len(),
{
    if s.len() == 0 {
        m
    } else {
        merge_one(merged(m, s.drop_last()), s.last())
    }
}

/// Whether `chats` carries a hash for channel `id`.
pub open spec fn supplies(chats: Seq<Entity>, id: i64) -> bool {
    exists|k: int| 0 <= k < chats.len() && (#[trigger] chats[k]).id == id && chats[k].access_hash is Some
}

/// The channel that an update refers to, if any.
pub open spec fn channel_of(u: crate::types::RawUpdate) -> Option<i64> {
    match u.pts {
        Some(PtsInfo { box_id: BoxId::Channel(id), .. }) => Some(id),
        _ => None,
    }
}

/// Every channel referred to by an update of `c` has a hash, in `table` or in
/// the chats that `c` itself carries.
pub open spec fn peers_known(table: Map<i64, PeerHash>, c: Container) -> bool {
    forall|i: int|
        0 <= i < c.updates.len() ==> match #[trigger] channel_of(c.updates@[i]) {
            Some(id) => table.contains_key(id) || supplies(c.chats@, id),
            None => true,
        }
}

/// Access hashes of users and chats, by id.
pub struct PeerHashTable {
    pub users: HashMapWithView<i64, PeerHash>,
    pub chats: HashMapWithView<i64, PeerHash>,
}

impl PeerHashTable {
    pub fn new() -> (r: Self)
        ensures
            r.users@ == Map::<i64, PeerHash>::empty(),
            r.chats@ == Map::<i64, PeerHash>::empty(),
    {
        PeerHashTable { users: HashMapWithView::new(), chats: HashMapWithView::new() }
    }

    /// The known hash of user `id`.
    pub fn get_user(&self, id: i64) -> (r: Option<PeerHash>)
        ensures
            r == (if self.users@.contains_key(id) { Some(self.users@[id]) } else { None }),
    {
        match self.users.get(&id) {
            Some(h) => Some(*h),
            None => None,
        }
    }

    /// The known hash of chat or channel `id`.
    pub fn get_chat(&self, id: i64) -> (r: Option<PeerHash>)
        ensures
            r == (if self.chats@.contains_key(id) { Some(self.chats@[id]) } else { None }),
    {
        match self.chats.get(&id) {
            Some(h) => Some(*h),
            None => None,
        }
    }

    /// Forgets the hash of chat or channel `id`.
    pub fn forget_chat(&mut self, id: i64)
        ensures
            final(self).chats@ == old(self).chats@.remove(id),
            final(self).users@ == old(self).users@,
    {
        let _ = self.chats.remove(&id);
        assert(self.chats@ =~= old(self).chats@.remove(id));
    }

    fn merge_into(table: &mut HashMapWithView<i64, PeerHash>, entities: &Vec<Entity>)
        ensures
            final(table)@ == merged(old(table)@, entities@),
    {
        let ghost start = table@;
        let mut i: usize = 0;
        while i < entities.len()
            invariant
                i <= entities.len(),
                table@ == merged(start, entities@.take(i as int)),
            decreases entities.len() - i,
        {
            let e = entities[i];
            proof {
                assert(entities@.take(i + 1).drop_last() == entities@.take(i as int));
            }
            match e.access_hash {
                None => {},
                Some(h) => {
                    let keep = match table.get(&e.id) {
                        Some(old_hash) => e.min && !old_hash.min,
                        None => false,
                    };
                    if !keep {
                        table.insert(e.id, PeerHash { hash: h, min: e.min });
                    }
                },
            }
            i = i + 1;
        }
        proof {
            assert(entities@.take(entities.len() as int) == entities@);
        }
    }

    /// Merges the given users and chats into the table.
    pub fn extend(&mut self, users: &Vec<Entity>, chats: &Vec<Entity>)
        ensures
            final(self).users@ == merged(old(self).users@, users@),
            final(self).chats@ == merged(old(self).chats@, chats@),
    {
        Self::merge_into(&mut self.users, users);
        Self::merge_into(&mut self.chats, chats);
    }

    /// Succeeds when every channel that an update of `c` refers to has a known
    /// hash, already in the table or carried by `c` itself.
    pub fn ensure_known(&self, c: &Container) -> (r: Result<(), UnknownPeer>)
        ensures
            r is Ok <==> peers_known(self.chats@, *c),
    {
        let mut i: usize = 0;
        while i < c.updates.len()
            invariant
                i <= c.updates.len(),
                forall|j: int|
                    0 <= j < i ==> match #[trigger] channel_of(c.updates@[j]) {
                        Some(id) => self.chats@.contains_key(id) || supplies(c.chats@, id),
                        None => true,
                    },
            decreases c.updates.len() - i,
        {
            let u = c.updates[i];
            match u.pts {
                Some(PtsInfo { box_id: BoxId::Channel(id), .. }) => {
                    if !self.chats.contains_key(&id) && !Self::carries(&c.chats, id) {
                        assert(channel_of(c.updates@[i as int]) == Some(id));
                        return Err(UnknownPeer);
                    }
                },
                _ => {},
            }
            i = i + 1;
        }
        Ok(())
    }

    fn carries(chats: &Vec<Entity>, id: i64) -> (r: bool)
        ensures
            r == supplies(chats@, id),
    {
        let mut k: usize = 0;
        while k < chats.len()
            invariant
                k <= chats.len(),
                forall|j: int| 0 <= j < k ==> !((#[trigger] chats@[j]).id == id && chats@[j].access_hash is Some),
            decreases chats.len() - k,
        {
            if chats[k].id == id && chats[k].access_hash.is_some() {
                return true;
            }
            k = k + 1;
        }
        false
    }
}

/// Merging never forgets an entry.
pub proof fn lemma_merged_keeps(m: Map<i64, PeerHash>, s: Seq<Entity>, id: i64)
    requires
        m.contains_key(id),
    ensures
        merged(m, s).contains_key(id),
    decreases s.len(),
{
    if s.len() > 0 {
        lemma_merged_keeps(m, s.drop_last(), id);
    }
}

} // verus!
