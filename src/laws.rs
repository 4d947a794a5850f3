//! Properties that relate several steps of the update core.
use crate::client::{container_step, Client, UpdateError};
use crate::hashes::{lemma_merged_keeps, peers_known};
use crate::types::Container;
use vstd::prelude::*;

verus! {

/// A container that refers to a channel of unknown access hash leaves the
/// message box, the hash table and the queue exactly as they were.
pub proof fn lemma_unknown_peer_changes_nothing(
    s0: Client,
    c: Container,
    now: u64,
    s1: Client,
    r: Result<bool, UpdateError>,
)
    requires
        container_step(s0, c, now, s1, r),
        !peers_known(s0.chat_hashes.chats@, c),
    ensures
        s1.message_box == s0.message_box,
        s1.chat_hashes == s0.chat_hashes,
        s1.updates == s0.updates,
        r == Err::<bool, UpdateError>(UpdateError::UnknownPeer),
{
}

/// Applying the same container a second time, right after the first, queues
/// nothing more, when the container is numbered, or when it is outside the
/// numbering and each of its updates belongs to a stream (updates of no
/// stream are passed on each time they come).
pub proof fn lemma_duplicate_container_queues_nothing(
    s0: Client,
    c: Container,
    now: u64,
    later: u64,
    s1: Client,
    r1: Result<bool, UpdateError>,
    s2: Client,
    r2: Result<bool, UpdateError>,
)
    requires
        (c.seq != 0 && c.seq_start <= c.seq) || (c.seq == 0 && forall|i: int|
            0 <= i < c.updates@.len() ==> (#[trigger] c.updates@[i]).pts is Some),
        container_step(s0, c, now, s1, r1),
        container_step(s1, c, later, s2, r2),
    ensures
        s2.updates == s1.updates,
{
    if peers_known(s0.chat_hashes.chats@, c) {
        assert(peers_known(s1.chat_hashes.chats@, c)) by {
            assert forall|i: int| 0 <= i < c.updates.len() implies match #[trigger] crate::hashes::channel_of(c.updates@[i]) {
                Some(id) => s1.chat_hashes.chats@.contains_key(id) || crate::hashes::supplies(c.chats@, id),
                None => true,
            } by {
                match crate::hashes::channel_of(c.updates@[i]) {
                    Some(id) => {
                        if s0.chat_hashes.chats@.contains_key(id) {
                            lemma_merged_keeps(s0.chat_hashes.chats@, c.chats@, id);
                        }
                    },
                    None => {},
                }
            }
        }
    }
}

} // verus!
