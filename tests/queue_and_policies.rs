use grammers_updates::codegen::Config;
use grammers_updates::queue::UpdateQueue;
use grammers_updates::retry::{Fixed, NoRetry, RetryPolicy};
use grammers_updates::types::{ChatMap, Entity, RawUpdate};
use std::ops::ControlFlow;
use std::sync::Arc;
use std::time::Duration;

fn updates(n: u64) -> Vec<RawUpdate> {
    (0..n).map(|p| RawUpdate { payload: p, pts: None }).collect()
}

fn chats() -> Arc<ChatMap> {
    Arc::new(ChatMap { users: vec![Entity { id: 1, access_hash: Some(2), min: false }], chats: vec![] })
}

#[test]
fn queue_keeps_oldest_within_limit() {
    let mut q = UpdateQueue::new(Some(3));
    assert!(!q.extend(updates(2), chats(), 0));
    assert!(q.extend(updates(4), chats(), 10));
    assert_eq!(q.len(), 3);
    assert_eq!(q.dropped, 3);
    let kept: Vec<u64> = q.items.iter().map(|(u, _)| u.payload).collect();
    assert_eq!(kept, vec![0, 1, 0]);
}

#[test]
fn queue_warning_has_cool_down() {
    let mut q = UpdateQueue::new(Some(1));
    assert!(q.extend(updates(2), chats(), 1_000));
    q.pop();
    assert!(!q.extend(updates(2), chats(), 2_000));
    q.pop();
    assert!(q.extend(updates(2), chats(), 2_000 + 300_001));
    assert_eq!(q.dropped, 3);
}

#[test]
fn unbounded_queue_keeps_everything() {
    let mut q = UpdateQueue::new(None);
    assert!(!q.extend(updates(1000), chats(), 0));
    assert_eq!(q.len(), 1000);
    assert_eq!(q.dropped, 0);
}

#[test]
fn queued_updates_share_their_chat_map() {
    let mut q = UpdateQueue::new(None);
    let map = chats();
    q.extend(updates(2), map.clone(), 0);
    let (first, m1) = q.pop().unwrap();
    let (second, m2) = q.pop().unwrap();
    assert_eq!((first.payload, second.payload), (0, 1));
    assert!(Arc::ptr_eq(&m1, &map) && Arc::ptr_eq(&m2, &map));
    assert_eq!(m1.users[0].access_hash, Some(2));
    assert!(q.pop().is_none());
}

#[test]
fn fixed_retries_up_to_its_attempts() {
    let policy = Fixed::new(3, Duration::from_millis(250));
    assert_eq!(policy.attempts, 3);
    assert_eq!(policy.should_retry(1), ControlFlow::Continue(Duration::from_millis(250)));
    assert_eq!(policy.should_retry(3), ControlFlow::Continue(Duration::from_millis(250)));
    assert_eq!(policy.should_retry(4), ControlFlow::Break(()));
}

#[test]
fn no_retry_never_retries() {
    assert_eq!(NoRetry.should_retry(0), ControlFlow::Break(()));
    assert_eq!(NoRetry.should_retry(10), ControlFlow::Break(()));
}

#[test]
fn generator_config_defaults() {
    let c = Config::default();
    assert!(!c.gen_name_for_id);
    assert!(!c.deserializable_functions);
    assert!(c.impl_debug && c.impl_from_type && c.impl_from_enum);
}
