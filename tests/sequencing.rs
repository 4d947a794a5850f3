use grammers_updates::client::{
    classify_failure, Client, FailureKind, InitParams, InvocationError, RpcError, Session, Step,
    UpdateError,
};
use grammers_updates::message_box::{verdict, MessageBox, Verdict, POSSIBLE_GAP_MS};
use grammers_updates::types::{
    BoxId, ChannelDifference, ChannelState, CommonState, Container, Difference, DifferenceBatch,
    Entity, GetChannelDifference, GetDifference, PrematureEndReason, PtsInfo, RawUpdate,
    UpdateState,
};

const CHANNEL: i64 = 777;

fn common(pts: i32, count: i32) -> RawUpdate {
    RawUpdate { payload: pts as u64, pts: Some(PtsInfo { box_id: BoxId::Common, pts, count }) }
}

fn in_channel(id: i64, pts: i32, count: i32) -> RawUpdate {
    RawUpdate {
        payload: 10_000 + pts as u64,
        pts: Some(PtsInfo { box_id: BoxId::Channel(id), pts, count }),
    }
}

fn short(updates: Vec<RawUpdate>) -> Container {
    Container {
        too_long: false,
        updates,
        users: vec![],
        chats: vec![],
        date: 0,
        seq_start: 0,
        seq: 0,
    }
}

fn state(pts: i32, channels: Vec<ChannelState>) -> UpdateState {
    UpdateState { pts, qts: 0, seq: 0, date: 0, channels }
}

fn client_at(pts: i32, channels: Vec<ChannelState>, limit: Option<usize>) -> Client {
    let mut session = Session::new();
    session.set_state(state(pts, channels));
    Client::new(InitParams { update_queue_limit: limit, catch_up: false }, session, 0)
}

fn drain(client: &mut Client, now: u64) -> Vec<u64> {
    let mut out = vec![];
    while let Step::Deliver(u, _) = client.poll(now) {
        out.push(u.payload);
    }
    out
}

fn channel_hash(id: i64) -> Entity {
    Entity { id, access_hash: Some(42), min: false }
}

#[test]
fn in_order_updates_are_all_applied() {
    let mut c = client_at(100, vec![], None);
    for pts in [101, 102, 103] {
        assert_eq!(c.process_container(&short(vec![common(pts, 1)]), 0), Ok(false));
    }
    assert_eq!(c.message_box.common.pts, 103);
    assert_eq!(c.updates.len(), 3);
    assert_eq!(drain(&mut c, 0), vec![101, 102, 103]);
}

#[test]
fn duplicate_update_is_applied_once() {
    let mut c = client_at(100, vec![], None);
    c.process_container(&short(vec![common(101, 1)]), 0).unwrap();
    c.process_container(&short(vec![common(101, 1)]), 0).unwrap();
    assert_eq!(c.message_box.common.pts, 101);
    assert_eq!(c.updates.len(), 1);
}

#[test]
fn stale_update_is_dropped() {
    let mut c = client_at(100, vec![], None);
    c.process_container(&short(vec![common(95, 1)]), 0).unwrap();
    assert_eq!(c.message_box.common.pts, 100);
    assert_eq!(c.updates.len(), 0);
}

#[test]
fn small_gap_is_absorbed() {
    let mut c = client_at(100, vec![], None);
    c.process_container(&short(vec![common(103, 1)]), 0).unwrap();
    assert_eq!(c.updates.len(), 0);
    assert_eq!(c.message_box.common.gap_until, Some(POSSIBLE_GAP_MS));
    c.process_container(&short(vec![common(101, 1)]), 100).unwrap();
    c.process_container(&short(vec![common(102, 1)]), 200).unwrap();
    assert_eq!(c.message_box.common.pts, 103);
    assert_eq!(c.message_box.common.gap_until, None);
    assert_eq!(c.updates.len(), 3);
    assert_eq!(drain(&mut c, 300), vec![101, 102, 103]);
}

#[test]
fn hard_gap_goes_through_difference() {
    let mut c = client_at(100, vec![], None);
    c.process_container(&short(vec![common(110, 1)]), 0).unwrap();
    match c.poll(499) {
        Step::Wait(t) => assert_eq!(t, 500),
        _ => panic!("expected a wait"),
    }
    let req = match c.poll(500) {
        Step::GetDifference(req) => req,
        _ => panic!("expected a difference request"),
    };
    assert_eq!(req, GetDifference { pts: 100, qts: 0, date: 0 });
    let batch = DifferenceBatch {
        new_messages: vec![],
        other_updates: (101..110).map(|p| common(p, 1)).collect(),
        users: vec![],
        chats: vec![],
        state: CommonState { pts: 110, qts: 0, seq: 0, date: 0 },
    };
    c.on_difference(Difference::Final(batch), 600);
    assert_eq!(c.message_box.common.pts, 110);
    assert!(!c.message_box.common.getting_diff);
    let expected: Vec<u64> = (101..=110).collect();
    assert_eq!(drain(&mut c, 700), expected);
}

#[test]
fn banned_channel_is_removed() {
    let mut c = client_at(100, vec![ChannelState { id: CHANNEL, pts: 50 }], None);
    c.chat_hashes.extend(&vec![], &vec![channel_hash(CHANNEL)]);
    c.process_container(&short(vec![in_channel(CHANNEL, 60, 1)]), 0).unwrap();
    let req = match c.poll(POSSIBLE_GAP_MS) {
        Step::GetChannelDifference(req) => req,
        _ => panic!("expected a channel difference request"),
    };
    assert_eq!(req.channel_id, CHANNEL);
    assert_eq!(req.pts, 50);
    assert_eq!(req.access_hash, 42);
    let failure = InvocationError::Rpc(RpcError { code: 400, name: "CHANNEL_PRIVATE".to_string() });
    assert!(matches!(c.on_channel_difference(&req, Err(failure), 600), Ok(false)));
    assert!(c.message_box.channels.get(&CHANNEL).is_none());
    assert_eq!(c.message_box.common.pts, 100);
    assert!(!c.message_box.common.getting_diff);
    let later = short(vec![in_channel(CHANNEL, 61, 1)]);
    assert_eq!(c.process_container(&later, 700), Err(UpdateError::UnknownPeer));
    assert!(c.message_box.channels.get(&CHANNEL).is_none());
    assert_eq!(c.updates.len(), 0);
}

#[test]
fn applied_pts_strictly_increase_per_box() {
    let mut c = client_at(100, vec![ChannelState { id: CHANNEL, pts: 7 }], None);
    c.chat_hashes.extend(&vec![], &vec![channel_hash(CHANNEL)]);
    let batch = vec![
        common(102, 1),
        in_channel(CHANNEL, 9, 2),
        common(101, 1),
        common(101, 1),
        in_channel(CHANNEL, 8, 1),
        common(103, 1),
    ];
    c.process_container(&short(batch), 0).unwrap();
    let mut last_common = 100;
    let mut last_channel = 7;
    while let Step::Deliver(u, _) = c.poll(0) {
        let info = u.pts.unwrap();
        match info.box_id {
            BoxId::Common => {
                assert!(info.pts > last_common);
                last_common = info.pts;
            }
            BoxId::Channel(_) => {
                assert!(info.pts > last_channel);
                last_channel = info.pts;
            }
        }
    }
    assert_eq!(last_common, 103);
    assert_eq!(last_channel, 9);
}

#[test]
fn unknown_peer_leaves_state_untouched() {
    let mut c = client_at(100, vec![], None);
    let before = c.message_box.session_state();
    let container = short(vec![common(101, 1), in_channel(5, 3, 1)]);
    assert_eq!(c.process_container(&container, 0), Err(UpdateError::UnknownPeer));
    let after = c.message_box.session_state();
    assert_eq!(after.pts, before.pts);
    assert_eq!(after.channels, before.channels);
    assert!(c.message_box.pending.is_empty());
    assert_eq!(c.updates.len(), 0);
    assert!(c.chat_hashes.get_chat(5).is_none());
}

#[test]
fn container_can_supply_missing_hash() {
    let mut c = client_at(100, vec![], None);
    let mut container = short(vec![in_channel(5, 3, 1)]);
    container.chats.push(channel_hash(5));
    assert_eq!(c.process_container(&container, 0), Ok(false));
    assert_eq!(c.updates.len(), 1);
    assert_eq!(c.chat_hashes.get_chat(5).unwrap().hash, 42);
}

#[test]
fn duplicate_container_queues_nothing() {
    let mut c = client_at(100, vec![], None);
    let container = Container {
        too_long: false,
        updates: vec![common(101, 1), common(102, 1)],
        users: vec![],
        chats: vec![],
        date: 1000,
        seq_start: 1,
        seq: 1,
    };
    c.process_container(&container, 0).unwrap();
    assert_eq!(c.updates.len(), 2);
    assert_eq!(c.message_box.seq, 1);
    assert_eq!(c.message_box.date, 1000);
    assert_eq!(c.process_container(&container, 0), Ok(false));
    assert_eq!(c.updates.len(), 2);
}

#[test]
fn seq_gap_starts_difference() {
    let mut c = client_at(100, vec![], None);
    let container = Container {
        too_long: false,
        updates: vec![common(101, 1)],
        users: vec![],
        chats: vec![],
        date: 1000,
        seq_start: 5,
        seq: 5,
    };
    assert_eq!(c.process_container(&container, 0), Err(UpdateError::Gap));
    assert!(c.message_box.common.getting_diff);
    assert_eq!(c.message_box.common.pts, 100);
    assert!(matches!(c.poll(0), Step::GetDifference(GetDifference { pts: 100, .. })));
}

#[test]
fn too_long_starts_difference() {
    let mut c = client_at(100, vec![], None);
    let mut container = short(vec![]);
    container.too_long = true;
    assert_eq!(c.process_container(&container, 0), Err(UpdateError::Gap));
    assert_eq!(c.message_box.get_difference(), Some(GetDifference { pts: 100, qts: 0, date: 0 }));
}

#[test]
fn updates_arriving_during_difference_wait_for_it() {
    let mut c = client_at(100, vec![], None);
    let mut too_long = short(vec![]);
    too_long.too_long = true;
    c.process_container(&too_long, 0).unwrap_err();
    c.process_container(&short(vec![common(101, 1)]), 0).unwrap();
    assert_eq!(c.updates.len(), 0);
    assert_eq!(c.message_box.pending.len(), 1);
    c.on_difference(Difference::Empty(CommonState { pts: 100, qts: 3, seq: 4, date: 5 }), 10);
    assert_eq!(c.message_box.common.pts, 101);
    assert_eq!((c.message_box.qts, c.message_box.seq, c.message_box.date), (3, 4, 5));
    assert_eq!(drain(&mut c, 10), vec![101]);
}

#[test]
fn difference_slice_keeps_fetching() {
    let mut c = client_at(100, vec![], None);
    let mut too_long = short(vec![]);
    too_long.too_long = true;
    c.process_container(&too_long, 0).unwrap_err();
    let batch = DifferenceBatch {
        new_messages: vec![900, 901],
        other_updates: vec![common(105, 5)],
        users: vec![],
        chats: vec![channel_hash(CHANNEL)],
        state: CommonState { pts: 105, qts: 1, seq: 2, date: 3 },
    };
    c.on_difference(Difference::Slice(batch), 10);
    assert!(c.message_box.common.getting_diff);
    assert_eq!(c.message_box.common.pts, 105);
    assert!(c.chat_hashes.get_chat(CHANNEL).is_some());
    assert_eq!(drain(&mut c, 10), vec![900, 901, 105]);
}

#[test]
fn session_round_trip() {
    let s = UpdateState {
        pts: 10,
        qts: 20,
        seq: 30,
        date: 40,
        channels: vec![ChannelState { id: 3, pts: 5 }, ChannelState { id: 1, pts: 9 }],
    };
    let mut m = MessageBox::new(0);
    m.set_state(&s, 0);
    let back = m.session_state();
    assert_eq!((back.pts, back.qts, back.seq, back.date), (10, 20, 30, 40));
    assert_eq!(back.channels, s.channels);
}

#[test]
fn sync_update_state_stores_snapshot() {
    let mut c = client_at(100, vec![ChannelState { id: CHANNEL, pts: 50 }], None);
    c.process_container(&short(vec![common(101, 1)]), 0).unwrap();
    c.sync_update_state();
    let stored = c.session.state.as_ref().unwrap();
    assert_eq!(stored.pts, 101);
    assert_eq!(stored.channels, vec![ChannelState { id: CHANNEL, pts: 50 }]);
}

fn channel_request(c: &mut Client) -> GetChannelDifference {
    c.chat_hashes.extend(&vec![], &vec![channel_hash(CHANNEL)]);
    c.process_container(&short(vec![in_channel(CHANNEL, 60, 1)]), 0).unwrap();
    match c.poll(POSSIBLE_GAP_MS) {
        Step::GetChannelDifference(req) => req,
        _ => panic!("expected a channel difference request"),
    }
}

#[test]
fn temporary_server_issues_keep_pts() {
    for failure in [
        InvocationError::Rpc(RpcError { code: 420, name: "PERSISTENT_TIMESTAMP_OUTDATED".to_string() }),
        InvocationError::Rpc(RpcError { code: 500, name: "INTERNAL".to_string() }),
    ] {
        let mut c = client_at(100, vec![ChannelState { id: CHANNEL, pts: 50 }], None);
        let req = channel_request(&mut c);
        assert!(matches!(c.on_channel_difference(&req, Err(failure), 600), Ok(false)));
        let st = c.message_box.channels.get(&CHANNEL).unwrap().state;
        assert_eq!(st.pts, 50);
        assert!(!st.getting_diff);
        assert_eq!(c.message_box.common.pts, 100);
    }
}

#[test]
fn end_channel_difference_banned_keeps_other_boxes() {
    let mut m = MessageBox::new(0);
    m.set_state(
        &UpdateState {
            pts: 1,
            qts: 2,
            seq: 3,
            date: 4,
            channels: vec![
                ChannelState { id: 1, pts: 10 },
                ChannelState { id: 2, pts: 20 },
                ChannelState { id: 3, pts: 30 },
            ],
        },
        0,
    );
    let req = GetChannelDifference { channel_id: 2, access_hash: 0, pts: 20, limit: 100 };
    m.end_channel_difference(&req, PrematureEndReason::Banned, 5);
    let s = m.session_state();
    assert_eq!(s.channels, vec![ChannelState { id: 1, pts: 10 }, ChannelState { id: 3, pts: 30 }]);
    assert_eq!(s.pts, 1);
}

#[test]
fn other_failures_are_returned() {
    let mut c = client_at(100, vec![ChannelState { id: CHANNEL, pts: 50 }], None);
    let req = channel_request(&mut c);
    let failure = InvocationError::Transport("connection reset".to_string());
    assert!(matches!(c.on_channel_difference(&req, Err(failure), 600), Err(InvocationError::Transport(_))));
    assert!(c.message_box.channels.get(&CHANNEL).unwrap().state.getting_diff);
}

#[test]
fn failure_kinds() {
    let rpc = |code: i32, name: &str| InvocationError::Rpc(RpcError { code, name: name.to_string() });
    assert_eq!(classify_failure(&rpc(420, "PERSISTENT_TIMESTAMP_OUTDATED")), FailureKind::Temporary);
    assert_eq!(classify_failure(&rpc(400, "CHANNEL_PRIVATE")), FailureKind::Banned);
    assert_eq!(classify_failure(&rpc(500, "WHATEVER")), FailureKind::Temporary);
    assert_eq!(classify_failure(&rpc(400, "FLOOD")), FailureKind::Other);
    assert_eq!(classify_failure(&InvocationError::Transport(String::new())), FailureKind::Other);
}

#[test]
fn channel_difference_is_applied() {
    let mut c = client_at(100, vec![ChannelState { id: CHANNEL, pts: 50 }], None);
    let req = channel_request(&mut c);
    let resp = ChannelDifference {
        is_final: true,
        pts: 59,
        new_messages: vec![5000],
        other_updates: vec![in_channel(CHANNEL, 55, 5), in_channel(CHANNEL, 59, 4)],
        users: vec![],
        chats: vec![],
    };
    assert!(c.on_channel_difference(&req, Ok(resp), 600).is_ok());
    let st = c.message_box.channels.get(&CHANNEL).unwrap().state;
    assert_eq!(st.pts, 60);
    assert!(!st.getting_diff);
    assert_eq!(drain(&mut c, 600), vec![5000, 10_055, 10_059, 10_060]);
}

#[test]
fn channels_are_served_fairly() {
    let mut m = MessageBox::new(0);
    m.set_state(
        &state(1, vec![ChannelState { id: 9, pts: 1 }, ChannelState { id: 4, pts: 1 }]),
        0,
    );
    let mut hashes = grammers_updates::hashes::PeerHashTable::new();
    hashes.extend(&vec![], &vec![channel_hash(9), channel_hash(4)]);
    assert_eq!(m.get_channel_difference(&hashes, 0), None);
    m.check_deadlines(u64::MAX);
    let first = m.get_channel_difference(&hashes, 10).unwrap();
    let second = m.get_channel_difference(&hashes, 20).unwrap();
    let third = m.get_channel_difference(&hashes, 30).unwrap();
    assert_eq!((first.channel_id, second.channel_id, third.channel_id), (4, 9, 4));
}

#[test]
fn deadlines_trigger_difference() {
    let mut m = MessageBox::new(0);
    assert_eq!(m.check_deadlines(0), 900_000);
    assert_eq!(m.get_difference(), None);
    assert_eq!(m.check_deadlines(900_000), 900_000);
    assert!(m.common.getting_diff);
    assert_eq!(m.check_deadlines(900_001), 900_001);
}

#[test]
fn catch_up_fetches_everything() {
    let mut session = Session::new();
    session.set_state(state(7, vec![ChannelState { id: 2, pts: 3 }]));
    let c = Client::new(InitParams { update_queue_limit: None, catch_up: true }, session, 0);
    assert!(c.message_box.common.getting_diff);
    assert!(c.message_box.channels.get(&2).unwrap().state.getting_diff);
}

#[test]
fn new_channel_box_on_first_update() {
    let mut c = client_at(100, vec![], None);
    c.chat_hashes.extend(&vec![], &vec![channel_hash(CHANNEL)]);
    c.process_container(&short(vec![in_channel(CHANNEL, 500, 3)]), 0).unwrap();
    assert_eq!(c.message_box.channels.get(&CHANNEL).unwrap().state.pts, 500);
    assert_eq!(c.updates.len(), 1);
}

#[test]
fn updates_of_no_stream_pass_through() {
    let mut c = client_at(100, vec![], None);
    let typing = RawUpdate { payload: 1, pts: None };
    c.process_container(&short(vec![typing, typing]), 0).unwrap();
    assert_eq!(c.updates.len(), 2);
    assert_eq!(c.message_box.common.pts, 100);
}

#[test]
fn verdicts() {
    assert_eq!(verdict(100, 101, 1), Verdict::InOrder);
    assert_eq!(verdict(100, 100, 0), Verdict::Stale);
    assert_eq!(verdict(100, 95, 1), Verdict::Stale);
    assert_eq!(verdict(100, 101, 2), Verdict::Stale);
    assert_eq!(verdict(100, 103, 1), Verdict::Gap);
    assert_eq!(verdict(i32::MAX - 1, i32::MAX, 1), Verdict::InOrder);
    assert_eq!(verdict(0, i32::MIN + 1, -5), Verdict::Stale);
}

#[test]
fn socket_batches_apply_each_container_in_turn() {
    let mut c = client_at(100, vec![], Some(2));
    let unknown = short(vec![in_channel(5, 3, 1)]);
    let batch = vec![
        short(vec![common(101, 1)]),
        unknown,
        short(vec![common(102, 1), common(103, 1)]),
    ];
    assert!(c.process_socket_updates(batch, 0));
    assert_eq!(c.message_box.common.pts, 103);
    assert_eq!(c.updates.len(), 2);
    assert_eq!(c.updates.dropped, 1);
    assert!(c.message_box.channels.get(&5).is_none());
    assert!(!c.process_socket_updates(vec![], 0));
    assert_eq!(drain(&mut c, 0), vec![101, 102]);
}

#[test]
fn duplicate_short_container_queues_nothing() {
    let mut c = client_at(100, vec![], None);
    let container = short(vec![common(104, 1), common(102, 2), common(101, 1)]);
    c.process_container(&container, 0).unwrap();
    assert_eq!(c.updates.len(), 1);
    assert_eq!(c.message_box.common.pts, 102);
    assert_eq!(c.message_box.pending.len(), 1);
    c.process_container(&container, 0).unwrap();
    assert_eq!(c.updates.len(), 1);
    assert_eq!(c.message_box.common.pts, 102);
}
