use naia_server::receive::{heartbeat_action, packet_route, scope_action, HeartbeatAction, PacketKind, PacketRoute, ScopeAction};
use naia_server::handshake::{challenge_response_payload, decide_connect_request, ChallengeKey, ConnectDecision};
use naia_server::keys::UserKey;
use naia_server::ping_manager::PingManager;
use naia_server::sequence_list::{sequence_greater_than, sequence_less_than, SequenceList};

#[test]
fn pong_echoes_the_ping_index() {
    let pm = PingManager::new();
    assert_eq!(pm.process_ping(&[0x12, 0x34, 0xff]), vec![0x12, 0x34]);
    assert_eq!(pm.process_ping(&[0, 7]), vec![0, 7]);
}

#[test]
fn challenge_response_is_tick_timestamp_digest() {
    let r = challenge_response_payload(0x0102, &vec![9, 8, 7], &vec![0xaa, 0xbb]);
    assert_eq!(r, vec![0x01, 0x02, 9, 8, 7, 0xaa, 0xbb]);
}

#[test]
fn connect_request_decisions() {
    let u = UserKey::from_u64(4);
    assert_eq!(decide_connect_request(Some(u), true, true, false, false), ConnectDecision::Reaccept(u));
    assert_eq!(decide_connect_request(Some(u), true, false, true, true), ConnectDecision::Disconnect(u));
    assert_eq!(decide_connect_request(Some(u), false, true, true, true), ConnectDecision::Ignore);
    assert_eq!(decide_connect_request(None, false, false, true, true), ConnectDecision::Accept);
    assert_eq!(decide_connect_request(None, false, false, false, true), ConnectDecision::Reject);
    assert_eq!(decide_connect_request(None, false, false, true, false), ConnectDecision::Reject);
}

#[test]
fn sequence_order_wraps() {
    assert!(sequence_greater_than(1, 65535));
    assert!(sequence_less_than(65535, 1));
    assert!(sequence_greater_than(100, 50));
    assert!(!sequence_greater_than(50, 50));
    assert!(sequence_greater_than(32768, 0));
    assert!(!sequence_greater_than(32769, 0));
}

#[test]
fn sequence_list_keeps_ids_in_order() {
    let mut l = SequenceList::<&str>::new();
    l.insert_scan_from_back(5, "five");
    l.insert_scan_from_back(7, "seven");
    l.insert_scan_from_back(6, "six");
    assert!(l.contains_scan_from_back(&6));
    assert!(!l.contains_scan_from_back(&8));
    assert_eq!(l.front().map(|p| p.0), Some(5));
    if let Some(item) = l.get_mut_scan_from_back(&7) {
        *item = "SEVEN";
    }
    assert_eq!(l.remove_scan_from_front(&6), Some("six"));
    assert_eq!(l.remove_scan_from_front(&6), None);
    assert_eq!(l.pop_front(), (5, "five"));
    assert_eq!(l.pop_front(), (7, "SEVEN"));
}

#[test]
fn challenge_answers_carry_a_digest_the_key_accepts() {
    let key = ChallengeKey::new().expect("the system random source works");
    let timestamp = vec![0, 0, 0, 0, 0, 1, 2, 3];
    let answer = key.challenge_response(0x0102, &timestamp);
    // tick, timestamp, then a SHA-256 tag
    assert_eq!(answer.len(), 2 + timestamp.len() + 32);
    assert_eq!(&answer[..2], &[0x01, 0x02]);
    assert_eq!(&answer[2..10], &timestamp[..]);
    let digest = answer[10..].to_vec();
    assert_eq!(key.connect_request(None, false, false, &timestamp, &digest, true), ConnectDecision::Accept);
    assert_eq!(key.connect_request(None, false, false, &timestamp, &digest, false), ConnectDecision::Reject);
    let mut forged = digest.clone();
    forged[0] ^= 1;
    assert_eq!(key.connect_request(None, false, false, &timestamp, &forged, true), ConnectDecision::Reject);
    // the digest belongs to its timestamp: it does not admit another one
    let later = vec![0, 0, 0, 0, 0, 1, 2, 4];
    assert_eq!(key.connect_request(None, false, false, &later, &digest, true), ConnectDecision::Reject);
    // a digest from another server's key is refused
    let other = ChallengeKey::new().expect("the system random source works");
    assert_eq!(other.connect_request(None, false, false, &timestamp, &digest, true), ConnectDecision::Reject);
    let u = UserKey::from_u64(3);
    assert_eq!(key.connect_request(Some(u), true, true, &timestamp, &forged, false), ConnectDecision::Reaccept(u));
}

#[test]
fn heartbeats_skip_timed_out_connections() {
    assert_eq!(heartbeat_action(true, true), HeartbeatAction::Disconnect);
    assert_eq!(heartbeat_action(true, false), HeartbeatAction::Disconnect);
    assert_eq!(heartbeat_action(false, true), HeartbeatAction::SendHeartbeat);
    assert_eq!(heartbeat_action(false, false), HeartbeatAction::Nothing);
}

#[test]
fn packets_reach_only_established_connections() {
    let u = UserKey::from_u64(3);
    assert_eq!(packet_route(PacketKind::ClientChallengeRequest, None, false), PacketRoute::AnswerChallenge);
    assert_eq!(packet_route(PacketKind::ClientConnectRequest, Some(u), true), PacketRoute::DecideConnect);
    assert_eq!(packet_route(PacketKind::Data, Some(u), true), PacketRoute::Process(u));
    assert_eq!(packet_route(PacketKind::Heartbeat, Some(u), false), PacketRoute::Unauthenticated);
    assert_eq!(packet_route(PacketKind::Ping, None, false), PacketRoute::Ignore);
    assert_eq!(packet_route(PacketKind::Other, Some(u), true), PacketRoute::Ignore);
}

#[test]
fn the_scope_pass_adds_pawns_and_admitted_actors_and_removes_the_rest() {
    assert_eq!(scope_action(false, true, false), ScopeAction::Add);
    assert_eq!(scope_action(false, false, true), ScopeAction::Add);
    assert_eq!(scope_action(true, true, true), ScopeAction::Keep);
    assert_eq!(scope_action(true, false, false), ScopeAction::Remove);
    assert_eq!(scope_action(false, false, false), ScopeAction::Keep);
}

#[test]
fn sequence_list_keeps_wrapping_order_and_finds_what_it_holds() {
    let mut l = SequenceList::<u8>::new();
    // ids across the wrap, inserted out of order
    for id in [65534u16, 2, 65530, 0] {
        assert!(!l.contains_scan_from_back(&id));
        l.insert_scan_from_back(id, 0);
        assert!(l.contains_scan_from_back(&id));
    }
    assert!(!l.contains_scan_from_back(&1));
    assert!(!l.contains_scan_from_back(&65532));
    let mut ids = Vec::new();
    while l.front().is_some() {
        ids.push(l.pop_front().0);
    }
    assert_eq!(ids, vec![65530, 65534, 0, 2]);
    for w in ids.windows(2) {
        assert!(sequence_less_than(w[0], w[1]));
    }
}
