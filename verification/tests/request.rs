use naia_server::keys::{ChannelKind, UserKey};
use naia_server::request::{
    GlobalRequestId, GlobalRequestManager, GlobalResponseManager, LocalRequestId, LocalResponseId,
    MAX_OUTSTANDING_RESPONSES_PER_USER,
};

fn channel() -> ChannelKind {
    ChannelKind(3)
}

fn response_id(i: u16) -> LocalResponseId {
    LocalRequestId::new(i).receive_from_remote()
}

/// A user's requests only leave this map when the application answers them,
/// and nothing obliges an application to answer.
#[test]
fn unanswered_requests_from_one_user_cannot_grow_without_bound() {
    let mut manager = GlobalResponseManager::new();
    let user = UserKey::from_u64(1);

    for i in 0..(MAX_OUTSTANDING_RESPONSES_PER_USER as u16 * 8) {
        manager.create_response_id(&user, &channel(), &response_id(i));
    }

    assert_eq!(manager.outstanding(), MAX_OUTSTANDING_RESPONSES_PER_USER);
    assert_eq!(
        manager.order_len(&user),
        Some(MAX_OUTSTANDING_RESPONSES_PER_USER),
    );
}

/// Eviction is oldest-first, and an evicted request is no longer routable.
#[test]
fn the_oldest_unanswered_request_is_the_one_dropped() {
    let mut manager = GlobalResponseManager::new();
    let user = UserKey::from_u64(1);

    let oldest = manager.create_response_id(&user, &channel(), &response_id(0));
    for i in 1..=(MAX_OUTSTANDING_RESPONSES_PER_USER as u16) {
        manager.create_response_id(&user, &channel(), &response_id(i));
    }

    assert!(
        manager.peek_response_id(&oldest).is_none(),
        "the oldest request is no longer routable"
    );
}

/// The bound is per user: one user flooding requests must not evict the
/// pending work of a well-behaved user sharing the server.
#[test]
fn one_user_flooding_does_not_evict_another_users_request() {
    let mut manager = GlobalResponseManager::new();
    let quiet = UserKey::from_u64(1);
    let flooder = UserKey::from_u64(2);

    let quiet_request = manager.create_response_id(&quiet, &channel(), &response_id(0));
    for i in 0..(MAX_OUTSTANDING_RESPONSES_PER_USER as u16 * 4) {
        manager.create_response_id(&flooder, &channel(), &response_id(i));
    }

    assert!(
        manager.peek_response_id(&quiet_request).is_some(),
        "the quiet user's request survives the flood"
    );
}

/// Answered requests must not count toward the cap, and the ordering queue
/// must not accumulate them.
#[test]
fn answered_requests_do_not_consume_the_cap() {
    let mut manager = GlobalResponseManager::new();
    let user = UserKey::from_u64(1);

    for i in 0..(MAX_OUTSTANDING_RESPONSES_PER_USER as u16 * 8) {
        let id = manager.create_response_id(&user, &channel(), &response_id(i));
        manager.destroy_response_id(&id);
    }

    assert_eq!(manager.outstanding(), 0);
    assert!(
        manager.order_len(&user).unwrap_or(0) <= 1,
        "the ordering queue does not accumulate answered ids"
    );
}

/// A disconnect must drop the ordering queue too, not just the routing map.
#[test]
fn purging_a_user_clears_the_ordering_queue() {
    let mut manager = GlobalResponseManager::new();
    let user = UserKey::from_u64(1);

    for i in 0..64u16 {
        manager.create_response_id(&user, &channel(), &response_id(i));
    }
    manager.purge_user(&user);

    assert_eq!(manager.outstanding(), 0);
    assert_eq!(manager.order_len(&user), None);
}

#[test]
fn response_routes_carry_their_origin() {
    let mut manager = GlobalResponseManager::new();
    let user = UserKey::from_u64(5);
    let id = manager.create_response_id(&user, &channel(), &response_id(9));
    assert_eq!(id.0, 0);
    assert_eq!(manager.peek_response_id(&id), Some((user, channel(), LocalResponseId(9))));
    assert_eq!(manager.destroy_response_id(&id), Some((user, channel(), LocalResponseId(9))));
    assert_eq!(manager.destroy_response_id(&id), None);
    let next = manager.create_response_id(&user, &channel(), &response_id(10));
    assert_eq!(next.0, 1);
}

#[test]
fn purging_one_user_keeps_the_others() {
    let mut manager = GlobalResponseManager::new();
    let a = UserKey::from_u64(1);
    let b = UserKey::from_u64(2);
    let ra = manager.create_response_id(&a, &channel(), &response_id(0));
    let rb = manager.create_response_id(&b, &channel(), &response_id(0));
    manager.purge_user(&a);
    assert!(manager.peek_response_id(&ra).is_none());
    assert!(manager.peek_response_id(&rb).is_some());
    assert_eq!(manager.outstanding(), 1);
}

#[test]
fn requests_are_answered_once() {
    let mut manager: GlobalRequestManager<Vec<u8>> = GlobalRequestManager::new();
    let user = UserKey::from_u64(3);
    let id = manager.create_request_id(&user);
    assert_eq!(id, GlobalRequestId(0));
    // no answer yet: nothing to take, and the request stays
    assert_eq!(manager.destroy_request_id(&id), None);
    manager.receive_response(&id, vec![1, 2, 3]);
    assert_eq!(manager.destroy_request_id(&id), Some((user, vec![1, 2, 3])));
    assert_eq!(manager.destroy_request_id(&id), None);
    // an answer to an unknown request is dropped
    manager.receive_response(&GlobalRequestId(77), vec![9]);
    assert_eq!(manager.destroy_request_id(&GlobalRequestId(77)), None);
}

#[test]
fn purging_a_user_drops_their_requests() {
    let mut manager: GlobalRequestManager<u8> = GlobalRequestManager::new();
    let a = UserKey::from_u64(1);
    let b = UserKey::from_u64(2);
    let ra = manager.create_request_id(&a);
    let rb = manager.create_request_id(&b);
    manager.receive_response(&ra, 1);
    manager.receive_response(&rb, 2);
    manager.purge_user(&a);
    assert_eq!(manager.destroy_request_id(&ra), None);
    assert_eq!(manager.destroy_request_id(&rb), Some((b, 2)));
}
