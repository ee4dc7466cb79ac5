use naia_server::keys::{GlobalEntity, UserKey};
use naia_server::room::Room;

#[test]
fn unsubscribing_queues_one_exit_per_entity() {
    let mut room = Room::new();
    let u = UserKey(1);
    room.subscribe_user(&u);
    room.subscribe_user(&u);
    assert_eq!(room.users_count(), 1);
    room.add_entity(&GlobalEntity(10));
    room.add_entity(&GlobalEntity(11));
    room.add_entity(&GlobalEntity(10));
    assert_eq!(room.entities(), vec![GlobalEntity(10), GlobalEntity(11)]);
    room.unsubscribe_user(&u);
    assert!(!room.has_user(&u));
    assert_eq!(room.entity_removal_queue_len(), 2);
    assert_eq!(room.pop_entity_removal_queue(), Some((u, GlobalEntity(10))));
    assert_eq!(room.pop_entity_removal_queue(), Some((u, GlobalEntity(11))));
    assert_eq!(room.pop_entity_removal_queue(), None);
}

#[test]
fn removing_an_entity_queues_exits_unless_despawned() {
    let mut room = Room::new();
    room.subscribe_user(&UserKey(1));
    room.subscribe_user(&UserKey(2));
    room.add_entity(&GlobalEntity(5));
    room.add_entity(&GlobalEntity(6));
    assert!(room.remove_entity(&GlobalEntity(5), false));
    assert_eq!(room.entity_removal_queue_len(), 2);
    assert!(room.remove_entity(&GlobalEntity(6), true));
    assert_eq!(room.entity_removal_queue_len(), 2);
    assert_eq!(room.entities_count(), 0);
    assert_eq!(room.clear_entity_removal_queue(), 2);
    assert_eq!(room.entity_removal_queue_len(), 0);
    assert_eq!(room.user_keys(), vec![UserKey(1), UserKey(2)]);
}
