use naia_server::keys::{ComponentKind, RoomKey};
use naia_server::world_record::{GlobalEntityRecord, WorldRecord};

const POS: ComponentKind = ComponentKind(1);
const VEL: ComponentKind = ComponentKind(2);

#[test]
fn entities_get_consecutive_handles_that_lead_back_to_them() {
    let mut w = WorldRecord::<u64>::new();
    w.spawn_entity(&10);
    w.spawn_entity(&20);
    assert!(w.has_entity(&10));
    assert_eq!(w.entity_to_handle(&10), 0);
    assert_eq!(w.entity_to_handle(&20), 1);
    assert_eq!(w.handle_to_entity(&0), 10);
    assert_eq!(w.handle_to_entity(&1), 20);

    let record = w.despawn_entity(&10).unwrap();
    assert_eq!(record.entity_handle, 0);
    assert!(!w.has_entity(&10));
    // the handle stays handed out; the next entity gets a fresh one
    assert_eq!(w.handle_to_entity(&0), 10);
    w.spawn_entity(&30);
    assert_eq!(w.entity_to_handle(&30), 2);
}

#[test]
fn component_kinds_are_listed_in_the_order_added() {
    let mut w = WorldRecord::<u64>::new();
    assert_eq!(w.component_kinds(&1), None);
    w.spawn_entity(&1);
    assert_eq!(w.component_kinds(&1), Some(vec![]));
    w.add_component(&1, &VEL);
    w.add_component(&1, &POS);
    w.add_component(&1, &VEL);
    assert_eq!(w.component_kinds(&1), Some(vec![VEL, POS]));
    w.remove_component(&1, &VEL);
    assert_eq!(w.component_kinds(&1), Some(vec![POS]));
}

#[test]
fn an_entity_belongs_to_one_room_at_a_time() {
    let mut w = WorldRecord::<u64>::new();
    let room = RoomKey::from_u64(4);
    w.spawn_entity(&1);
    assert!(!w.entity_is_in_room(&1, &room));
    w.entity_enter_room(&1, &room);
    assert!(w.entity_is_in_room(&1, &room));
    assert!(!w.entity_is_in_room(&1, &RoomKey::from_u64(5)));
    w.entity_leave_rooms(&1);
    assert!(!w.entity_is_in_room(&1, &room));
    // an unrecorded entity is in no room, and entering changes nothing
    w.entity_enter_room(&2, &room);
    assert!(!w.entity_is_in_room(&2, &room));
}

#[test]
fn a_new_record_has_no_room_and_no_component() {
    let r = GlobalEntityRecord::new(9);
    assert_eq!(r.entity_handle, 9);
    assert_eq!(r.room_key, None);
    assert!(r.component_kinds.to_vec().is_empty());
}
