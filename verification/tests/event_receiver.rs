use naia_server::coord::CoordHandle;
use naia_server::event_receiver::{EventReceiver, ReceiveOutput, RecvTickEvent};
use naia_server::keys::{ChannelKind, ComponentKind, MessageKind, UserKey};

#[test]
fn resource_despawns_are_hidden_and_server_spawns_are_not_passed_on() {
    let mut coord = CoordHandle::<u64>::new();
    coord.enable_entity_replication(&1);
    coord.enable_entity_replication(&2);
    let g2 = coord.shared.global_entity_map.entity_to_global_entity(&2).unwrap();
    coord.state.resource_registry.insert(ComponentKind(9), g2);

    let mut out = ReceiveOutput::<u64>::new();
    out.pending_ticks.push(7);
    out.spawns.push((UserKey(1), 1));
    out.despawns.push((UserKey(1), 1));
    out.despawns.push((UserKey(1), 2));
    let mut rx = EventReceiver::<u64>::new();
    rx.push_from_receive_output(&coord, out);

    assert_eq!(rx.drain_tick_events(), vec![RecvTickEvent(7)]);
    // entity 1 is server-owned: its spawn is not a client spawn
    assert!(rx.drain_spawn_entity_events().is_empty());
    let despawns = rx.drain_despawn_entity_events();
    assert_eq!(despawns.len(), 1);
    assert_eq!(despawns[0].entity, 1);
    assert!(rx.drain_despawn_entity_events().is_empty());
}

#[test]
fn messages_drain_by_channel_and_kind_in_order() {
    let coord = CoordHandle::<u64>::new();
    let mut out = ReceiveOutput::<u64>::new();
    out.messages.push((ChannelKind(1), MessageKind(1), UserKey(1), vec![1]));
    out.messages.push((ChannelKind(2), MessageKind(1), UserKey(2), vec![2]));
    out.messages.push((ChannelKind(1), MessageKind(1), UserKey(3), vec![3]));
    let mut rx = EventReceiver::<u64>::new();
    rx.push_from_receive_output(&coord, out);
    assert_eq!(
        rx.drain_messages(ChannelKind(1), MessageKind(1)),
        vec![(UserKey(1), vec![1]), (UserKey(3), vec![3])]
    );
    assert_eq!(rx.drain_messages(ChannelKind(1), MessageKind(1)), vec![]);
    assert_eq!(rx.drain_messages(ChannelKind(2), MessageKind(1)), vec![(UserKey(2), vec![2])]);
}

#[test]
fn single_events_are_pushed_in_order() {
    let mut rx = EventReceiver::<u64>::new();
    rx.push_tick(1);
    rx.push_tick(2);
    rx.push_connect(UserKey(5));
    rx.push_despawn(UserKey(5), 40);
    rx.push_message(ChannelKind(3), MessageKind(4), UserKey(5), vec![9]);
    rx.push_error("late".to_string());
    assert_eq!(rx.drain_tick_events(), vec![RecvTickEvent(1), RecvTickEvent(2)]);
    assert_eq!(rx.drain_connect_events().len(), 1);
    assert_eq!(rx.drain_despawn_entity_events()[0].entity, 40);
    assert_eq!(rx.drain_messages(ChannelKind(3), MessageKind(4)), vec![(UserKey(5), vec![9])]);
    assert_eq!(rx.drain_error_events()[0].error, "late");
    assert!(rx.drain_spawn_entity_events().is_empty());
}
