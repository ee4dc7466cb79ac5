use std::collections::HashMap;

use naia_server::entity_manager::{contains_kind, EntityManager, ACTION_RECORD_TTL_MS};
use naia_server::keys::ComponentKind;
use naia_server::world_channel::{ActionRecord, EntityActionEvent};

const POS: ComponentKind = ComponentKind(1);

fn world() -> HashMap<u64, Vec<ComponentKind>> {
    let mut w = HashMap::new();
    w.insert(1u64, vec![POS]);
    w
}

#[test]
fn written_actions_are_recorded_and_dequeued() {
    let mut em = EntityManager::<u64>::new();
    em.spawn_entity(&1);
    assert!(em.scope_has_entity(&1));
    em.collect_next_actions(vec![
        (10, EntityActionEvent::SpawnEntity(1)),
        (11, EntityActionEvent::InsertComponent(1, POS)),
        (12, EntityActionEvent::RemoveComponent(1, POS)),
    ]);
    assert!(em.has_outgoing_messages());
    let written = em.write_actions(&world(), 1000, 4, 2);
    assert_eq!(written.len(), 2);
    match &written[0] {
        ActionRecord::SpawnEntity(e, kinds) => {
            assert_eq!(*e, 1);
            assert_eq!(kinds, &vec![POS]);
        }
        _ => panic!("a spawn is written as a spawn with the entity's components"),
    }
    // the channel is not spawned yet, so the insert goes out as a no-op
    assert!(matches!(written[1], ActionRecord::Noop));
    assert!(em.has_outgoing_messages());

    let delivered = em.notify_packet_delivered(4);
    assert_eq!(delivered.len(), 2);
    assert_eq!(delivered[0].0, 10);
    assert_eq!(delivered[1].0, 11);
    // a second delivery of the same packet hands back nothing
    assert!(em.notify_packet_delivered(4).is_empty());
}

#[test]
fn inserts_resolve_against_the_world_once_the_channel_is_open() {
    let mut em = EntityManager::<u64>::new();
    em.spawn_entity(&1);
    em.collect_next_actions(vec![(0, EntityActionEvent::SpawnEntity(1))]);
    let written = em.write_actions(&world(), 0, 1, 1);
    for (_, action) in em.notify_packet_delivered(1) {
        assert!(matches!(action, ActionRecord::SpawnEntity(1, _)));
    }
    assert_eq!(written.len(), 1);
    assert!(!em.entity_channel_is_open(&1));
    assert_eq!(em.entity_to_net_entity(&1), 0);
    assert_eq!(em.net_entity_to_entity(&0), 1);
}

#[test]
fn expired_packet_records_are_dropped_oldest_first() {
    let mut em = EntityManager::<u64>::new();
    em.spawn_entity(&1);
    em.collect_next_actions(vec![
        (0, EntityActionEvent::SpawnEntity(1)),
        (1, EntityActionEvent::DespawnEntity(1)),
    ]);
    em.write_actions(&world(), 0, 1, 1);
    em.write_actions(&world(), 50_000, 2, 1);
    // at 70 s only the first record has outlived the time to live
    em.collect_dropped_action_packets(70_000);
    assert!(em.notify_packet_delivered(1).is_empty());
    assert_eq!(em.notify_packet_delivered(2).len(), 1);
    assert_eq!(ACTION_RECORD_TTL_MS, 60_000);
}

#[test]
fn kinds_lookup() {
    assert!(contains_kind(&vec![ComponentKind(3), POS], &POS));
    assert!(!contains_kind(&vec![ComponentKind(3)], &POS));
}

#[test]
fn delivery_hands_back_everything_written_into_the_packet() {
    let mut em = EntityManager::<u64>::new();
    em.spawn_entity(&1);
    em.spawn_entity(&2);
    em.collect_next_actions(vec![
        (20, EntityActionEvent::SpawnEntity(1)),
        (21, EntityActionEvent::SpawnEntity(2)),
    ]);
    em.write_actions(&world(), 5, 9, 1);
    em.write_actions(&world(), 6, 9, 1);
    let delivered = em.notify_packet_delivered(9);
    let ids: Vec<u16> = delivered.iter().map(|p| p.0).collect();
    assert_eq!(ids, vec![20, 21]);
    match &delivered[1].1 {
        ActionRecord::SpawnEntity(e, kinds) => {
            assert_eq!(*e, 2);
            assert!(kinds.is_empty());
        }
        _ => panic!("the second write was a spawn"),
    }
}

#[test]
fn an_acknowledged_component_gets_its_changes_sent() {
    let mut em = EntityManager::<u64>::new();
    em.spawn_entity(&1);
    em.insert_component(&1, &POS);
    em.collect_next_actions(vec![(0, EntityActionEvent::SpawnEntity(1))]);
    em.write_actions(&world(), 0, 1, 1);
    for (_, action) in em.notify_packet_delivered(1) {
        assert!(em.apply_delivered_action(&action));
    }
    assert!(em.entity_channel_is_open(&1));
    // the same acknowledgement does not fit the channel any more
    assert!(!em.apply_delivered_action(&ActionRecord::SpawnEntity(1, vec![POS])));

    em.register_component(&1, &POS, 1);
    em.collect_component_updates();
    assert!(!em.has_outgoing_messages());
    em.mutate(&1, &POS, 3);
    em.collect_component_updates();
    assert!(em.has_outgoing_messages());
    assert_eq!(em.update_entities(), vec![1]);
    let written = em.write_updates(10, 2, &vec![1]);
    assert_eq!(written.len(), 1);
    assert_eq!(written[0].0, 1);
    assert_eq!(written[0].1.len(), 1);
    assert_eq!(written[0].1[0].0, POS);
    assert_eq!(written[0].1[0].1.byte(0), 0b1000);
    assert!(!em.has_outgoing_messages());
    // the update packet is delivered: nothing is re-marked when it would have been lost
    em.notify_packet_delivered(2);
    em.dropped_update_cleanup(2);
    em.collect_component_updates();
    assert!(!em.has_outgoing_messages());
}
