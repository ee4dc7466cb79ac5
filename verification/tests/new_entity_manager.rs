use std::collections::HashMap;

use naia_server::entity_action::EntityAction;
use naia_server::keys::ComponentKind;
use naia_server::new_entity_manager::{NewEntityManager, PACKET_RECORD_TTL_MS};

const POS: ComponentKind = ComponentKind(1);

fn world() -> HashMap<u64, Vec<ComponentKind>> {
    HashMap::new()
}

#[test]
fn spawning_queues_a_spawn_under_the_first_action_id() {
    let mut m = NewEntityManager::<u64>::new();
    m.spawn_entity(&1);
    assert!(m.scope_has_entity(&1));
    assert!(!m.has_synced_entity(&1));
    assert_eq!(m.entity_to_net_entity(&1), 0);
    assert_eq!(m.net_entity_to_entity(&0), 1);
    assert!(!m.has_outgoing_messages());
    m.collect_outgoing_messages(1000, 150, 150);
    assert!(m.has_outgoing_messages());
    let written = m.write_actions(&world(), 1000, 5, 1);
    assert_eq!(written, vec![EntityAction::SpawnEntity(1)]);
    assert!(!m.has_outgoing_messages());
    // not due again within the resend window
    m.collect_next_actions(1100, 150);
    assert!(!m.has_outgoing_messages());
    // due again once it has passed
    m.collect_next_actions(1200, 150);
    assert!(m.has_outgoing_messages());
}

#[test]
fn queued_actions_go_out_in_action_id_order() {
    let mut m = NewEntityManager::<u64>::new();
    for e in [10u64, 20, 30] {
        m.spawn_entity(&e);
    }
    m.collect_next_actions(0, 100);
    let written = m.write_actions(&world(), 0, 1, 2);
    assert_eq!(written, vec![EntityAction::SpawnEntity(10), EntityAction::SpawnEntity(20)]);
    let rest = m.write_actions(&world(), 0, 2, 1);
    assert_eq!(rest, vec![EntityAction::SpawnEntity(30)]);
}

#[test]
fn a_despawn_before_delivery_turns_the_spawn_into_a_noop() {
    let mut m = NewEntityManager::<u64>::new();
    m.spawn_entity(&7);
    m.despawn_entity(&7);
    assert!(!m.scope_has_entity(&7));
    m.collect_next_actions(0, 100);
    let written = m.write_actions(&world(), 0, 3, 1);
    assert_eq!(written, vec![EntityAction::Noop]);
}

#[test]
fn delivered_packets_stop_their_actions_awaiting_delivery() {
    let mut m = NewEntityManager::<u64>::new();
    m.spawn_entity(&1);
    m.collect_next_actions(0, 100);
    m.write_actions(&world(), 0, 4, 1);
    m.notify_packet_delivered(4);
    m.process_delivered_packets();
    // the action is no longer awaiting delivery, so nothing is re-sent
    m.collect_next_actions(10_000, 100);
    assert!(!m.has_outgoing_messages());
}

#[test]
fn expired_records_are_dropped_and_their_actions_resent() {
    let mut m = NewEntityManager::<u64>::new();
    m.spawn_entity(&1);
    m.collect_next_actions(0, 100);
    m.write_actions(&world(), 0, 4, 1);
    m.collect_dropped_action_packets(PACKET_RECORD_TTL_MS + 1);
    // the dropped record means a late delivery acknowledges nothing
    m.notify_packet_delivered(4);
    m.process_delivered_packets();
    m.collect_next_actions(PACKET_RECORD_TTL_MS + 1, 100);
    assert!(m.has_outgoing_messages());
}

#[test]
fn inserts_outside_the_scope_or_before_the_client_holds_the_entity_send_nothing() {
    let mut m = NewEntityManager::<u64>::new();
    m.insert_component(&1, &POS);
    m.spawn_entity(&1);
    m.insert_component(&1, &POS);
    m.remove_component(&1, &POS);
    m.collect_next_actions(0, 100);
    let written = m.write_actions(&world(), 0, 1, 1);
    assert_eq!(written, vec![EntityAction::SpawnEntity(1)]);
    assert!(!m.has_outgoing_messages());
}

#[test]
fn changed_components_the_client_does_not_hold_are_not_due() {
    let mut m = NewEntityManager::<u64>::new();
    m.spawn_entity(&1);
    m.insert_component(&1, &POS);
    m.register_component(&1, &POS, 1);
    m.mutate(&1, &POS, 0);
    m.collect_component_updates();
    assert!(m.update_entities().is_empty());
    m.collect_outgoing_messages(0, 100, 100);
    // only the spawn is due; the client holds no component to update
    let written = m.write_actions(&world(), 0, 1, 1);
    assert_eq!(written, vec![EntityAction::SpawnEntity(1)]);
    assert!(!m.has_outgoing_messages());
    m.deregister_component(&1, &POS);
}
