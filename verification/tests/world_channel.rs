use naia_server::keys::ComponentKind;
use naia_server::world_channel::{ActionRecord, ComponentChannel, EntityActionEvent, NetKeyGenerator, WorldChannel};

const POS: ComponentKind = ComponentKind(1);
const VEL: ComponentKind = ComponentKind(2);
const HP: ComponentKind = ComponentKind(3);

#[test]
fn spawning_opens_a_channel_with_the_first_net_key() {
    let mut ch = WorldChannel::<u64>::new();
    ch.host_spawn_entity(&7);
    assert!(ch.host_has_entity(&7));
    assert!(!ch.entity_channel_is_open(&7));
    assert_eq!(ch.entity_to_net_entity(&7), Some(0));
    assert_eq!(ch.net_entity_to_entity(&0), Some(7));
    assert_eq!(ch.outgoing_actions(), vec![EntityActionEvent::SpawnEntity(7)]);
    // spawning again changes nothing
    ch.host_spawn_entity(&7);
    assert_eq!(ch.outgoing_actions().len(), 1);
}

#[test]
fn acknowledged_spawn_inserts_missing_components_and_removes_dropped_ones() {
    let mut ch = WorldChannel::<u64>::new();
    ch.host_spawn_entity(&1);
    ch.host_insert_component(&1, &POS);
    ch.host_insert_component(&1, &VEL);
    // the client reports holding VEL and HP; the host no longer has HP
    ch.remote_spawn_entity(&1, &vec![VEL, HP]);
    assert!(ch.entity_channel_is_open(&1));
    assert_eq!(
        ch.outgoing_actions(),
        vec![
            EntityActionEvent::SpawnEntity(1),
            EntityActionEvent::InsertComponent(1, POS),
            EntityActionEvent::RemoveComponent(1, HP),
        ]
    );
}

#[test]
fn acknowledged_spawn_of_an_entity_gone_from_the_host_despawns_it() {
    let mut ch = WorldChannel::<u64>::new();
    ch.host_spawn_entity(&1);
    ch.host_despawn_entity(&1);
    assert!(!ch.host_has_entity(&1));
    ch.remote_spawn_entity(&1, &vec![]);
    assert_eq!(
        ch.outgoing_actions(),
        vec![EntityActionEvent::SpawnEntity(1), EntityActionEvent::DespawnEntity(1)]
    );
    // once the despawn is acknowledged the key is returned and no channel is left
    ch.remote_despawn_entity(&1);
    assert_eq!(ch.entity_to_net_entity(&1), None);
    assert_eq!(ch.net_entity_to_entity(&0), None);
}

#[test]
fn component_round_trip_on_a_spawned_channel() {
    let mut ch = WorldChannel::<u64>::new();
    ch.host_spawn_entity(&5);
    ch.remote_spawn_entity(&5, &vec![]);
    ch.host_insert_component(&5, &POS);
    ch.remote_insert_component(&5, &POS);
    ch.host_remove_component(&5, &POS);
    ch.remote_remove_component(&5, &POS);
    assert_eq!(
        ch.outgoing_actions(),
        vec![
            EntityActionEvent::SpawnEntity(5),
            EntityActionEvent::InsertComponent(5, POS),
            EntityActionEvent::RemoveComponent(5, POS),
        ]
    );
}

#[test]
fn removal_acknowledged_after_the_host_readds_sends_an_insert() {
    let mut ch = WorldChannel::<u64>::new();
    ch.host_spawn_entity(&5);
    ch.remote_spawn_entity(&5, &vec![]);
    ch.host_insert_component(&5, &POS);
    ch.remote_insert_component(&5, &POS);
    ch.host_remove_component(&5, &POS);
    ch.host_insert_component(&5, &POS);
    ch.remote_remove_component(&5, &POS);
    assert_eq!(
        ch.outgoing_actions().last(),
        Some(&EntityActionEvent::InsertComponent(5, POS))
    );
}

#[test]
fn despawn_acknowledged_after_a_respawn_reopens_the_channel() {
    let mut ch = WorldChannel::<u64>::new();
    ch.host_spawn_entity(&9);
    ch.remote_spawn_entity(&9, &vec![]);
    ch.host_despawn_entity(&9);
    ch.host_spawn_entity(&9);
    ch.remote_despawn_entity(&9);
    // fresh keys are handed out first, so the reopened channel gets key 1
    assert_eq!(ch.entity_to_net_entity(&9), Some(1));
    assert_eq!(
        ch.outgoing_actions(),
        vec![
            EntityActionEvent::SpawnEntity(9),
            EntityActionEvent::DespawnEntity(9),
            EntityActionEvent::SpawnEntity(9),
        ]
    );
}

#[test]
fn delivered_actions_are_dispatched() {
    let mut ch = WorldChannel::<u64>::new();
    ch.host_spawn_entity(&3);
    ch.host_insert_component(&3, &POS);
    ch.apply_delivered_action(&ActionRecord::SpawnEntity(3, vec![]));
    assert!(ch.entity_channel_is_open(&3));
    ch.apply_delivered_action(&ActionRecord::Noop);
    ch.apply_delivered_action(&ActionRecord::InsertComponent(3, POS));
    assert_eq!(ch.outgoing_actions().len(), 2);
}

#[test]
fn key_generator_hands_out_fresh_keys_then_returned_ones() {
    let mut g = NetKeyGenerator::new();
    assert_eq!(g.generate(), 0);
    assert_eq!(g.generate(), 1);
    g.recycle_key(0);
    // fresh keys remain, so the returned key waits
    assert_eq!(g.generate(), 2);
}

#[test]
fn component_channel_states_compare() {
    assert_ne!(ComponentChannel::Inserting, ComponentChannel::Inserted);
    assert_eq!(ComponentChannel::Removing, ComponentChannel::Removing);
}
