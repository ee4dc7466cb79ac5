use naia_server::keys::ComponentKind;
use naia_server::sync_world::{ComponentDiffAction, ComponentDiffResult, EntityDiffResult, MiniWorld, SyncWorld, UpdateResult};

const POS: ComponentKind = ComponentKind(1);

#[test]
fn mini_worlds_diff_entities_and_components() {
    let mut a = MiniWorld::<u64>::new();
    let mut b = MiniWorld::<u64>::new();
    assert_eq!(a.spawn_entity(&1), UpdateResult::Changed);
    assert_eq!(a.spawn_entity(&1), UpdateResult::Unchanged);
    assert_eq!(a.entity_diff(&b, &1), EntityDiffResult::Spawn);
    assert_eq!(b.entity_diff(&a, &1), EntityDiffResult::Despawn);
    assert_eq!(a.entity_diff(&b, &2), EntityDiffResult::EqualAndEmpty);
    assert_eq!(a.component_diff(&b, &1, &POS), ComponentDiffResult::Invalid);
    b.spawn_entity(&1);
    assert_eq!(a.entity_diff(&b, &1), EntityDiffResult::EqualAndExists);
    assert_eq!(a.insert_component(&1, &POS), UpdateResult::Changed);
    assert!(a.has_component(&1, &POS));
    assert_eq!(a.component_diff(&b, &1, &POS), ComponentDiffResult::Insert);
    assert_eq!(b.component_diff(&a, &1, &POS), ComponentDiffResult::Remove);
    assert_eq!(a.remove_component(&1, &POS), UpdateResult::Changed);
    assert_eq!(a.component_diff(&b, &1, &POS), ComponentDiffResult::Equal);
    assert_eq!(a.despawn_entity(&1), UpdateResult::Changed);
    assert!(!a.has_entity(&1));
}

#[test]
fn pending_actions_follow_the_difference() {
    let mut w = SyncWorld::<u64>::new();
    w.host_spawn_entity(&1);
    assert_eq!(w.pending_action(&1), Some(EntityDiffResult::Spawn));
    w.remote_spawn_entity(&1);
    assert_eq!(w.pending_action(&1), None);
    w.host_insert_component(&1, &POS);
    assert_eq!(w.pending_component_action(&1, &POS), Some(ComponentDiffAction::Insert));
    w.remote_insert_component(&1, &POS);
    assert_eq!(w.pending_component_action(&1, &POS), None);
    w.host_despawn_entity(&1);
    assert_eq!(w.pending_action(&1), Some(EntityDiffResult::Despawn));
    w.remote_despawn_entity(&1);
    assert_eq!(w.pending_action(&1), None);
}
