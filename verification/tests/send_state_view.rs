use naia_server::coord::CoordHandle;
use naia_server::keys::ComponentKind;
use naia_server::send_state_view::SendStateView;
use naia_server::world_manager::EntityOwner;

/// Compile-time check: the bound holds.
fn assert_traits<T: Send + Sync + Clone>() {}

#[test]
fn send_state_view_is_send_sync_clone() {
    assert_traits::<SendStateView<u64>>();
}

const KIND_A: ComponentKind = ComponentKind(1);
const KIND_B: ComponentKind = ComponentKind(2);

#[test]
fn empty_server_yields_empty_view() {
    let coord = CoordHandle::<u64>::new();
    let view = coord.send_state_view();
    assert!(view.live_entities().is_empty(), "no entities → empty live");
    assert!(
        view.required_snapshot_entries().is_empty(),
        "no entities → empty required",
    );
}

#[test]
fn registered_entity_appears_in_both_views() {
    let mut coord = CoordHandle::<u64>::new();
    let world_entity: u64 = 42;
    let global_entity = coord.shared.global_entity_map.spawn(world_entity);
    coord
        .shared
        .global_world_manager
        .insert_entity_record(&global_entity, EntityOwner::Server);
    coord.shared.global_world_manager.insert_component_record(&global_entity, &KIND_A);
    coord.shared.global_world_manager.insert_component_record(&global_entity, &KIND_B);

    let view = coord.send_state_view();
    let live = view.live_entities();
    assert_eq!(live, vec![world_entity], "live should contain just the registered entity");

    let mut entries = view.required_snapshot_entries();
    entries.sort_by_key(|(_, k)| format!("{k:?}"));
    let mut expected = vec![(world_entity, KIND_A), (world_entity, KIND_B)];
    expected.sort_by_key(|(_, k)| format!("{k:?}"));
    assert_eq!(entries, expected);
}

#[test]
fn deregistered_entity_drops_from_view() {
    let mut coord = CoordHandle::<u64>::new();
    let world_entity: u64 = 7;
    let global_entity = coord.shared.global_entity_map.spawn(world_entity);
    coord
        .shared
        .global_world_manager
        .insert_entity_record(&global_entity, EntityOwner::Server);
    coord.shared.global_world_manager.insert_component_record(&global_entity, &KIND_A);

    assert_eq!(coord.send_state_view().live_entities(), vec![world_entity]);

    coord.shared.global_world_manager.remove_entity_record(&global_entity);
    coord.shared.global_entity_map.despawn(&world_entity);

    let view = coord.send_state_view();
    assert!(view.live_entities().is_empty(), "live empty after removal");
    assert!(
        view.required_snapshot_entries().is_empty(),
        "required empty after removal",
    );
}

#[test]
fn multiple_entities_yield_cross_product() {
    let mut coord = CoordHandle::<u64>::new();
    let e1: u64 = 1;
    let e2: u64 = 2;
    let g1 = coord.shared.global_entity_map.spawn(e1);
    let g2 = coord.shared.global_entity_map.spawn(e2);
    {
        let gwm = &mut coord.shared.global_world_manager;
        gwm.insert_entity_record(&g1, EntityOwner::Server);
        gwm.insert_entity_record(&g2, EntityOwner::Server);
        gwm.insert_component_record(&g1, &KIND_A);
        gwm.insert_component_record(&g1, &KIND_B);
        gwm.insert_component_record(&g2, &KIND_A);
    }

    let view = coord.send_state_view();
    let mut live = view.live_entities();
    live.sort();
    assert_eq!(live, vec![e1, e2]);

    let entries = view.required_snapshot_entries();
    assert_eq!(entries.len(), 3, "2 components on e1 + 1 on e2");
}

#[test]
fn a_view_keeps_what_it_saw() {
    let mut coord = CoordHandle::<u64>::new();
    coord.enable_entity_replication(&5);
    let view = coord.send_state_view();
    coord.enable_entity_replication(&6);
    assert_eq!(view.live_entities(), vec![5]);
    let cloned = view.clone();
    assert_eq!(cloned.live_entities(), vec![5]);
    let mut now = coord.send_state_view().live_entities();
    now.sort();
    assert_eq!(now, vec![5, 6]);
}

#[test]
fn unregistered_records_are_not_live() {
    let mut coord = CoordHandle::<u64>::new();
    let g = coord.shared.global_entity_map.spawn(9);
    coord.shared.global_entity_map.despawn(&9);
    coord
        .shared
        .global_world_manager
        .insert_entity_record(&g, EntityOwner::Server);
    coord.shared.global_world_manager.insert_component_record(&g, &KIND_A);
    let view = coord.send_state_view();
    assert!(view.live_entities().is_empty());
    assert!(view.required_snapshot_entries().is_empty());
}

#[test]
fn a_view_from_the_shared_state_matches_the_handles_view() {
    let mut coord = CoordHandle::<u64>::new();
    for world_entity in [5u64, 6, 7] {
        let g = coord.shared.global_entity_map.spawn(world_entity);
        coord.shared.global_world_manager.insert_entity_record(&g, EntityOwner::Server);
        coord.shared.global_world_manager.insert_component_record(&g, &KIND_A);
        if world_entity != 6 {
            coord.shared.global_world_manager.insert_component_record(&g, &KIND_B);
            // recording a kind twice lists it once
            coord.shared.global_world_manager.insert_component_record(&g, &KIND_B);
        }
    }
    let direct = SendStateView::from_shared(&coord.shared);
    let through_handle = coord.send_state_view();
    // both list entities by global entity number, kinds in recording order
    assert_eq!(direct.live_entities(), through_handle.live_entities());
    assert_eq!(direct.live_entities(), vec![5, 6, 7]);
    assert_eq!(direct.required_snapshot_entries(), through_handle.required_snapshot_entries());
    assert_eq!(
        direct.required_snapshot_entries(),
        vec![(5, KIND_A), (5, KIND_B), (6, KIND_A), (7, KIND_A), (7, KIND_B)]
    );
}
