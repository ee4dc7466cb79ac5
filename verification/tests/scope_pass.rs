use naia_server::coord::CoordHandle;
use naia_server::keys::{Address, GlobalEntity, UserKey};
use naia_server::response_events::{order_response_events, ResponseEvent};
use naia_server::scope_pass::ScopeStep;
use naia_server::world_manager::{EntityOwner, Publicity, ReplicationConfig, ScopeExit};

fn addr(port: u16) -> Address {
    Address { ip: 0xffff_7f00_0001, port }
}

#[test]
fn scope_exits_despawn_only_what_no_shared_room_keeps() {
    let mut coord = CoordHandle::<u64>::new();
    let u = UserKey::from_u64(1);
    let v = UserKey::from_u64(2);
    coord.receive_user(u, addr(1));
    coord.receive_user(v, addr(2));
    coord.enable_entity_replication(&10);
    coord.enable_entity_replication(&11);
    let g10 = coord.shared.global_entity_map.entity_to_global_entity(&10).unwrap();
    let g11 = coord.shared.global_entity_map.entity_to_global_entity(&11).unwrap();
    let r1 = coord.create_room();
    let r2 = coord.create_room();
    coord.room_add_user(&r1, &u);
    coord.room_add_user(&r2, &u);
    coord.room_add_user(&r1, &v);
    coord.room_add_entity(&r1, &10);
    coord.room_add_entity(&r1, &11);
    coord.room_add_entity(&r2, &11);
    // both users leave room 1: each queues an exit per entity of the room
    coord.room_remove_user(&r1, &u);
    coord.room_remove_user(&r1, &v);
    let hosted = vec![(u, g10), (u, g11), (v, g10), (v, g11)];
    // v has no connection
    let mut despawns = coord.drain_scope_exits(&vec![u], &hosted);
    despawns.sort_by_key(|p| (p.0 .0, p.1 .0));
    // u keeps 11 through room 2
    assert_eq!(despawns, vec![(u, g10)]);
    assert_eq!(coord.state.room_store.get(&r1).unwrap().entity_removal_queue_len(), 0);
    assert_eq!(coord.state.room_store.get(&r2).unwrap().entity_removal_queue_len(), 0);
    // nothing is left to drain
    assert!(coord.drain_scope_exits(&vec![u, v], &hosted).is_empty());
}

#[test]
fn the_scope_pass_brings_connections_to_their_scope() {
    let mut coord = CoordHandle::<u64>::new();
    let u = UserKey::from_u64(1);
    coord.receive_user(u, addr(1));
    for e in [20u64, 21, 22, 23] {
        coord.enable_entity_replication(&e);
    }
    let g = |c: &CoordHandle<u64>, e: u64| c.shared.global_entity_map.entity_to_global_entity(&e).unwrap();
    let (g20, g21, g22, g23) = (g(&coord, 20), g(&coord, 21), g(&coord, 22), g(&coord, 23));
    let delegated = ReplicationConfig { publicity: Publicity::Delegated, scope_exit: ScopeExit::Despawn };
    coord.configure_entity_replication(&22, delegated);
    let r1 = coord.create_room();
    let r2 = coord.create_room();
    coord.room_add_user(&r1, &u);
    coord.room_add_user(&r2, &u);
    for e in [20u64, 21, 22, 23] {
        coord.room_add_entity(&r1, &e);
    }
    coord.room_add_entity(&r2, &20);
    let world = vec![g20, g21, g22];
    let hosted = vec![(u, g21)];
    let in_scope = vec![(u, g20), (u, g22), (u, g23)];
    let mut steps = coord.scope_pass(&vec![u], &world, &hosted, &in_scope);
    steps.sort_by_key(|t| t.1 .0);
    // 20 spawns once although two rooms hold it; 21 leaves; 22 is announced
    // as delegated; 23 is gone from the world
    assert_eq!(
        steps,
        vec![(u, g20, ScopeStep::Spawn), (u, g21, ScopeStep::Despawn), (u, g22, ScopeStep::SpawnDelegated)]
    );
    // a user without a connection gets nothing
    assert!(coord.scope_pass(&vec![], &world, &hosted, &in_scope).is_empty());
}

#[test]
fn a_user_owning_a_published_entity_is_not_sent_it() {
    let mut coord = CoordHandle::<u64>::new();
    let u = UserKey::from_u64(4);
    coord.receive_user(u, addr(4));
    let g = coord.shared.global_entity_map.spawn(30);
    coord.shared.global_world_manager.insert_entity_record(&g, EntityOwner::ClientPublic(u));
    assert_eq!(coord.scope_step(&u, &g, true, false, true), ScopeStep::Pass);
    let other = UserKey::from_u64(5);
    assert_eq!(coord.scope_step(&other, &g, true, false, true), ScopeStep::Spawn);
    assert_eq!(coord.scope_step(&other, &g, false, false, true), ScopeStep::Pass);
    assert_eq!(coord.scope_step(&other, &g, true, true, false), ScopeStep::Despawn);
    assert_eq!(coord.scope_step(&other, &g, true, true, true), ScopeStep::Pass);
    assert!(coord.response_is_shared(&30));
    assert!(!coord.response_is_shared(&31));
}

#[test]
fn deleting_a_user_leaves_its_rooms_and_registration() {
    let mut coord = CoordHandle::<u64>::new();
    let u = UserKey::from_u64(1);
    let v = UserKey::from_u64(2);
    coord.receive_user(u, addr(1));
    coord.receive_user(v, addr(2));
    coord.enable_entity_replication(&10);
    let r1 = coord.create_room();
    let r2 = coord.create_room();
    coord.room_add_user(&r1, &u);
    coord.room_add_user(&r1, &v);
    coord.room_add_user(&r2, &v);
    coord.room_add_entity(&r1, &10);
    assert_eq!(coord.user_delete(&u), addr(1));
    assert!(!coord.user_exists(&u));
    assert_eq!(coord.room_user_keys(&r1), vec![v]);
    assert_eq!(coord.room_user_keys(&r2), vec![v]);
    // the departure queued the scope exit of the room's entity
    assert_eq!(coord.state.room_store.get(&r1).unwrap().entity_removal_queue_len(), 1);
    assert_eq!(coord.state.room_store.get(&r2).unwrap().entity_removal_queue_len(), 0);
    assert_eq!(coord.state.user_store.take_disconnected(&addr(1)), None);
    assert_eq!(coord.state.user_store.take_disconnected(&addr(2)), Some(v));
}

#[test]
fn response_events_apply_spawns_first_and_despawns_last() {
    let events = vec![
        ResponseEvent::DespawnEntity(1u64),
        ResponseEvent::PublishEntity(2),
        ResponseEvent::SpawnEntity(2),
        ResponseEvent::EntityReleaseAuthority(3),
        ResponseEvent::InsertComponent(2, naia_server::keys::ComponentKind(7)),
    ];
    assert_eq!(
        order_response_events(&events),
        vec![
            ResponseEvent::SpawnEntity(2),
            ResponseEvent::InsertComponent(2, naia_server::keys::ComponentKind(7)),
            ResponseEvent::PublishEntity(2),
            ResponseEvent::EntityReleaseAuthority(3),
            ResponseEvent::DespawnEntity(1),
        ]
    );
}
