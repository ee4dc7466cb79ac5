use naia_server::coord::{ConfigureSendOp, ConfigureWorldOp, CoordHandle, DisconnectReason, ScopeChange};
use naia_server::keys::{Address, ComponentKind, GlobalEntity, UserKey};
use naia_server::world_manager::{EntityOwner, Publicity, ReplicationConfig, ScopeExit};

fn addr(port: u16) -> Address {
    // 127.0.0.1 in its IPv6-mapped form
    Address { ip: 0xffff_7f00_0001, port }
}

/// A user joining a room that already holds several entities gets them in
/// the same order on every fresh server: the join lists the room's
/// entities in the order they were added.
fn split_room_join_spawn_order() -> Vec<u64> {
    let mut coord = CoordHandle::<u64>::new();
    let user_key = UserKey::from_u64(1);
    coord.receive_user(user_key, addr(9021));

    let room = coord.create_room();
    let entities: Vec<u64> = (100..108).collect();
    for entity in &entities {
        coord.enable_entity_replication(entity);
        coord.room_add_entity(&room, entity);
    }
    coord.room_add_user(&room, &user_key);

    let joined = match coord.shared.scope_change_queue.back() {
        Some(ScopeChange::UserJoinedRoom { entities, .. }) => entities.clone(),
        _ => panic!("the join is the last queued scope change"),
    };
    joined
        .iter()
        .map(|g| {
            coord
                .shared
                .global_entity_map
                .global_entity_to_entity(g)
                .expect("room join must list every room entity")
        })
        .collect()
}

#[test]
fn pipelined_room_join_spawns_entities_in_the_same_order_on_every_fresh_server() {
    let first = split_room_join_spawn_order();
    let second = split_room_join_spawn_order();
    assert_eq!(
        first, second,
        "room-join spawn order must not depend on hash state"
    );
    assert_eq!(first, (100..108).collect::<Vec<u64>>());
}

#[test]
fn room_churn_queues_one_removal_per_departure() {
    let mut coord = CoordHandle::<u64>::new();
    let entity: u64 = 42;
    coord.shared.global_entity_map.spawn(entity);
    let user_key = UserKey::from_u64(1);
    coord.receive_user(user_key, addr(9013));

    let rk = coord.create_room();
    coord.room_add_user(&rk, &user_key);

    // entity churn queues one entry per removal ...
    for _ in 0..50 {
        coord.room_add_entity(&rk, &entity);
        coord.room_remove_entity(&rk, &entity);
    }
    // ... and user churn queues one entry per entity in the room per leave.
    coord.room_add_entity(&rk, &entity);
    for _ in 0..50 {
        coord.room_remove_user(&rk, &user_key);
        coord.room_add_user(&rk, &user_key);
    }
    let room = coord.state.room_store.get(&rk).unwrap();
    assert_eq!(room.entity_removal_queue_len(), 100);
    // Each membership change queues two entries (the membership record,
    // then the room change): 1 join + 50 x (entity join, entity leave)
    // + 1 entity join + 50 x (user leave, user join).
    assert_eq!(coord.scope_change_queue_len(), 2 * (1 + 100 + 1 + 100));
}

#[test]
fn room_membership_reads() {
    let mut coord = CoordHandle::<u64>::new();
    let u1 = UserKey::from_u64(1);
    let u2 = UserKey::from_u64(2);
    coord.receive_user(u1, addr(1));
    coord.receive_user(u2, addr(2));
    assert!(coord.user_exists(&u1));
    assert!(!coord.user_exists(&UserKey::from_u64(3)));
    assert_eq!(coord.users_count(), 2);
    // both still wait for their handshake
    assert_eq!(coord.user_count(), 0);
    assert_eq!(coord.state.user_store.take_disconnected(&addr(1)), Some(u1));
    assert_eq!(coord.state.user_store.take_disconnected(&addr(1)), None);
    assert_eq!(coord.user_count(), 1);
    assert_eq!(coord.users_count(), 2);
    assert_eq!(coord.state.user_store.take_disconnected(&addr(2)), Some(u2));
    assert_eq!(coord.user_count(), 2);
    let mut keys = coord.user_keys();
    keys.sort_by_key(|k| k.0);
    assert_eq!(keys, vec![u1, u2]);
    assert_eq!(coord.user_address(&u2), Some(addr(2)));

    let r1 = coord.create_room();
    let r2 = coord.create_room();
    assert!(coord.room_exists(&r1));
    assert_eq!(coord.rooms_count(), 2);
    assert_eq!(coord.room_count(), 2);
    let mut rooms = coord.room_keys();
    rooms.sort_by_key(|k| k.0);
    assert_eq!(rooms, vec![r1, r2]);

    coord.room_add_user(&r1, &u1);
    coord.room_add_user(&r1, &u2);
    coord.room_add_user(&r2, &u1);
    coord.room_add_user(&r1, &u1);
    assert!(coord.room_has_user(&r1, &u2));
    assert_eq!(coord.room_users_count(&r1), 2);
    assert_eq!(coord.room_user_keys(&r1), vec![u1, u2]);
    assert_eq!(coord.user_rooms_count(&u1), Some(2));
    assert_eq!(coord.user_room_keys(&u1), Some(vec![r1, r2]));
    assert_eq!(coord.user_rooms_count(&UserKey::from_u64(9)), None);

    coord.enable_entity_replication(&10);
    coord.enable_entity_replication(&11);
    coord.room_add_entity(&r1, &10);
    coord.room_add_entity(&r1, &11);
    coord.room_add_entity(&r1, &12); // not registered: ignored
    assert_eq!(coord.entity_count(), 2);
    assert!(coord.room_has_entity(&r1, &10));
    assert!(!coord.room_has_entity(&r2, &10));
    assert_eq!(coord.room_entities(&r1), vec![10, 11]);
    assert_eq!(coord.room_entities_count(&r1), 2);

    coord.room_remove_user(&r1, &u1);
    assert_eq!(coord.room_user_keys(&r1), vec![u2]);
    assert_eq!(coord.user_room_keys(&u1), Some(vec![r2]));

    assert!(coord.room_destroy(&r1));
    assert!(!coord.room_destroy(&r1));
    assert!(!coord.room_exists(&r1));
    assert_eq!(coord.user_room_keys(&u2), Some(vec![]));
    assert_eq!(coord.room_users_count(&r1), 0);
    assert!(coord.room_entities(&r1).is_empty());
    match coord.shared.scope_change_queue.back() {
        Some(ScopeChange::RoomDestroyed { room, users, entities }) => {
            assert_eq!(*room, r1);
            assert_eq!(users, &vec![u2]);
            assert_eq!(entities.len(), 2);
        }
        _ => panic!("destroy queues its change"),
    }
}

#[test]
fn entity_registration_and_records() {
    let mut coord = CoordHandle::<u64>::new();
    assert_eq!(coord.entity_owner(&1), EntityOwner::Local);
    coord.enable_entity_replication(&1);
    // enabling twice keeps the first registration
    let g = coord.shared.global_entity_map.entity_to_global_entity(&1);
    coord.enable_entity_replication(&1);
    assert_eq!(coord.shared.global_entity_map.entity_to_global_entity(&1), g);
    assert_eq!(coord.entity_count(), 1);
    assert_eq!(coord.entity_owner(&1), EntityOwner::Server);
    assert_eq!(
        coord.entity_replication_config(&1),
        Some(ReplicationConfig { publicity: Publicity::Public, scope_exit: ScopeExit::Despawn })
    );
    assert_eq!(coord.entity_replication_config(&2), None);
    assert!(!coord.entity_is_static(&1));
    coord.mark_entity_as_static(&1);
    assert!(coord.entity_is_static(&1));
}

#[test]
fn resource_entities_are_recognised() {
    let mut coord = CoordHandle::<u64>::new();
    coord.enable_entity_replication(&1);
    coord.enable_entity_replication(&2);
    let g2 = coord.shared.global_entity_map.entity_to_global_entity(&2).unwrap();
    assert!(coord.state.resource_registry.insert(ComponentKind(7), g2));
    assert!(!coord.state.resource_registry.insert(ComponentKind(7), g2));
    assert!(coord.is_resource_entity(&2));
    assert!(!coord.is_resource_entity(&1));
    assert!(!coord.is_resource_entity(&3));
    assert_eq!(coord.resources_count(), 1);
}

#[test]
fn disconnect_requests_only_for_known_users() {
    let mut coord = CoordHandle::<u64>::new();
    let u = UserKey::from_u64(4);
    coord.disconnect_user(&u);
    assert!(coord.shared.pending_disconnect_requests.is_empty());
    coord.receive_user(u, addr(4));
    coord.disconnect_user(&u);
    assert_eq!(coord.shared.pending_disconnect_requests, vec![(u, DisconnectReason::Kicked)]);
}

fn client_owned(coord: &mut CoordHandle<u64>, entity: u64, owner: UserKey) -> GlobalEntity {
    let g = coord.shared.global_entity_map.spawn(entity);
    coord
        .shared
        .global_world_manager
        .insert_entity_record(&g, EntityOwner::Client(owner));
    g
}

#[test]
fn publishing_a_client_entity_defers_send_and_world_work() {
    let mut coord = CoordHandle::<u64>::new();
    let owner = UserKey::from_u64(8);
    coord.receive_user(owner, addr(8));
    let g = client_owned(&mut coord, 50, owner);
    assert_eq!(
        coord.entity_replication_config(&50).unwrap().publicity,
        Publicity::Private
    );
    let public = ReplicationConfig { publicity: Publicity::Public, scope_exit: ScopeExit::Persist };
    coord.configure_entity_replication(&50, public);
    assert_eq!(coord.entity_owner(&50), EntityOwner::ClientPublic(owner));
    assert_eq!(coord.entity_replication_config(&50), Some(public));
    match coord.shared.scope_change_queue.back() {
        Some(ScopeChange::ConfigureReplication(ops)) => assert_eq!(
            ops,
            &vec![
                ConfigureSendOp::Publish { global_entity: g, owner_addr: addr(8) },
                ConfigureSendOp::PublishScopeReeval { global_entity: g },
            ]
        ),
        _ => panic!("send-side work is queued"),
    }
    assert_eq!(coord.pending_world_hooks_len(), 1);
    assert_eq!(coord.shared.pending_world_hooks[0], ConfigureWorldOp::Publish { world_entity: 50 });

    // the same configuration again changes nothing
    coord.configure_entity_replication(&50, public);
    assert_eq!(coord.scope_change_queue_len(), 1);
    assert_eq!(coord.pending_world_hooks_len(), 1);

    // unpublishing captures the owner's address before handing it back
    let private = ReplicationConfig { publicity: Publicity::Private, scope_exit: ScopeExit::Persist };
    coord.configure_entity_replication(&50, private);
    assert_eq!(coord.entity_owner(&50), EntityOwner::Client(owner));
    match coord.shared.scope_change_queue.back() {
        Some(ScopeChange::ConfigureReplication(ops)) => assert_eq!(
            ops,
            &vec![ConfigureSendOp::Unpublish { global_entity: g, owner_addr: Some(addr(8)) }]
        ),
        _ => panic!("send-side work is queued"),
    }
    assert_eq!(coord.shared.pending_world_hooks[1], ConfigureWorldOp::Unpublish { world_entity: 50 });
}

#[test]
fn delegating_a_client_entity_waits_for_migration() {
    let mut coord = CoordHandle::<u64>::new();
    let owner = UserKey::from_u64(8);
    let g = client_owned(&mut coord, 60, owner);
    let delegated = ReplicationConfig { publicity: Publicity::Delegated, scope_exit: ScopeExit::Despawn };
    coord.configure_entity_replication(&60, delegated);
    // published at once; delegation is left to the migration
    assert_eq!(
        coord.entity_replication_config(&60).unwrap().publicity,
        Publicity::Public
    );
    match coord.shared.scope_change_queue.back() {
        Some(ScopeChange::ConfigureReplication(ops)) => assert_eq!(
            ops,
            &vec![
                // the owner is not a tracked user, so there is no address to tell
                ConfigureSendOp::PublishScopeReeval { global_entity: g },
                ConfigureSendOp::EnableDelegationFanout { global_entity: g, client_origin: Some(owner) },
                ConfigureSendOp::DelegationMigrate { global_entity: g, world_entity: 60, client_key: owner },
            ]
        ),
        _ => panic!("send-side work is queued"),
    }
    assert_eq!(coord.pending_world_hooks_len(), 1);
}

#[test]
fn delegating_and_releasing_a_server_entity() {
    let mut coord = CoordHandle::<u64>::new();
    coord.enable_entity_replication(&70);
    let g = coord.shared.global_entity_map.entity_to_global_entity(&70).unwrap();
    let delegated = ReplicationConfig { publicity: Publicity::Delegated, scope_exit: ScopeExit::Despawn };
    coord.configure_entity_replication(&70, delegated);
    assert_eq!(coord.entity_replication_config(&70), Some(delegated));
    assert_eq!(coord.shared.pending_world_hooks[0], ConfigureWorldOp::EnableDelegation { world_entity: 70 });
    let public = ReplicationConfig { publicity: Publicity::Public, scope_exit: ScopeExit::Despawn };
    coord.configure_entity_replication(&70, public);
    assert_eq!(coord.entity_replication_config(&70), Some(public));
    match coord.shared.scope_change_queue.back() {
        Some(ScopeChange::ConfigureReplication(ops)) => {
            assert_eq!(ops, &vec![ConfigureSendOp::DisableDelegationFanout { global_entity: g }])
        }
        _ => panic!("send-side work is queued"),
    }
    // only the scope exit changes: stored, nothing queued
    let persist = ReplicationConfig { publicity: Publicity::Public, scope_exit: ScopeExit::Persist };
    coord.configure_entity_replication(&70, persist);
    assert_eq!(coord.entity_replication_config(&70), Some(persist));
    assert_eq!(coord.scope_change_queue_len(), 2);
    assert_eq!(coord.pending_world_hooks_len(), 2);
}

#[test]
fn sim_handle_receive_user_inserts_into_user_store() {
    let mut sim_handle = CoordHandle::<u64>::new();
    let user_key = UserKey::from_u64(100);
    let user_addr = addr(11000);
    assert!(!sim_handle.user_exists(&user_key), "user should not exist before receive_user");
    sim_handle.receive_user(user_key, user_addr);
    assert!(sim_handle.user_exists(&user_key), "user should exist after receive_user");
    assert_eq!(
        sim_handle.user_address(&user_key),
        Some(user_addr),
        "user_address should match the addr passed to receive_user"
    );
}

#[test]
fn sim_handle_disconnect_user_nonexistent_is_noop() {
    let mut sim_handle = CoordHandle::<u64>::new();
    let unknown_key = UserKey::from_u64(999);
    sim_handle.disconnect_user(&unknown_key);
    let q = &sim_handle.shared.pending_disconnect_requests;
    assert!(q.is_empty(), "pending_disconnect_requests should stay empty for unknown user, got: {q:?}");
}

#[test]
fn sim_handle_disconnect_user_queues_request() {
    let mut sim_handle = CoordHandle::<u64>::new();
    let user_key = UserKey::from_u64(200);
    sim_handle.receive_user(user_key, addr(12000));
    sim_handle.disconnect_user(&user_key);
    let q = &sim_handle.shared.pending_disconnect_requests;
    assert_eq!(q.len(), 1, "pending_disconnect_requests should have exactly 1 entry after disconnect_user");
    let (queued_key, queued_reason) = &q[0];
    assert_eq!(*queued_key, user_key, "queued user_key must match");
    assert!(
        matches!(queued_reason, DisconnectReason::Kicked),
        "queued reason must be Kicked, got: {queued_reason:?}"
    );
}

#[test]
fn entity_conversions_report_unregistered_entities() {
    let mut coord = CoordHandle::<u64>::new();
    coord.enable_entity_replication(&42);
    let g = coord.entity_to_global_entity(&42).expect("registered");
    assert_eq!(coord.global_entity_to_entity(&g), Ok(42));
    assert!(coord.entity_to_global_entity(&43).is_err());
    assert!(coord.global_entity_to_entity(&GlobalEntity(g.0 + 100)).is_err());
}

#[test]
fn resources_are_found_by_kind() {
    let mut coord = CoordHandle::<u64>::new();
    coord.enable_entity_replication(&8);
    let g = coord.shared.global_entity_map.entity_to_global_entity(&8).unwrap();
    assert!(!coord.has_resource(&ComponentKind(3)));
    assert_eq!(coord.resource_entity(&ComponentKind(3)), None);
    coord.state.resource_registry.insert(ComponentKind(3), g);
    assert!(coord.has_resource(&ComponentKind(3)));
    assert_eq!(coord.resource_entity(&ComponentKind(3)), Some(8));
}

/// Unpublishing reads the owner's address while the entity is still
/// client-public, so the queued send-side op can still reach the
/// formerly-owning connection after the owner has been handed back.
#[test]
fn configure_unpublish_captures_owner_addr_before_transition() {
    let mut coord = CoordHandle::<u64>::new();
    let user_key = UserKey::from_u64(7);
    let user_addr = addr(9007);
    coord.receive_user(user_key, user_addr);

    let world_entity: u64 = 77;
    let global_entity = coord.shared.global_entity_map.spawn(world_entity);
    coord
        .shared
        .global_world_manager
        .insert_entity_record(&global_entity, EntityOwner::Client(user_key));
    let published = coord.shared.global_world_manager.entity_publish(&global_entity);
    assert!(published, "manufactured entity should publish");
    assert!(matches!(
        coord.shared.global_world_manager.entity_owner(&global_entity),
        Some(EntityOwner::ClientPublic(_))
    ));

    let private = ReplicationConfig { publicity: Publicity::Private, scope_exit: ScopeExit::Despawn };
    coord.configure_entity_replication(&world_entity, private);

    assert!(matches!(
        coord.shared.global_world_manager.entity_owner(&global_entity),
        Some(EntityOwner::Client(_))
    ));
    assert_eq!(
        coord
            .shared
            .global_world_manager
            .entity_replication_config(&global_entity)
            .unwrap()
            .publicity,
        Publicity::Private,
    );

    let mut found_owner_addr: Option<Option<Address>> = None;
    for change in coord.shared.scope_change_queue.iter() {
        if let ScopeChange::ConfigureReplication(ops) = change {
            for op in ops {
                if let ConfigureSendOp::Unpublish { owner_addr, .. } = op {
                    found_owner_addr = Some(*owner_addr);
                }
            }
        }
    }
    assert_eq!(found_owner_addr, Some(Some(user_addr)));
}

#[test]
fn room_ops_queue_the_membership_record_then_the_room_change() {
    let mut coord = CoordHandle::<u64>::new();
    coord.enable_entity_replication(&42);
    let g = coord.shared.global_entity_map.entity_to_global_entity(&42).unwrap();
    let user_key = UserKey::from_u64(1);
    coord.receive_user(user_key, addr(9001));
    let rk = coord.create_room();
    coord.room_add_user(&rk, &user_key);
    coord.room_add_entity(&rk, &42);
    // (record + room change) for the user, then for the entity
    assert_eq!(coord.scope_change_queue_len(), 4);
    let queue: Vec<&ScopeChange<u64>> = coord.shared.scope_change_queue.iter().collect();
    assert!(matches!(queue[0], ScopeChange::UserAdded { room, user } if *room == rk && *user == user_key));
    assert!(matches!(queue[1], ScopeChange::UserJoinedRoom { room, user, entities }
        if *room == rk && *user == user_key && entities.is_empty()));
    assert!(matches!(queue[2], ScopeChange::EntityAdded { room, entity } if *room == rk && *entity == g));
    assert!(matches!(queue[3], ScopeChange::EntityJoinedRoom { room, entity, users }
        if *room == rk && *entity == g && *users == vec![user_key]));

    coord.room_remove_entity(&rk, &42);
    coord.room_remove_user(&rk, &user_key);
    let queue: Vec<&ScopeChange<u64>> = coord.shared.scope_change_queue.iter().collect();
    assert_eq!(queue.len(), 8);
    assert!(matches!(queue[4], ScopeChange::EntityRemoved { room, entity } if *room == rk && *entity == g));
    assert!(matches!(queue[5], ScopeChange::EntityLeftRoom { .. }));
    assert!(matches!(queue[6], ScopeChange::UserRemoved { room, user } if *room == rk && *user == user_key));
    assert!(matches!(queue[7], ScopeChange::UserLeftRoom { .. }));
}

#[test]
fn room_entities_agree_with_membership_reads() {
    let mut coord = CoordHandle::<u64>::new();
    let rk = coord.create_room();
    for e in [3u64, 1, 2] {
        coord.enable_entity_replication(&e);
        coord.room_add_entity(&rk, &e);
    }
    let listed = coord.room_entities(&rk);
    assert_eq!(listed, vec![3, 1, 2]);
    assert_eq!(listed.len(), coord.room_entities_count(&rk));
    for e in &listed {
        assert!(coord.room_has_entity(&rk, e));
    }
    // an entity that no longer resolves is left out of the list but still counted
    coord.shared.global_entity_map.despawn(&1);
    let listed = coord.room_entities(&rk);
    assert_eq!(listed, vec![3, 2]);
    assert_eq!(coord.room_entities_count(&rk), 3);
    assert!(!coord.room_has_entity(&rk, &1));
    // an unknown room lists nothing
    assert!(coord.room_entities(&naia_server::keys::RoomKey(99)).is_empty());
}

#[test]
fn marking_an_unrecorded_entity_static_changes_nothing() {
    let mut coord = CoordHandle::<u64>::new();
    coord.shared.global_entity_map.spawn(9);
    coord.mark_entity_as_static(&9);
    assert!(!coord.entity_is_static(&9));
    assert_eq!(coord.entity_replication_config(&9), None);
    coord.enable_entity_replication(&10);
    coord.mark_entity_as_static(&10);
    assert!(coord.entity_is_static(&10));
}
