use naia_server::entity_action::{count_fitting, write_action_id, ActionIdCode, EntityAction, EntityActionType, NextSendActions};
use naia_server::keys::ComponentKind;

#[test]
fn action_types() {
    assert_eq!(EntityAction::SpawnEntity(1u64).as_type(), EntityActionType::SpawnEntity);
    assert_eq!(EntityAction::DespawnEntity(1u64).as_type(), EntityActionType::DespawnEntity);
    assert_eq!(EntityAction::InsertComponent(1u64, ComponentKind(2)).as_type(), EntityActionType::InsertComponent);
    assert_eq!(EntityAction::RemoveComponent(1u64, ComponentKind(2)).as_type(), EntityActionType::RemoveComponent);
    assert_eq!(EntityAction::<u64>::Noop.as_type(), EntityActionType::Noop);
}

#[test]
fn queued_actions_come_out_in_action_id_order_across_the_wrap() {
    let mut q = NextSendActions::<u64>::new();
    q.push(3, EntityAction::SpawnEntity(3));
    q.push(65535, EntityAction::SpawnEntity(65535));
    q.push(1, EntityAction::SpawnEntity(1));
    q.push(2, EntityAction::Noop);
    assert_eq!(q.len(), 4);
    assert_eq!(q.get(0).map(|p| p.0), Some(65535));
    assert_eq!(q.get(4), None);
    let order: Vec<u16> = std::iter::from_fn(|| q.pop().map(|p| p.0)).collect();
    assert_eq!(order, vec![65535, 1, 2, 3]);
    assert!(q.pop().is_none());
}

#[test]
fn action_ids_after_the_first_are_written_as_wrapping_distances() {
    assert_eq!(write_action_id(None, 5), (ActionIdCode::Full(5), Some(5)));
    assert_eq!(write_action_id(Some(5), 7), (ActionIdCode::Diff(2), Some(7)));
    assert_eq!(write_action_id(Some(65535), 1), (ActionIdCode::Diff(2), Some(1)));
    assert_eq!(write_action_id(Some(1), 65535), (ActionIdCode::Diff(-2), Some(65535)));
    assert_eq!(write_action_id(Some(0), 32768), (ActionIdCode::Diff(-32768), Some(32768)));
    assert_eq!(write_action_id(Some(0), 32767), (ActionIdCode::Diff(32767), Some(32767)));
}

#[test]
fn a_packet_takes_the_actions_that_fit() {
    let sizes = vec![10u64, 20, 30, 5];
    // 100 already written, 4 for the header, limit 168: 10 + 20 + 30 fit, 5 more do not
    assert_eq!(count_fitting(100, 4, &sizes, 168), 3);
    assert_eq!(count_fitting(100, 4, &sizes, 169), 4);
    assert_eq!(count_fitting(100, 4, &sizes, 163), 2);
    assert_eq!(count_fitting(100, 4, &sizes, 1000), 4);
    // no room for the header, or already over the limit
    assert_eq!(count_fitting(100, 4, &sizes, 103), 0);
    assert_eq!(count_fitting(200, 0, &sizes, 170), 0);
    // the first item alone is too big
    assert_eq!(count_fitting(0, 0, &vec![50, 1], 40), 0);
    assert_eq!(count_fitting(0, 0, &vec![], 40), 0);
}
