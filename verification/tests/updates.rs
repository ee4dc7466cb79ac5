use naia_server::diff_mask::DiffMask;
use naia_server::entity_manager::EntityManager;
use naia_server::entity_updates::EntityUpdates;
use naia_server::keys::ComponentKind;
use naia_server::user_diff_handler::{GlobalDiffHandler, UserDiffHandler};

const POS: ComponentKind = ComponentKind(1);
const VEL: ComponentKind = ComponentKind(2);

fn bytes(m: &DiffMask) -> Vec<u8> {
    (0..m.byte_number()).map(|i| m.byte(i)).collect()
}

#[test]
fn diff_mask_bits_land_in_their_bytes() {
    let mut m = DiffMask::new(2);
    assert!(m.is_clear());
    assert_eq!(m.byte_number(), 2);
    m.set_bit(3, true);
    assert_eq!(m.bit(3), Some(true));
    assert_eq!(m.bit(2), Some(false));
    assert_eq!(bytes(&m), vec![0b0000_1000, 0]);
    m.set_bit(9, true);
    assert_eq!(bytes(&m), vec![0b0000_1000, 0b0000_0010]);
    assert!(!m.is_clear());
    // past the end nothing is read or written
    assert_eq!(m.bit(16), None);
    m.set_bit(20, true);
    assert_eq!(bytes(&m), vec![0b0000_1000, 0b0000_0010]);
    m.set_bit(3, false);
    assert_eq!(bytes(&m), vec![0, 0b0000_0010]);
    m.clear();
    assert!(m.is_clear());
    assert_eq!(m.byte_number(), 2);
}

#[test]
fn diff_mask_or_and_nand_work_bytewise() {
    let mut a = DiffMask::new(1);
    a.set_bit(0, true);
    a.set_bit(1, true);
    let mut b = DiffMask::new(1);
    b.set_bit(1, true);
    b.set_bit(2, true);
    let mut or = a.duplicate();
    or.or(&b);
    assert_eq!(bytes(&or), vec![0b111]);
    let mut nand = a.duplicate();
    nand.nand(&b);
    assert_eq!(bytes(&nand), vec![0b001]);
    // masks of other lengths leave the mask as it is
    let wide = DiffMask::new(2);
    let mut c = a.duplicate();
    c.or(&wide);
    c.nand(&wide);
    assert_eq!(bytes(&c), vec![0b011]);
}

#[test]
fn user_diff_handler_tracks_registered_components_only() {
    let mut h = UserDiffHandler::<u64>::new();
    assert!(!h.has_component(&1, &POS));
    assert_eq!(h.diff_mask_is_clear(&1, &POS), None);
    h.mutate(&1, &POS, 0);
    assert!(!h.has_component(&1, &POS));

    h.register_component(&1, &POS, 1);
    assert!(h.has_component(&1, &POS));
    assert_eq!(h.diff_mask_is_clear(&1, &POS), Some(true));
    h.mutate(&1, &POS, 4);
    assert_eq!(h.diff_mask_is_clear(&1, &POS), Some(false));
    assert_eq!(bytes(h.diff_mask(&1, &POS).unwrap()), vec![0b1_0000]);

    // registering again keeps the mask
    h.register_component(&1, &POS, 1);
    assert_eq!(bytes(h.diff_mask(&1, &POS).unwrap()), vec![0b1_0000]);

    let mut other = DiffMask::new(1);
    other.set_bit(0, true);
    h.or_diff_mask(&1, &POS, &other);
    assert_eq!(bytes(h.diff_mask(&1, &POS).unwrap()), vec![0b1_0001]);
    h.clear_diff_mask(&1, &POS);
    assert_eq!(h.diff_mask_is_clear(&1, &POS), Some(true));

    h.register_component(&2, &VEL, 1);
    let mut components = h.components();
    components.sort_by_key(|(e, k)| (*e, k.0));
    assert_eq!(components, vec![(1, POS), (2, VEL)]);

    h.deregister_component(&1, &POS);
    assert!(!h.has_component(&1, &POS));
    assert_eq!(h.components(), vec![(2, VEL)]);
}

/// One watched component of entity 1 whose property 0 changed.
fn updates_with_a_change() -> EntityUpdates<u64> {
    let mut u = EntityUpdates::<u64>::new();
    u.register_component(&1, &POS, 1);
    u.mutate(&1, &POS, 0);
    u
}

#[test]
fn changed_components_become_due_and_writing_clears_them() {
    let mut u = updates_with_a_change();
    u.register_component(&1, &VEL, 1);
    // only components whose channel is inserted are considered
    u.collect_component_updates(&vec![]);
    assert!(!u.has_outgoing_updates());
    u.collect_component_updates(&vec![(1, POS), (1, VEL)]);
    assert!(u.has_outgoing_updates());
    assert_eq!(u.update_entities(), vec![1]);

    let written = u.write_updates(100, 5, &vec![1]);
    assert_eq!(written.len(), 1);
    assert_eq!(written[0].0, 1);
    // the unchanged component is not written
    assert_eq!(written[0].1.len(), 1);
    assert_eq!(written[0].1[0].0, POS);
    assert_eq!(bytes(&written[0].1[0].1), vec![0b1]);
    assert!(!u.has_outgoing_updates());
    assert!(u.diff_mask(&1, &POS).unwrap().is_clear());
}

#[test]
fn a_lost_update_is_marked_again() {
    let mut u = updates_with_a_change();
    u.collect_component_updates(&vec![(1, POS)]);
    u.write_updates(100, 5, &vec![1]);
    // a later packet carries another change of the same component
    u.mutate(&1, &POS, 1);
    u.collect_component_updates(&vec![(1, POS)]);
    u.write_updates(110, 6, &vec![1]);
    assert!(u.diff_mask(&1, &POS).unwrap().is_clear());

    u.dropped_update_cleanup(5);
    assert_eq!(bytes(u.diff_mask(&1, &POS).unwrap()), vec![0b01]);
}

#[test]
fn losing_the_last_update_packet_marks_nothing_again() {
    let mut u = updates_with_a_change();
    u.collect_component_updates(&vec![(1, POS)]);
    u.write_updates(100, 5, &vec![1]);
    u.dropped_update_cleanup(5);
    assert!(u.diff_mask(&1, &POS).unwrap().is_clear());
}

#[test]
fn a_change_sent_again_later_is_not_marked_again() {
    let mut u = updates_with_a_change();
    u.register_component(&2, &VEL, 1);
    u.collect_component_updates(&vec![(1, POS)]);
    u.write_updates(100, 10, &vec![1]);
    // the same property changes again and goes out in packet 11
    u.mutate(&1, &POS, 0);
    u.collect_component_updates(&vec![(1, POS)]);
    u.write_updates(110, 11, &vec![1]);
    // another component goes out in packet 12
    u.mutate(&2, &VEL, 3);
    u.collect_component_updates(&vec![(2, VEL)]);
    u.write_updates(120, 12, &vec![2]);

    u.dropped_update_cleanup(10);
    assert!(u.diff_mask(&1, &POS).unwrap().is_clear());
}

#[test]
fn only_packets_older_than_the_drop_window_are_cleaned_up() {
    let mut u = updates_with_a_change();
    u.collect_component_updates(&vec![(1, POS)]);
    u.write_updates(100, 5, &vec![1]);
    u.mutate(&1, &POS, 2);
    u.collect_component_updates(&vec![(1, POS)]);
    u.write_updates(250, 6, &vec![1]);

    // at 260 with a window of 150, packet 5 (sent at 100) is lost, packet 6 is not
    u.collect_dropped_update_packets(260, 150);
    assert_eq!(bytes(u.diff_mask(&1, &POS).unwrap()), vec![0b001]);
    // packet 5's record is gone: once the change is sent again, losing
    // packet 5 a second time changes nothing
    u.collect_component_updates(&vec![(1, POS)]);
    u.write_updates(270, 7, &vec![1]);
    u.dropped_update_cleanup(5);
    assert!(u.diff_mask(&1, &POS).unwrap().is_clear());
    // a delivered packet's record is dropped too
    u.notify_update_delivered(6);
    u.collect_dropped_update_packets(10_000, 150);
    assert!(u.diff_mask(&1, &POS).unwrap().is_clear());
}

#[test]
fn the_entity_manager_has_outgoing_updates_only_when_due() {
    let mut em = EntityManager::<u64>::new();
    assert!(!em.has_outgoing_messages());
    em.register_component(&1, &POS, 1);
    em.mutate(&1, &POS, 0);
    // the channel does not watch the component yet, so nothing is due
    em.collect_component_updates();
    assert!(!em.has_outgoing_messages());
    assert!(em.update_entities().is_empty());
    em.deregister_component(&1, &POS);
}

#[test]
fn the_global_registry_gives_each_connection_its_mask_length() {
    let mut g = GlobalDiffHandler::<u64>::new();
    assert_eq!(g.receiver(&1, &POS), None);
    g.register_component(&1, &POS, 2);
    g.register_component(&1, &VEL, 1);
    assert_eq!(g.receiver(&1, &POS), Some(2));
    assert_eq!(g.receiver(&1, &VEL), Some(1));

    // a connection's mask is made with the registered length
    let mut h = UserDiffHandler::<u64>::new();
    h.register_component(&1, &POS, g.receiver(&1, &POS).unwrap());
    assert_eq!(h.diff_mask(&1, &POS).unwrap().byte_number(), 2);

    g.deregister_component(&1, &POS);
    assert_eq!(g.receiver(&1, &POS), None);
    assert_eq!(g.receiver(&1, &VEL), Some(1));
}
