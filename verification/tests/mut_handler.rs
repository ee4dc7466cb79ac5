use naia_server::diff_mask::DiffMask;
use naia_server::keys::Address;
use naia_server::mut_handler::{MutHandler, PropertyMutator};

fn addr(port: u16) -> Address {
    Address { ip: 0xffff_7f00_0001, port }
}

fn bytes(m: &DiffMask) -> Vec<u8> {
    (0..m.byte_number()).map(|i| m.byte(i)).collect()
}

#[test]
fn a_change_marks_every_connections_mask() {
    let mut h = MutHandler::<u64>::new();
    h.register_component(&7);
    h.register_mask(&addr(1), &7, DiffMask::new(1));
    h.register_mask(&addr(2), &7, DiffMask::new(1));

    let mut mutator = PropertyMutator::new();
    // a mutator that does not know its component changes nothing
    mutator.mutate(&mut h, 2);
    assert!(h.diff_mask(&addr(1), &7).unwrap().is_clear());
    mutator.set_component_key(7);
    mutator.mutate(&mut h, 2);
    assert_eq!(bytes(&h.diff_mask(&addr(1), &7).unwrap()), vec![0b100]);
    assert_eq!(bytes(&h.diff_mask(&addr(2), &7).unwrap()), vec![0b100]);

    // one connection's mask is cleared after it sent the change
    h.clear_component(&addr(1), &7);
    assert!(h.diff_mask(&addr(1), &7).unwrap().is_clear());
    assert_eq!(bytes(&h.diff_mask(&addr(2), &7).unwrap()), vec![0b100]);

    // one connection's mask takes over another mask's marks
    let mut other = DiffMask::new(1);
    other.set_bit(0, true);
    h.set_component(&addr(2), &7, &other);
    assert_eq!(bytes(&h.diff_mask(&addr(2), &7).unwrap()), vec![0b001]);
    // a mask of another length is not taken over
    h.set_component(&addr(2), &7, &DiffMask::new(2));
    assert_eq!(bytes(&h.diff_mask(&addr(2), &7).unwrap()), vec![0b001]);
}

#[test]
fn masks_come_and_go_with_their_component_and_connection() {
    let mut h = MutHandler::<u64>::new();
    // nothing is registered for an unknown component
    h.register_mask(&addr(1), &3, DiffMask::new(1));
    assert!(h.diff_mask(&addr(1), &3).is_none());
    h.mutate(&3, 0);

    h.register_component(&3);
    h.register_mask(&addr(1), &3, DiffMask::new(1));
    h.register_mask(&addr(2), &3, DiffMask::new(1));
    h.register_mask(&addr(3), &3, DiffMask::new(1));
    h.deregister_mask(&addr(1), &3);
    assert!(h.diff_mask(&addr(1), &3).is_none());
    assert!(h.diff_mask(&addr(2), &3).is_some());
    assert!(h.diff_mask(&addr(3), &3).is_some());
    // registering a connection again replaces its mask
    let mut marked = DiffMask::new(1);
    marked.set_bit(5, true);
    h.register_mask(&addr(2), &3, marked);
    assert_eq!(bytes(&h.diff_mask(&addr(2), &3).unwrap()), vec![0b10_0000]);

    h.deregister_component(&3);
    assert!(h.diff_mask(&addr(2), &3).is_none());
    assert!(h.diff_mask(&addr(3), &3).is_none());
}
