use naia_server::checked::{CheckedMap, CheckedSet};
use naia_server::keys::ComponentKind;
use naia_server::kinds::KindSet;

#[test]
fn checked_map_insert_get_remove() {
    let mut m = CheckedMap::<u32, &str>::new();
    m.insert(1, "one");
    assert!(m.contains_key(&1));
    assert_eq!(m.get(&1), Some(&"one"));
    if let Some(v) = m.get_mut(&1) {
        *v = "uno";
    }
    assert_eq!(m.get(&1), Some(&"uno"));
    assert_eq!(m.iter().count(), 1);
    m.remove(&1);
    assert!(!m.contains_key(&1));
    assert_eq!(m.get(&1), None);
}

#[test]
fn checked_set_insert_remove() {
    let mut s = CheckedSet::<u32>::new();
    s.insert(3);
    assert!(s.contains(&3));
    s.remove(&3);
    assert!(!s.contains(&3));
}

#[test]
fn kind_sets_keep_insertion_order() {
    let mut k = KindSet::new();
    k.insert(ComponentKind(5));
    k.insert(ComponentKind(2));
    k.insert(ComponentKind(5));
    k.insert(ComponentKind(9));
    assert_eq!(k.to_vec(), vec![ComponentKind(5), ComponentKind(2), ComponentKind(9)]);
    k.remove(&ComponentKind(2));
    assert!(!k.contains(&ComponentKind(2)));
    assert_eq!(k.to_vec(), vec![ComponentKind(5), ComponentKind(9)]);
}
