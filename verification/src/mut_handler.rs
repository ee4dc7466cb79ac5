//! The server's change masks for every registered component, one per
//! connection address in the order the connections registered: a property
//! change marks it in every connection's mask at once.

use std::collections::HashMap;
use std::hash::Hash;

use indexmap::IndexMap;
use vstd::prelude::*;
use vstd::std_specs::hash::obeys_key_model;

use crate::diff_mask::{mask_set_bit, zeros, DiffMask};
use crate::keys::Address;

verus! {

broadcast use vstd::std_specs::hash::group_hash_axioms;

/// indexmap's insertion-ordered map, held as it is.
#[verifier::external_type_specification]
#[verifier::external_body]
#[verifier::reject_recursive_types(K)]
#[verifier::reject_recursive_types(V)]
#[verifier::reject_recursive_types(S)]
pub struct ExIndexMap<K, V, S>(IndexMap<K, V, S>);

/// What a mask list holds, in its order: each connection address, as
/// `(ip, port)`, with its mask's bytes.
pub uninterp spec fn mask_list_entries(m: IndexMap<(u128, u16), Vec<u8>>) -> Seq<((u128, u16), Seq<u8>)>;

/// The position of `key` in `s`, or -1.
pub open spec fn key_position<V>(s: Seq<((u128, u16), V)>, key: (u128, u16)) -> int
    decreases s.len(),
{
    if s.len() == 0 {
        -1
    } else if s.last().0 == key {
        s.len() - 1
    } else {
        key_position(s.drop_last(), key)
    }
}

/// No address is listed twice.
pub open spec fn keys_unique<V>(s: Seq<((u128, u16), V)>) -> bool {
    forall|i: int, j: int| 0 <= i < j < s.len() ==> s[i].0 != s[j].0
}

/// `s` after inserting `value` under `key` as indexmap does: an address
/// already listed keeps its place and takes the new value, a new one is
/// appended.
pub open spec fn list_insert(s: Seq<((u128, u16), Seq<u8>)>, key: (u128, u16), value: Seq<u8>) -> Seq<((u128, u16), Seq<u8>)> {
    let p = key_position(s, key);
    if p == -1 {
        s.push((key, value))
    } else {
        s.update(p, (key, value))
    }
}

/// `s` after removing `key` as indexmap's `swap_remove` does: the last
/// entry takes the removed one's place.
pub open spec fn list_swap_remove(s: Seq<((u128, u16), Seq<u8>)>, key: (u128, u16)) -> Seq<((u128, u16), Seq<u8>)> {
    let p = key_position(s, key);
    if p == -1 {
        s
    } else {
        s.update(p, s.last()).drop_last()
    }
}

/// Where `key` stands in `s`, when it does.
pub proof fn lemma_key_position<V>(s: Seq<((u128, u16), V)>, key: (u128, u16))
    ensures
        -1 <= key_position(s, key) < s.len(),
        key_position(s, key) != -1 ==> s[key_position(s, key)].0 == key,
        key_position(s, key) == -1 <==> forall|i: int| 0 <= i < s.len() ==> s[i].0 != key,
        keys_unique(s) ==> forall|i: int| 0 <= i < s.len() && s[i].0 == key ==> i == key_position(s, key),
    decreases s.len(),
{
    if s.len() > 0 {
        let d = s.drop_last();
        lemma_key_position(d, key);
        assert forall|i: int| 0 <= i < d.len() implies d[i] == s[i] by {}
        if keys_unique(s) {
            assert(keys_unique(d));
        }
    }
}

/// indexmap's `IndexMap::new`: an empty map.
#[verifier::external_body]
fn new_mask_list() -> (r: IndexMap<(u128, u16), Vec<u8>>)
    ensures
        mask_list_entries(r) == Seq::<((u128, u16), Seq<u8>)>::empty(),
{
    IndexMap::new()
}

/// indexmap's `IndexMap::insert`: an address already in the map keeps its
/// place in the order and takes the new value; a new address is appended.
#[verifier::external_body]
fn mask_list_insert(m: &mut IndexMap<(u128, u16), Vec<u8>>, key: (u128, u16), value: Vec<u8>)
    ensures
        mask_list_entries(*final(m)) == list_insert(mask_list_entries(*old(m)), key, value@),
{
    m.insert(key, value);
}

/// indexmap's `IndexMap::get`: a copy of the value under `key`, if any.
#[verifier::external_body]
fn mask_list_get(m: &IndexMap<(u128, u16), Vec<u8>>, key: (u128, u16)) -> (r: Option<Vec<u8>>)
    ensures
        r is Some == (key_position(mask_list_entries(*m), key) != -1),
        r is Some ==> r->0@ == mask_list_entries(*m)[key_position(mask_list_entries(*m), key)].1,
{
    m.get(&key).cloned()
}

/// indexmap's `IndexMap::keys`: the addresses in the map's order.
#[verifier::external_body]
fn mask_list_keys(m: &IndexMap<(u128, u16), Vec<u8>>) -> (r: Vec<(u128, u16)>)
    ensures
        r@ == mask_list_entries(*m).map_values(|e: ((u128, u16), Seq<u8>)| e.0),
{
    m.keys().copied().collect()
}

/// indexmap's `IndexMap::swap_remove`: the entry under `key`, if any, is
/// removed and the last entry takes its place.
#[verifier::external_body]
fn mask_list_swap_remove(m: &mut IndexMap<(u128, u16), Vec<u8>>, key: (u128, u16))
    ensures
        mask_list_entries(*final(m)) == list_swap_remove(mask_list_entries(*old(m)), key),
{
    m.swap_remove(&key);
}

/// The mask lists after property `index` of component `key` changed: it
/// is marked in every connection's mask of the component, if registered.
pub open spec fn lists_after_mutate<K>(lists: Map<K, Seq<((u128, u16), Seq<u8>)>>, key: K, index: u8) -> Map<K, Seq<((u128, u16), Seq<u8>)>> {
    if lists.contains_key(key) {
        lists.insert(key, lists[key].map_values(|e: ((u128, u16), Seq<u8>)| (e.0, mask_set_bit(e.1, index, true))))
    } else {
        lists
    }
}

/// Dropping one connection's mask leaves that connection unlisted and keeps
/// every other connection's mask as it was (though the last one listed
/// moves into the freed place).
pub proof fn lemma_swap_remove_keeps_others(s: Seq<((u128, u16), Seq<u8>)>, key: (u128, u16), other: (u128, u16))
    requires
        keys_unique(s),
        other != key,
    ensures
        key_position(list_swap_remove(s, key), key) == -1,
        (key_position(list_swap_remove(s, key), other) != -1) == (key_position(s, other) != -1),
        key_position(s, other) != -1 ==> list_swap_remove(s, key)[key_position(list_swap_remove(s, key), other)].1
            == s[key_position(s, other)].1,
{
    let r = list_swap_remove(s, key);
    let p = key_position(s, key);
    lemma_key_position(s, key);
    lemma_key_position(s, other);
    if p != -1 {
        let last = s.len() - 1;
        assert forall|i: int| 0 <= i < r.len() implies #[trigger] r[i] == s[if i == p { last } else { i }] by {}
        assert(keys_unique(r)) by {
            assert forall|a: int, b: int| 0 <= a < b < r.len() implies r[a].0 != r[b].0 by {
                let ia = if a == p { last } else { a };
                let ib = if b == p { last } else { b };
                assert(r[a] == s[ia]);
                assert(r[b] == s[ib]);
            }
        }
        lemma_key_position(r, key);
        lemma_key_position(r, other);
        assert forall|i: int| 0 <= i < r.len() implies r[i].0 != key by {
            let ii = if i == p { last } else { i };
            assert(r[i] == s[ii]);
        }
        let q = key_position(s, other);
        if q != -1 {
            let j = if q == last { p } else { q };
            assert(r[j] == s[q]);
            assert(r[j].0 == other);
        } else {
            assert forall|i: int| 0 <= i < r.len() implies r[i].0 != other by {
                let ii = if i == p { last } else { i };
                assert(r[i] == s[ii]);
            }
        }
    }
}

/// Every connection's mask of every registered component, keyed by
/// component.
pub struct MutHandler<K: Copy + Eq + Hash> {
    component_diff_mask_list_map: HashMap<K, IndexMap<(u128, u16), Vec<u8>>>,
}

/// An address as the mask lists key it.
pub open spec fn address_key(a: Address) -> (u128, u16) {
    (a.ip, a.port)
}

impl<K: Copy + Eq + Hash> MutHandler<K> {
    /// Each registered component's mask list, in registration order.
    pub closed spec fn lists(&self) -> Map<K, Seq<((u128, u16), Seq<u8>)>> {
        self.component_diff_mask_list_map@.map_values(|m: IndexMap<(u128, u16), Vec<u8>>| mask_list_entries(m))
    }

    /// The component key hashes deterministically and no list holds an
    /// address twice.
    pub open spec fn wf(&self) -> bool {
        &&& obeys_key_model::<K>()
        &&& forall|k: K| #[trigger] self.lists().contains_key(k) ==> keys_unique(self.lists()[k])
    }

    proof fn lemma_lists(&self)
        ensures
            self.lists().dom() == self.component_diff_mask_list_map@.dom(),
            forall|k: K| #[trigger] self.component_diff_mask_list_map@.contains_key(k)
                ==> self.lists()[k] == mask_list_entries(self.component_diff_mask_list_map@[k]),
    {
        assert(self.lists().dom() =~= self.component_diff_mask_list_map@.dom());
    }

    /// No component registered; the key type must hash and compare
    /// deterministically.
    pub fn new() -> (r: Self)
        requires
            obeys_key_model::<K>(),
        ensures
            r.wf(),
            r.lists() == Map::<K, Seq<((u128, u16), Seq<u8>)>>::empty(),
    {
        let r = MutHandler { component_diff_mask_list_map: HashMap::new() };
        proof {
            assert(r.lists() =~= Map::<K, Seq<((u128, u16), Seq<u8>)>>::empty());
        }
        r
    }

    /// Property `property_index` of component `component_key` changed: it is
    /// marked in every connection's mask of the component.
    pub fn mutate(&mut self, component_key: &K, property_index: u8)
        requires
            old(self).wf(),
        ensures
            final(self).wf(),
            final(self).lists() == lists_after_mutate(old(self).lists(), *component_key, property_index),
    {
        proof {
            self.lemma_lists();
        }
        let taken = self.component_diff_mask_list_map.remove(component_key);
        match taken {
            None => {
                proof {
                    assert(self.lists() =~= old(self).lists());
                }
            },
            Some(mut list) => {
                let ghost s0 = mask_list_entries(list);
                let ghost target = s0.map_values(
                    |e: ((u128, u16), Seq<u8>)| (e.0, mask_set_bit(e.1, property_index, true)),
                );
                proof {
                    assert(s0 == old(self).lists()[*component_key]);
                }
                let keys = mask_list_keys(&list);
                let mut i: usize = 0;
                while i < keys.len()
                    invariant
                        keys_unique(s0),
                        keys@ == s0.map_values(|e: ((u128, u16), Seq<u8>)| e.0),
                        i <= keys@.len(),
                        mask_list_entries(list).len() == s0.len(),
                        forall|j: int| 0 <= j < i ==> #[trigger] mask_list_entries(list)[j] == target[j],
                        forall|j: int| i <= j < s0.len() ==> #[trigger] mask_list_entries(list)[j] == s0[j],
                        target == s0.map_values(
                            |e: ((u128, u16), Seq<u8>)| (e.0, mask_set_bit(e.1, property_index, true)),
                        ),
                    decreases keys@.len() - i,
                {
                    let key = keys[i];
                    let ghost cur = mask_list_entries(list);
                    proof {
                        assert(cur[i as int].0 == key);
                        assert(keys_unique(cur)) by {
                            assert forall|a: int, b: int| 0 <= a < b < cur.len() implies cur[a].0 != cur[b].0 by {
                                assert(cur[a].0 == s0[a].0);
                                assert(cur[b].0 == s0[b].0);
                            }
                        }
                        lemma_key_position(cur, key);
                    }
                    let bytes = mask_list_get(&list, key).unwrap();
                    let mut mask = DiffMask::from_bytes(bytes);
                    mask.set_bit(property_index, true);
                    mask_list_insert(&mut list, key, mask.into_bytes());
                    proof {
                        assert(key_position(cur, key) == i);
                        assert(mask_list_entries(list) == cur.update(i as int, (key, mask_set_bit(s0[i as int].1, property_index, true))));
                    }
                    i += 1;
                }
                self.component_diff_mask_list_map.insert(*component_key, list);
                proof {
                    assert(mask_list_entries(list) =~= target);
                    assert(self.lists() =~= old(self).lists().insert(*component_key, target));
                    assert forall|k: K| #[trigger] self.lists().contains_key(k) implies keys_unique(self.lists()[k]) by {
                        if k == *component_key {
                            assert forall|a: int, b: int| 0 <= a < b < target.len() implies target[a].0 != target[b].0 by {
                                assert(target[a].0 == s0[a].0);
                                assert(target[b].0 == s0[b].0);
                            }
                        }
                    }
                }
            },
        }
    }

    /// Clears the mask of connection `address` for component
    /// `component_key`, if both are registered.
    pub fn clear_component(&mut self, address: &Address, component_key: &K)
        requires
            old(self).wf(),
        ensures
            final(self).wf(),
            final(self).lists() == if old(self).lists().contains_key(*component_key)
                && key_position(old(self).lists()[*component_key], address_key(*address)) != -1 {
                old(self).lists().insert(
                    *component_key,
                    old(self).lists()[*component_key].update(
                        key_position(old(self).lists()[*component_key], address_key(*address)),
                        (address_key(*address), zeros(old(self).lists()[*component_key][
                            key_position(old(self).lists()[*component_key], address_key(*address))].1.len())),
                    ),
                )
            } else {
                old(self).lists()
            },
    {
        proof {
            self.lemma_lists();
        }
        let key = (address.ip, address.port);
        let taken = self.component_diff_mask_list_map.remove(component_key);
        match taken {
            None => {
                proof {
                    assert(self.lists() =~= old(self).lists());
                }
            },
            Some(mut list) => {
                let ghost s0 = mask_list_entries(list);
                proof {
                    assert(s0 == old(self).lists()[*component_key]);
                    lemma_key_position(s0, key);
                }
                match mask_list_get(&list, key) {
                    Some(bytes) => {
                        let mut mask = DiffMask::from_bytes(bytes);
                        mask.clear();
                        mask_list_insert(&mut list, key, mask.into_bytes());
                    },
                    None => {},
                }
                self.component_diff_mask_list_map.insert(*component_key, list);
                proof {
                    let p = key_position(s0, key);
                    if p != -1 {
                        let s1 = s0.update(p, (key, zeros(s0[p].1.len())));
                        assert(mask_list_entries(list) == s1);
                        assert forall|a: int, b: int| 0 <= a < b < s1.len() implies s1[a].0 != s1[b].0 by {
                            assert(s1[a].0 == s0[a].0);
                            assert(s1[b].0 == s0[b].0);
                        }
                    }
                    assert(self.lists() =~= (if p != -1 {
                        old(self).lists().insert(*component_key, s0.update(p, (key, zeros(s0[p].1.len()))))
                    } else {
                        old(self).lists()
                    }));
                }
            },
        }
    }

    /// Gives the mask of connection `address` for component `component_key`
    /// the marks of `other` (when both are registered and the lengths
    /// match).
    pub fn set_component(&mut self, address: &Address, component_key: &K, other: &DiffMask)
        requires
            old(self).wf(),
        ensures
            final(self).wf(),
            final(self).lists() == if old(self).lists().contains_key(*component_key)
                && key_position(old(self).lists()[*component_key], address_key(*address)) != -1
                && old(self).lists()[*component_key][
                    key_position(old(self).lists()[*component_key], address_key(*address))].1.len() == other@.len() {
                old(self).lists().insert(
                    *component_key,
                    old(self).lists()[*component_key].update(
                        key_position(old(self).lists()[*component_key], address_key(*address)),
                        (address_key(*address), other@),
                    ),
                )
            } else {
                old(self).lists()
            },
    {
        proof {
            self.lemma_lists();
        }
        let key = (address.ip, address.port);
        let taken = self.component_diff_mask_list_map.remove(component_key);
        match taken {
            None => {
                proof {
                    assert(self.lists() =~= old(self).lists());
                }
            },
            Some(mut list) => {
                let ghost s0 = mask_list_entries(list);
                proof {
                    assert(s0 == old(self).lists()[*component_key]);
                    lemma_key_position(s0, key);
                }
                match mask_list_get(&list, key) {
                    Some(bytes) => {
                        let mut mask = DiffMask::from_bytes(bytes);
                        mask.copy_contents(other);
                        mask_list_insert(&mut list, key, mask.into_bytes());
                    },
                    None => {},
                }
                self.component_diff_mask_list_map.insert(*component_key, list);
                proof {
                    let p = key_position(s0, key);
                    if p != -1 {
                        let v = if s0[p].1.len() == other@.len() { other@ } else { s0[p].1 };
                        let s1 = s0.update(p, (key, v));
                        assert(mask_list_entries(list) == s1);
                        assert forall|a: int, b: int| 0 <= a < b < s1.len() implies s1[a].0 != s1[b].0 by {
                            assert(s1[a].0 == s0[a].0);
                            assert(s1[b].0 == s0[b].0);
                        }
                        if s0[p].1.len() != other@.len() {
                            assert(s1 =~= s0);
                        }
                    }
                    assert(self.lists() =~= (if p != -1 && s0[p].1.len() == other@.len() {
                        old(self).lists().insert(*component_key, s0.update(p, (key, other@)))
                    } else {
                        old(self).lists()
                    }));
                }
            },
        }
    }

    /// Registers component `component_key`, with no connection's mask yet.
    /// A component registers once.
    pub fn register_component(&mut self, component_key: &K)
        requires
            old(self).wf(),
            !old(self).lists().contains_key(*component_key),
        ensures
            final(self).wf(),
            final(self).lists() == old(self).lists().insert(*component_key, Seq::<((u128, u16), Seq<u8>)>::empty()),
    {
        self.component_diff_mask_list_map.insert(*component_key, new_mask_list());
        proof {
            assert(self.lists() =~= old(self).lists().insert(*component_key, Seq::<((u128, u16), Seq<u8>)>::empty()));
        }
    }

    /// Deregisters component `component_key` with all its masks.
    pub fn deregister_component(&mut self, component_key: &K)
        requires
            old(self).wf(),
        ensures
            final(self).wf(),
            final(self).lists() == old(self).lists().remove(*component_key),
    {
        self.component_diff_mask_list_map.remove(component_key);
        proof {
            assert(self.lists() =~= old(self).lists().remove(*component_key));
        }
    }

    /// Gives connection `address` the mask `mask` for component
    /// `component_key`, if the component is registered: a connection
    /// already listed keeps its place, a new one is appended.
    ///
    /// The mask moves into the handler, which is its one holder from then
    /// on: every later `mutate` of the component marks it, `clear_component`
    /// and `set_component` change it, and the connection reads it back
    /// through `diff_mask`.
    pub fn register_mask(&mut self, address: &Address, component_key: &K, mask: DiffMask)
        requires
            old(self).wf(),
        ensures
            final(self).wf(),
            final(self).lists() == if old(self).lists().contains_key(*component_key) {
                old(self).lists().insert(
                    *component_key,
                    list_insert(old(self).lists()[*component_key], address_key(*address), mask@),
                )
            } else {
                old(self).lists()
            },
    {
        proof {
            self.lemma_lists();
        }
        let key = (address.ip, address.port);
        let taken = self.component_diff_mask_list_map.remove(component_key);
        match taken {
            None => {
                proof {
                    assert(self.lists() =~= old(self).lists());
                }
            },
            Some(mut list) => {
                let ghost s0 = mask_list_entries(list);
                proof {
                    assert(s0 == old(self).lists()[*component_key]);
                    lemma_key_position(s0, key);
                }
                mask_list_insert(&mut list, key, mask.into_bytes());
                self.component_diff_mask_list_map.insert(*component_key, list);
                proof {
                    let s1 = list_insert(s0, key, mask@);
                    assert(mask_list_entries(list) == s1);
                    assert forall|a: int, b: int| 0 <= a < b < s1.len() implies s1[a].0 != s1[b].0 by {
                        if b < s0.len() {
                            assert(s1[a].0 == s0[a].0);
                            assert(s1[b].0 == s0[b].0);
                        }
                    }
                    assert(self.lists() =~= old(self).lists().insert(*component_key, s1));
                }
            },
        }
    }

    /// Drops the mask of connection `address` for component `component_key`,
    /// if both are registered; the last connection listed takes its place.
    pub fn deregister_mask(&mut self, address: &Address, component_key: &K)
        requires
            old(self).wf(),
        ensures
            final(self).wf(),
            final(self).lists() == if old(self).lists().contains_key(*component_key) {
                old(self).lists().insert(
                    *component_key,
                    list_swap_remove(old(self).lists()[*component_key], address_key(*address)),
                )
            } else {
                old(self).lists()
            },
    {
        proof {
            self.lemma_lists();
        }
        let key = (address.ip, address.port);
        let taken = self.component_diff_mask_list_map.remove(component_key);
        match taken {
            None => {
                proof {
                    assert(self.lists() =~= old(self).lists());
                }
            },
            Some(mut list) => {
                let ghost s0 = mask_list_entries(list);
                proof {
                    assert(s0 == old(self).lists()[*component_key]);
                    lemma_key_position(s0, key);
                }
                mask_list_swap_remove(&mut list, key);
                self.component_diff_mask_list_map.insert(*component_key, list);
                proof {
                    let s1 = list_swap_remove(s0, key);
                    let p = key_position(s0, key);
                    assert(mask_list_entries(list) == s1);
                    if p != -1 {
                        assert forall|a: int, b: int| 0 <= a < b < s1.len() implies s1[a].0 != s1[b].0 by {
                            let last = s0.len() - 1;
                            let ia = if a == p { last } else { a };
                            let ib = if b == p { last } else { b };
                            assert(s1[a] == s0[ia]);
                            assert(s1[b] == s0[ib]);
                        }
                    }
                    assert(self.lists() =~= old(self).lists().insert(*component_key, s1));
                }
            },
        }
    }

    /// The mask of connection `address` for component `component_key`, if
    /// both are registered.
    pub fn diff_mask(&self, address: &Address, component_key: &K) -> (r: Option<DiffMask>)
        requires
            self.wf(),
        ensures
            r is Some == (self.lists().contains_key(*component_key)
                && key_position(self.lists()[*component_key], address_key(*address)) != -1),
            r is Some ==> r->0@ == self.lists()[*component_key][
                key_position(self.lists()[*component_key], address_key(*address))].1,
    {
        proof {
            self.lemma_lists();
        }
        match self.component_diff_mask_list_map.get(component_key) {
            Some(list) => match mask_list_get(list, (address.ip, address.port)) {
                Some(bytes) => Some(DiffMask::from_bytes(bytes)),
                None => None,
            },
            None => None,
        }
    }
}

/// Reports the property changes of one component to the mutation handler,
/// once it knows which component it belongs to.
pub struct PropertyMutator<K> {
    key: Option<K>,
}

impl<K: Copy + Eq + Hash> PropertyMutator<K> {
    /// The component the changes belong to, once set.
    pub closed spec fn component_key(&self) -> Option<K> {
        self.key
    }

    /// A mutator that does not know its component yet.
    pub fn new() -> (r: Self)
        ensures
            r.component_key() is None,
    {
        PropertyMutator { key: None }
    }

    /// The changes belong to component `key` from now on.
    pub fn set_component_key(&mut self, key: K)
        ensures
            final(self).component_key() == Some(key),
    {
        self.key = Some(key);
    }

    /// Property `property_index` changed: marked in every connection's mask
    /// of the component, if the component is known; otherwise nothing.
    pub fn mutate(&self, mut_handler: &mut MutHandler<K>, property_index: u8)
        requires
            old(mut_handler).wf(),
        ensures
            final(mut_handler).wf(),
            final(mut_handler).lists() == match self.component_key() {
                Some(k) => lists_after_mutate(old(mut_handler).lists(), k, property_index),
                None => old(mut_handler).lists(),
            },
    {
        match self.key {
            Some(key) => mut_handler.mutate(&key, property_index),
            None => {},
        }
    }
}

} // verus!
