//! Change masks: the server's registry of which components are tracked and
//! how long their masks are, and one connection's masks — for each watched
//! component of each entity, which of its properties changed since they
//! were last sent.

use std::collections::HashMap;
use std::hash::Hash;

use vstd::prelude::*;
use vstd::std_specs::hash::obeys_key_model;

use crate::diff_mask::{mask_is_clear, mask_or, mask_set_bit, zeros, DiffMask};
use crate::keys::ComponentKind;
use crate::maps::keys_of;

verus! {

broadcast use vstd::std_specs::hash::group_hash_axioms;

/// A change mask for each `(entity, component kind)` it holds one for.
pub struct ComponentMasks<E: Copy + Eq + Hash> {
    masks: HashMap<E, HashMap<u16, DiffMask>>,
}

impl<E: Copy + Eq + Hash> ComponentMasks<E> {
    /// The masks held, by entity and component kind.
    pub closed spec fn view_masks(&self) -> Map<(E, ComponentKind), Seq<u8>> {
        Map::new(
            |p: (E, ComponentKind)| self.masks@.contains_key(p.0) && self.masks@[p.0]@.contains_key(p.1.0),
            |p: (E, ComponentKind)| self.masks@[p.0]@[p.1.0]@,
        )
    }

    /// No mask held.
    pub fn new() -> (r: Self)
        ensures
            r.view_masks() == Map::<(E, ComponentKind), Seq<u8>>::empty(),
    {
        let r = ComponentMasks { masks: HashMap::new() };
        proof {
            assert(r.view_masks() =~= Map::<(E, ComponentKind), Seq<u8>>::empty());
        }
        r
    }

    /// Whether a mask is held for component `kind` of `entity`.
    pub fn contains(&self, entity: &E, kind: &ComponentKind) -> (r: bool)
        requires
            obeys_key_model::<E>(),
        ensures
            r == self.view_masks().contains_key((*entity, *kind)),
    {
        match self.masks.get(entity) {
            Some(inner) => inner.contains_key(&kind.0),
            None => false,
        }
    }

    /// The mask held for component `kind` of `entity`, if any.
    pub fn get(&self, entity: &E, kind: &ComponentKind) -> (r: Option<&DiffMask>)
        requires
            obeys_key_model::<E>(),
        ensures
            r is Some == self.view_masks().contains_key((*entity, *kind)),
            r is Some ==> r->0@ == self.view_masks()[(*entity, *kind)],
    {
        match self.masks.get(entity) {
            Some(inner) => inner.get(&kind.0),
            None => None,
        }
    }

    /// Holds `mask` for component `kind` of `entity`, replacing any held.
    pub fn insert(&mut self, entity: E, kind: ComponentKind, mask: DiffMask)
        requires
            obeys_key_model::<E>(),
        ensures
            final(self).view_masks() == old(self).view_masks().insert((entity, kind), mask@),
    {
        let ghost m = mask@;
        let mut inner = match self.masks.remove(&entity) {
            Some(inner) => inner,
            None => HashMap::new(),
        };
        inner.insert(kind.0, mask);
        self.masks.insert(entity, inner);
        proof {
            assert(self.view_masks() =~= old(self).view_masks().insert((entity, kind), m));
        }
    }

    /// Stops holding a mask for component `kind` of `entity`.
    pub fn remove(&mut self, entity: &E, kind: &ComponentKind)
        requires
            obeys_key_model::<E>(),
        ensures
            final(self).view_masks() == old(self).view_masks().remove((*entity, *kind)),
    {
        match self.masks.remove(entity) {
            Some(mut inner) => {
                inner.remove(&kind.0);
                self.masks.insert(*entity, inner);
            },
            None => {},
        }
        proof {
            assert(self.view_masks() =~= old(self).view_masks().remove((*entity, *kind)));
        }
    }

    /// Takes the mask held for component `kind` of `entity` out.
    fn take(&mut self, entity: &E, kind: &ComponentKind) -> (r: Option<DiffMask>)
        requires
            obeys_key_model::<E>(),
        ensures
            r is Some == old(self).view_masks().contains_key((*entity, *kind)),
            r is Some ==> r->0@ == old(self).view_masks()[(*entity, *kind)],
            final(self).view_masks() == old(self).view_masks().remove((*entity, *kind)),
    {
        let r = match self.masks.remove(entity) {
            Some(mut inner) => {
                let m = inner.remove(&kind.0);
                self.masks.insert(*entity, inner);
                m
            },
            None => None,
        };
        proof {
            assert(self.view_masks() =~= old(self).view_masks().remove((*entity, *kind)));
        }
        r
    }

    /// Every `(entity, kind)` a mask is held for, each once, in no
    /// particular order.
    pub fn keys(&self) -> (r: Vec<(E, ComponentKind)>)
        requires
            obeys_key_model::<E>(),
        ensures
            r@.to_set() == self.view_masks().dom(),
            r@.no_duplicates(),
    {
        let entities = keys_of(&self.masks);
        let mut r: Vec<(E, ComponentKind)> = Vec::new();
        let mut i: usize = 0;
        while i < entities.len()
            invariant
                obeys_key_model::<E>(),
                i <= entities@.len(),
                entities@.to_set() == self.masks@.dom(),
                entities@.no_duplicates(),
                r@.no_duplicates(),
                forall|p: (E, ComponentKind)| #[trigger] r@.contains(p) <==> (
                    self.view_masks().contains_key(p) && exists|j: int| 0 <= j < i && entities@[j] == p.0),
            decreases entities@.len() - i,
        {
            let e = entities[i];
            proof {
                assert(entities@.contains(e));
            }
            let inner = self.masks.get(&e).unwrap();
            let kinds = keys_of(inner);
            let ghost before = r@;
            proof {
                assert forall|x: int| 0 <= x < before.len() implies before[x].0 != e by {
                    assert(r@.contains(before[x]));
                    if before[x].0 == e {
                        let j2 = choose|j2: int| 0 <= j2 < i && entities@[j2] == before[x].0;
                        assert(entities@[j2] == entities@[i as int]);
                    }
                }
            }
            let mut j: usize = 0;
            while j < kinds.len()
                invariant
                    obeys_key_model::<E>(),
                    i < entities@.len(),
                    e == entities@[i as int],
                    entities@.no_duplicates(),
                    self.masks@.contains_key(e),
                    *inner == self.masks@[e],
                    kinds@.to_set() == inner@.dom(),
                    kinds@.no_duplicates(),
                    j <= kinds@.len(),
                    r@ == before + Seq::new(j as nat, |x: int| (e, ComponentKind(kinds@[x]))),
                    before.no_duplicates(),
                    forall|x: int| 0 <= x < before.len() ==> before[x].0 != e,
                decreases kinds@.len() - j,
            {
                let k = kinds[j];
                r.push((e, ComponentKind(k)));
                j += 1;
                proof {
                    assert(r@ =~= before + Seq::new(j as nat, |x: int| (e, ComponentKind(kinds@[x]))));
                }
            }
            proof {
                let added = Seq::new(kinds@.len(), |x: int| (e, ComponentKind(kinds@[x])));
                assert(r@ == before + added);
                assert forall|a: int, b: int| 0 <= a < b < r@.len() implies r@[a] != r@[b] by {
                    if b < before.len() {
                    } else if a < before.len() {
                        assert(r@[a].0 != e);
                    } else {
                        assert(kinds@[a - before.len()] != kinds@[b - before.len()]);
                    }
                }
                assert forall|p: (E, ComponentKind)| #[trigger] r@.contains(p) <==> (
                    self.view_masks().contains_key(p) && exists|j2: int| 0 <= j2 < i + 1 && entities@[j2] == p.0)
                by {
                    if r@.contains(p) {
                        let x = choose|x: int| 0 <= x < r@.len() && r@[x] == p;
                        if x < before.len() {
                            assert(before.contains(p));
                        } else {
                            assert(p == added[x - before.len()]);
                            assert(kinds@.contains(kinds@[x - before.len()]));
                            assert(entities@[i as int] == p.0);
                        }
                    }
                    if self.view_masks().contains_key(p) && exists|j2: int| 0 <= j2 < i + 1 && entities@[j2] == p.0 {
                        if p.0 == e {
                            assert(inner@.contains_key(p.1.0));
                            assert(kinds@.to_set().contains(p.1.0));
                            let y = choose|y: int| 0 <= y < kinds@.len() && kinds@[y] == p.1.0;
                            assert(r@[before.len() + y] == p);
                        } else {
                            let j2 = choose|j2: int| 0 <= j2 < i + 1 && entities@[j2] == p.0;
                            assert(j2 != i);
                            assert(before.contains(p));
                            let x = choose|x: int| 0 <= x < before.len() && before[x] == p;
                            assert(r@[x] == p);
                        }
                    }
                }
            }
            i += 1;
        }
        proof {
            assert forall|p: (E, ComponentKind)| r@.to_set().contains(p) <==> self.view_masks().dom().contains(p) by {
                if self.view_masks().contains_key(p) {
                    assert(entities@.to_set().contains(p.0));
                    let j = choose|j: int| 0 <= j < entities@.len() && entities@[j] == p.0;
                    assert(r@.contains(p));
                }
            }
            assert(r@.to_set() =~= self.view_masks().dom());
        }
        r
    }
}

/// The server's registry of tracked components: each registered component
/// of each entity with the length of its change masks, in bytes.
pub struct GlobalDiffHandler<E: Copy + Eq + Hash> {
    mask_lengths: HashMap<E, HashMap<u16, u8>>,
}

impl<E: Copy + Eq + Hash> GlobalDiffHandler<E> {
    /// The mask length of each registered component, by entity and kind.
    pub closed spec fn lengths(&self) -> Map<(E, ComponentKind), u8> {
        Map::new(
            |p: (E, ComponentKind)| self.mask_lengths@.contains_key(p.0) && self.mask_lengths@[p.0]@.contains_key(p.1.0),
            |p: (E, ComponentKind)| self.mask_lengths@[p.0]@[p.1.0],
        )
    }

    /// Nothing registered.
    pub fn new() -> (r: Self)
        ensures
            r.lengths() == Map::<(E, ComponentKind), u8>::empty(),
    {
        let r = GlobalDiffHandler { mask_lengths: HashMap::new() };
        proof {
            assert(r.lengths() =~= Map::<(E, ComponentKind), u8>::empty());
        }
        r
    }

    /// Registers component `kind` of `entity` with masks of
    /// `diff_mask_length` bytes. A component registers once.
    pub fn register_component(&mut self, entity: &E, kind: &ComponentKind, diff_mask_length: u8)
        requires
            obeys_key_model::<E>(),
            !old(self).lengths().contains_key((*entity, *kind)),
        ensures
            final(self).lengths() == old(self).lengths().insert((*entity, *kind), diff_mask_length),
    {
        let mut inner = match self.mask_lengths.remove(entity) {
            Some(inner) => inner,
            None => HashMap::new(),
        };
        inner.insert(kind.0, diff_mask_length);
        self.mask_lengths.insert(*entity, inner);
        proof {
            assert(self.lengths() =~= old(self).lengths().insert((*entity, *kind), diff_mask_length));
        }
    }

    /// Deregisters component `kind` of `entity`.
    pub fn deregister_component(&mut self, entity: &E, kind: &ComponentKind)
        requires
            obeys_key_model::<E>(),
        ensures
            final(self).lengths() == old(self).lengths().remove((*entity, *kind)),
    {
        match self.mask_lengths.remove(entity) {
            Some(mut inner) => {
                inner.remove(&kind.0);
                self.mask_lengths.insert(*entity, inner);
            },
            None => {},
        }
        proof {
            assert(self.lengths() =~= old(self).lengths().remove((*entity, *kind)));
        }
    }

    /// The mask length a connection's mask of component `kind` of `entity`
    /// is made with, if the component is registered.
    pub fn receiver(&self, entity: &E, kind: &ComponentKind) -> (r: Option<u8>)
        requires
            obeys_key_model::<E>(),
        ensures
            r is Some == self.lengths().contains_key((*entity, *kind)),
            r is Some ==> r->0 == self.lengths()[(*entity, *kind)],
    {
        match self.mask_lengths.get(entity) {
            Some(inner) => match inner.get(&kind.0) {
                Some(len) => Some(*len),
                None => None,
            },
            None => None,
        }
    }
}

/// One connection's change masks: a mask for each watched component,
/// marked as properties change and cleared when they are sent.
pub struct UserDiffHandler<E: Copy + Eq + Hash> {
    receivers: ComponentMasks<E>,
}

impl<E: Copy + Eq + Hash> UserDiffHandler<E> {
    /// The mask of each watched component, by entity and kind.
    pub closed spec fn masks(&self) -> Map<(E, ComponentKind), Seq<u8>> {
        self.receivers.view_masks()
    }

    /// No component watched.
    pub fn new() -> (r: Self)
        ensures
            r.masks() == Map::<(E, ComponentKind), Seq<u8>>::empty(),
    {
        UserDiffHandler { receivers: ComponentMasks::new() }
    }

    /// Starts watching component `kind` of `entity` with a clear mask of
    /// `diff_mask_length` bytes (the length the server's registry gives,
    /// see [`GlobalDiffHandler::receiver`]); a component already watched
    /// keeps its mask.
    pub fn register_component(&mut self, entity: &E, kind: &ComponentKind, diff_mask_length: u8)
        requires
            obeys_key_model::<E>(),
        ensures
            final(self).masks() == if old(self).masks().contains_key((*entity, *kind)) {
                old(self).masks()
            } else {
                old(self).masks().insert((*entity, *kind), zeros(diff_mask_length as nat))
            },
    {
        if !self.receivers.contains(entity, kind) {
            self.receivers.insert(*entity, *kind, DiffMask::new(diff_mask_length));
        }
    }

    /// Stops watching component `kind` of `entity`.
    pub fn deregister_component(&mut self, entity: &E, kind: &ComponentKind)
        requires
            obeys_key_model::<E>(),
        ensures
            final(self).masks() == old(self).masks().remove((*entity, *kind)),
    {
        self.receivers.remove(entity, kind);
    }

    /// Whether component `kind` of `entity` is watched.
    pub fn has_component(&self, entity: &E, kind: &ComponentKind) -> (r: bool)
        requires
            obeys_key_model::<E>(),
        ensures
            r == self.masks().contains_key((*entity, *kind)),
    {
        self.receivers.contains(entity, kind)
    }

    /// The mask of component `kind` of `entity`, if watched.
    pub fn diff_mask(&self, entity: &E, kind: &ComponentKind) -> (r: Option<&DiffMask>)
        requires
            obeys_key_model::<E>(),
        ensures
            r is Some == self.masks().contains_key((*entity, *kind)),
            r is Some ==> r->0@ == self.masks()[(*entity, *kind)],
    {
        self.receivers.get(entity, kind)
    }

    /// Whether the mask of component `kind` of `entity` is clear, if it is
    /// watched.
    pub fn diff_mask_is_clear(&self, entity: &E, kind: &ComponentKind) -> (r: Option<bool>)
        requires
            obeys_key_model::<E>(),
        ensures
            r is Some == self.masks().contains_key((*entity, *kind)),
            r is Some ==> r->0 == mask_is_clear(self.masks()[(*entity, *kind)]),
    {
        match self.receivers.get(entity, kind) {
            Some(m) => Some(m.is_clear()),
            None => None,
        }
    }

    /// Marks, in the mask of the watched component `kind` of `entity`,
    /// every property marked in `other`.
    pub fn or_diff_mask(&mut self, entity: &E, kind: &ComponentKind, other: &DiffMask)
        requires
            obeys_key_model::<E>(),
            old(self).masks().contains_key((*entity, *kind)),
        ensures
            final(self).masks() == old(self).masks().insert(
                (*entity, *kind),
                mask_or(old(self).masks()[(*entity, *kind)], other@),
            ),
    {
        let mut m = self.receivers.take(entity, kind).unwrap();
        m.or(other);
        self.receivers.insert(*entity, *kind, m);
        proof {
            assert(self.masks() =~= old(self).masks().insert(
                (*entity, *kind),
                mask_or(old(self).masks()[(*entity, *kind)], other@),
            ));
        }
    }

    /// Clears the mask of the watched component `kind` of `entity`.
    pub fn clear_diff_mask(&mut self, entity: &E, kind: &ComponentKind)
        requires
            obeys_key_model::<E>(),
            old(self).masks().contains_key((*entity, *kind)),
        ensures
            final(self).masks() == old(self).masks().insert(
                (*entity, *kind),
                zeros(old(self).masks()[(*entity, *kind)].len()),
            ),
    {
        let mut m = self.receivers.take(entity, kind).unwrap();
        m.clear();
        self.receivers.insert(*entity, *kind, m);
        proof {
            assert(self.masks() =~= old(self).masks().insert(
                (*entity, *kind),
                zeros(old(self).masks()[(*entity, *kind)].len()),
            ));
        }
    }

    /// A change of property `index` of component `kind` of `entity`, as
    /// the component's broadcast delivers it to this connection: marked if
    /// the component is watched, else nothing.
    pub fn mutate(&mut self, entity: &E, kind: &ComponentKind, index: u8)
        requires
            obeys_key_model::<E>(),
        ensures
            final(self).masks() == if old(self).masks().contains_key((*entity, *kind)) {
                old(self).masks().insert(
                    (*entity, *kind),
                    mask_set_bit(old(self).masks()[(*entity, *kind)], index, true),
                )
            } else {
                old(self).masks()
            },
    {
        match self.receivers.take(entity, kind) {
            Some(mut m) => {
                m.set_bit(index, true);
                self.receivers.insert(*entity, *kind, m);
                proof {
                    assert(self.masks() =~= old(self).masks().insert(
                        (*entity, *kind),
                        mask_set_bit(old(self).masks()[(*entity, *kind)], index, true),
                    ));
                }
            },
            None => {
                proof {
                    assert(self.masks() =~= old(self).masks());
                }
            },
        }
    }

    /// Every watched `(entity, kind)`, each once, in no particular order.
    pub fn components(&self) -> (r: Vec<(E, ComponentKind)>)
        requires
            obeys_key_model::<E>(),
        ensures
            r@.to_set() == self.masks().dom(),
            r@.no_duplicates(),
    {
        self.receivers.keys()
    }
}

} // verus!
