//! The server's record of the world it replicates: each entity with the
//! handle it is known by on the wire, its component kinds and the room it
//! belongs to.

use std::collections::HashMap;
use std::hash::Hash;

use vstd::prelude::*;
use vstd::std_specs::hash::obeys_key_model;

use crate::keys::{ComponentKind, RoomKey};
use crate::kinds::KindSet;

verus! {

broadcast use vstd::std_specs::hash::group_hash_axioms;

/// What the server records of one entity.
pub struct GlobalEntityRecord {
    /// The room the entity belongs to, if any.
    pub room_key: Option<RoomKey>,
    /// The handle the entity is known by.
    pub entity_handle: u64,
    /// The kinds of its components.
    pub component_kinds: KindSet,
}

/// The mathematical value of a [`GlobalEntityRecord`].
pub struct RecordView {
    pub room_key: Option<RoomKey>,
    pub entity_handle: u64,
    pub component_kinds: Set<ComponentKind>,
}

impl GlobalEntityRecord {
    pub open spec fn view(&self) -> RecordView {
        RecordView {
            room_key: self.room_key,
            entity_handle: self.entity_handle,
            component_kinds: self.component_kinds@,
        }
    }

    /// The record of a new entity known by `entity_handle`: no room, no
    /// component.
    pub fn new(entity_handle: u64) -> (r: Self)
        ensures
            r.view() == (RecordView {
                room_key: None,
                entity_handle,
                component_kinds: Set::<ComponentKind>::empty(),
            }),
            r.component_kinds.wf(),
    {
        GlobalEntityRecord { room_key: None, entity_handle, component_kinds: KindSet::new() }
    }
}

/// The entities the server replicates, with the handles they are known by.
pub struct WorldRecord<E: Copy + Eq + Hash> {
    entity_records: HashMap<E, GlobalEntityRecord>,
    handle_entity_map: HashMap<u64, E>,
    next_handle: u64,
}

impl<E: Copy + Eq + Hash> WorldRecord<E> {
    /// Each recorded entity's record.
    pub closed spec fn records(&self) -> Map<E, RecordView> {
        self.entity_records@.map_values(|r: GlobalEntityRecord| r.view())
    }

    /// The entity each handle handed out stands for.
    pub closed spec fn handles(&self) -> Map<u64, E> {
        self.handle_entity_map@
    }

    /// The handle the next spawned entity gets.
    pub closed spec fn next_handle(&self) -> u64 {
        self.next_handle
    }

    /// Every recorded entity's handle stands for it, and every handle
    /// handed out is below the next one.
    pub open spec fn wf(&self) -> bool {
        &&& obeys_key_model::<E>()
        &&& self.kinds_wf()
        &&& forall|e: E| #[trigger] self.records().contains_key(e)
            ==> self.handles().contains_key(self.records()[e].entity_handle)
                && self.handles()[self.records()[e].entity_handle] == e
        &&& forall|h: u64| #[trigger] self.handles().contains_key(h) ==> h < self.next_handle()
    }

    pub closed spec fn kinds_wf(&self) -> bool {
        forall|e: E| #[trigger] self.entity_records@.contains_key(e) ==> self.entity_records@[e].component_kinds.wf()
    }

    proof fn lemma_records(&self)
        ensures
            self.records().dom() == self.entity_records@.dom(),
            forall|e: E| #[trigger] self.entity_records@.contains_key(e) ==> self.records()[e] == self.entity_records@[e].view(),
    {
        assert(self.records().dom() =~= self.entity_records@.dom());
    }

    /// Nothing recorded; the entity type must hash and compare
    /// deterministically.
    pub fn new() -> (r: Self)
        requires
            obeys_key_model::<E>(),
        ensures
            r.wf(),
            r.records() == Map::<E, RecordView>::empty(),
            r.handles() == Map::<u64, E>::empty(),
            r.next_handle() == 0,
    {
        let r = WorldRecord { entity_records: HashMap::new(), handle_entity_map: HashMap::new(), next_handle: 0 };
        proof {
            assert(r.records() =~= Map::<E, RecordView>::empty());
        }
        r
    }

    /// Records a new entity under the next handle. An entity is recorded
    /// once.
    pub fn spawn_entity(&mut self, entity: &E)
        requires
            old(self).wf(),
            !old(self).records().contains_key(*entity),
            old(self).next_handle() < u64::MAX,
        ensures
            final(self).wf(),
            final(self).records() == old(self).records().insert(*entity, RecordView {
                room_key: None,
                entity_handle: old(self).next_handle(),
                component_kinds: Set::<ComponentKind>::empty(),
            }),
            final(self).handles() == old(self).handles().insert(old(self).next_handle(), *entity),
            final(self).next_handle() == old(self).next_handle() + 1,
    {
        proof {
            self.lemma_records();
        }
        let handle = self.next_handle;
        self.next_handle = handle + 1;
        self.handle_entity_map.insert(handle, *entity);
        self.entity_records.insert(*entity, GlobalEntityRecord::new(handle));
        proof {
            self.lemma_records();
            assert(self.records() =~= old(self).records().insert(*entity, RecordView {
                room_key: None,
                entity_handle: handle,
                component_kinds: Set::<ComponentKind>::empty(),
            }));
            assert forall|e: E| #[trigger] self.records().contains_key(e) implies
                self.handles().contains_key(self.records()[e].entity_handle)
                    && self.handles()[self.records()[e].entity_handle] == e by {
                if e != *entity {
                    assert(old(self).records().contains_key(e));
                    assert(old(self).handles().contains_key(old(self).records()[e].entity_handle));
                    assert(old(self).records()[e].entity_handle < handle);
                }
            }
            assert forall|h: u64| #[trigger] self.handles().contains_key(h) implies h < self.next_handle() by {
                if h != handle {
                    assert(old(self).handles().contains_key(h));
                }
            }
            assert(self.kinds_wf());
        }
    }

    /// Forgets a recorded entity and hands back its record. Its handle stays
    /// handed out.
    pub fn despawn_entity(&mut self, entity: &E) -> (r: Option<GlobalEntityRecord>)
        requires
            old(self).wf(),
            old(self).records().contains_key(*entity),
        ensures
            final(self).wf(),
            r is Some,
            r->0.view() == old(self).records()[*entity],
            final(self).records() == old(self).records().remove(*entity),
            final(self).handles() == old(self).handles(),
            final(self).next_handle() == old(self).next_handle(),
    {
        proof {
            self.lemma_records();
        }
        let r = self.entity_records.remove(entity);
        proof {
            self.lemma_records();
            assert(self.records() =~= old(self).records().remove(*entity));
        }
        r
    }

    /// Adds kind `component_kind` to a recorded entity.
    pub fn add_component(&mut self, entity: &E, component_kind: &ComponentKind)
        requires
            old(self).wf(),
            old(self).records().contains_key(*entity),
        ensures
            final(self).wf(),
            final(self).records() == old(self).records().insert(*entity, RecordView {
                component_kinds: old(self).records()[*entity].component_kinds.insert(*component_kind),
                ..old(self).records()[*entity]
            }),
            final(self).handles() == old(self).handles(),
            final(self).next_handle() == old(self).next_handle(),
    {
        proof {
            self.lemma_records();
        }
        let mut record = self.entity_records.remove(entity).unwrap();
        record.component_kinds.insert(*component_kind);
        self.entity_records.insert(*entity, record);
        proof {
            self.lemma_records();
            assert(self.records() =~= old(self).records().insert(*entity, RecordView {
                component_kinds: old(self).records()[*entity].component_kinds.insert(*component_kind),
                ..old(self).records()[*entity]
            }));
        }
    }

    /// Removes kind `component_kind`, which it must have, from a recorded
    /// entity.
    pub fn remove_component(&mut self, entity: &E, component_kind: &ComponentKind)
        requires
            old(self).wf(),
            old(self).records().contains_key(*entity),
            old(self).records()[*entity].component_kinds.contains(*component_kind),
        ensures
            final(self).wf(),
            final(self).records() == old(self).records().insert(*entity, RecordView {
                component_kinds: old(self).records()[*entity].component_kinds.remove(*component_kind),
                ..old(self).records()[*entity]
            }),
            final(self).handles() == old(self).handles(),
            final(self).next_handle() == old(self).next_handle(),
    {
        proof {
            self.lemma_records();
        }
        let mut record = self.entity_records.remove(entity).unwrap();
        record.component_kinds.remove(component_kind);
        self.entity_records.insert(*entity, record);
        proof {
            self.lemma_records();
            assert(self.records() =~= old(self).records().insert(*entity, RecordView {
                component_kinds: old(self).records()[*entity].component_kinds.remove(*component_kind),
                ..old(self).records()[*entity]
            }));
        }
    }

    /// Whether `entity` is recorded.
    pub fn has_entity(&self, entity: &E) -> (r: bool)
        requires
            self.wf(),
        ensures
            r == self.records().contains_key(*entity),
    {
        proof {
            self.lemma_records();
        }
        self.entity_records.contains_key(entity)
    }

    /// The component kinds of a recorded entity, each once, in no promised
    /// order; `None` for an unrecorded entity.
    pub fn component_kinds(&self, entity: &E) -> (r: Option<Vec<ComponentKind>>)
        requires
            self.wf(),
        ensures
            r is Some == self.records().contains_key(*entity),
            r is Some ==> r->0@.to_set() == self.records()[*entity].component_kinds && r->0@.no_duplicates(),
    {
        proof {
            self.lemma_records();
        }
        match self.entity_records.get(entity) {
            Some(record) => {
                proof {
                    record.component_kinds.lemma_order_matches();
                    record.component_kinds.lemma_order_unique();
                }
                Some(record.component_kinds.to_vec())
            },
            None => None,
        }
    }

    /// Whether `entity` is recorded in room `room_key`.
    pub fn entity_is_in_room(&self, entity: &E, room_key: &RoomKey) -> (r: bool)
        requires
            self.wf(),
        ensures
            r == (self.records().contains_key(*entity) && self.records()[*entity].room_key == Some(*room_key)),
    {
        proof {
            self.lemma_records();
        }
        match self.entity_records.get(entity) {
            Some(record) => match record.room_key {
                Some(actual) => actual == *room_key,
                None => false,
            },
            None => false,
        }
    }

    /// A recorded entity enters room `room_key`; it must not be in a room
    /// yet. Nothing changes for an unrecorded entity.
    pub fn entity_enter_room(&mut self, entity: &E, room_key: &RoomKey)
        requires
            old(self).wf(),
            old(self).records().contains_key(*entity) ==> old(self).records()[*entity].room_key is None,
        ensures
            final(self).wf(),
            final(self).records() == if old(self).records().contains_key(*entity) {
                old(self).records().insert(*entity, RecordView { room_key: Some(*room_key), ..old(self).records()[*entity] })
            } else {
                old(self).records()
            },
            final(self).handles() == old(self).handles(),
            final(self).next_handle() == old(self).next_handle(),
    {
        self.set_room(entity, Some(*room_key));
    }

    /// A recorded entity leaves its room. Nothing changes for an unrecorded
    /// entity.
    pub fn entity_leave_rooms(&mut self, entity: &E)
        requires
            old(self).wf(),
        ensures
            final(self).wf(),
            final(self).records() == if old(self).records().contains_key(*entity) {
                old(self).records().insert(*entity, RecordView { room_key: None, ..old(self).records()[*entity] })
            } else {
                old(self).records()
            },
            final(self).handles() == old(self).handles(),
            final(self).next_handle() == old(self).next_handle(),
    {
        self.set_room(entity, None);
    }

    fn set_room(&mut self, entity: &E, room: Option<RoomKey>)
        requires
            old(self).wf(),
        ensures
            final(self).wf(),
            final(self).records() == if old(self).records().contains_key(*entity) {
                old(self).records().insert(*entity, RecordView { room_key: room, ..old(self).records()[*entity] })
            } else {
                old(self).records()
            },
            final(self).handles() == old(self).handles(),
            final(self).next_handle() == old(self).next_handle(),
    {
        proof {
            self.lemma_records();
        }
        match self.entity_records.remove(entity) {
            Some(mut record) => {
                proof {
                    assert(old(self).entity_records@.contains_key(*entity));
                    assert(record.component_kinds.wf());
                }
                record.room_key = room;
                self.entity_records.insert(*entity, record);
                proof {
                    self.lemma_records();
                    assert(self.kinds_wf());
                    assert forall|e: E| #[trigger] self.records().contains_key(e) implies
                        self.handles().contains_key(self.records()[e].entity_handle)
                            && self.handles()[self.records()[e].entity_handle] == e by {
                        assert(old(self).records().contains_key(e));
                        assert(self.records()[e].entity_handle == old(self).records()[e].entity_handle);
                    }
                    assert(self.records() =~= old(self).records().insert(*entity, RecordView {
                        room_key: room,
                        ..old(self).records()[*entity]
                    }));
                }
            },
            None => {
                proof {
                    assert(self.entity_records@ =~= old(self).entity_records@);
                }
            },
        }
        proof {
            assert forall|h: u64| #[trigger] self.handles().contains_key(h) implies h < self.next_handle() by {
                assert(old(self).handles().contains_key(h));
            }
        }
    }

    /// The entity handle `handle` stands for; the handle must have been
    /// handed out.
    pub fn handle_to_entity(&self, handle: &u64) -> (r: E)
        requires
            self.wf(),
            self.handles().contains_key(*handle),
        ensures
            r == self.handles()[*handle],
    {
        *self.handle_entity_map.get(handle).unwrap()
    }

    /// The handle of a recorded entity.
    pub fn entity_to_handle(&self, entity: &E) -> (r: u64)
        requires
            self.wf(),
            self.records().contains_key(*entity),
        ensures
            r == self.records()[*entity].entity_handle,
    {
        proof {
            self.lemma_records();
        }
        self.entity_records.get(entity).unwrap().entity_handle
    }
}

/// A recorded entity's handle leads back to it, and distinct recorded
/// entities have distinct handles.
pub proof fn lemma_handles_round_trip<E: Copy + Eq + Hash>(w: WorldRecord<E>, e: E, other: E)
    requires
        w.wf(),
        w.records().contains_key(e),
    ensures
        w.handles()[w.records()[e].entity_handle] == e,
        w.records().contains_key(other) && other != e ==> w.records()[other].entity_handle != w.records()[e].entity_handle,
{
    if w.records().contains_key(other) {
        assert(w.handles()[w.records()[other].entity_handle] == other);
    }
}

} // verus!
