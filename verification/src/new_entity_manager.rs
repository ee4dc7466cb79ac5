//! Entity replication for one connection by diffing: the connection's scope
//! is compared with what the client holds, each difference becomes an action
//! under a fresh id that is re-sent until a packet carrying it is delivered,
//! and an action superseded before then turns into a no-op.

use std::collections::{HashMap, VecDeque};
use std::hash::Hash;

use vstd::prelude::*;
use vstd::std_specs::hash::obeys_key_model;

use crate::entity_action::{EntityAction, NextSendActions, lemma_push_index_range, push_index};
use crate::keys::ComponentKind;
use crate::kinds::KindSet;
use crate::maps::keys_of;
use crate::world_channel::NetKeyGenerator;
use crate::diff_mask::{has_bit, mask_set_bit, mask_within, zeros, DiffMask};
use crate::entity_updates::{
    after_cleanup, cleared_after_write, component_due, marked_by_lost, record_after_write, unexpired_records, updates_written,
    EntityUpdates, SentView,
};
use crate::kinds::{kind_pairs, pairs_of};

verus! {

broadcast use vstd::std_specs::hash::group_hash_axioms;

/// How long the record of a sent packet's actions is kept, in milliseconds.
pub const PACKET_RECORD_TTL_MS: u64 = 60000;

/// The action bookkeeping of a [`NewEntityManager`]: the next action id,
/// the actions awaiting delivery with when each was last sent, and which
/// action is in flight for each entity and each entity's component (by
/// kind number).
#[verifier::reject_recursive_types(E)]
pub struct ActionState<E> {
    pub next_id: u16,
    pub sending: Map<u16, (Option<u64>, EntityAction<E>)>,
    pub sending_entities: Map<E, u16>,
    pub sending_components: Map<E, Map<u16, u16>>,
}

/// Whether component `key` has an update due: the client holds it, its
/// mask is registered and marks a change.
pub open spec fn remote_update_due<E>(remote: Map<E, Set<ComponentKind>>, handler: Map<(E, ComponentKind), Seq<u8>>, key: (E, ComponentKind)) -> bool {
    remote.contains_key(key.0) && remote[key.0].contains(key.1) && handler.contains_key(key)
        && !crate::diff_mask::mask_is_clear(handler[key])
}

/// The action id after `id`, wrapping.
pub open spec fn next_action_id(id: u16) -> u16 {
    if id == 65535 { 0 } else { (id + 1) as u16 }
}

/// Turning `e`'s in-flight entity action into a no-op can be done: if one
/// is recorded, it is still awaiting delivery.
pub open spec fn erase_entity_ok<E>(s: ActionState<E>, e: E) -> bool {
    s.sending_entities.contains_key(e) ==> s.sending.contains_key(s.sending_entities[e])
}

/// `e` no longer has an in-flight entity action; the one it had, if any,
/// becomes a no-op.
pub open spec fn erase_entity<E>(s: ActionState<E>, e: E) -> ActionState<E> {
    if !s.sending_entities.contains_key(e) {
        s
    } else {
        let id = s.sending_entities[e];
        ActionState {
            sending: s.sending.insert(id, (s.sending[id].0, EntityAction::Noop)),
            sending_entities: s.sending_entities.remove(e),
            ..s
        }
    }
}

/// A new spawn (or despawn) of `e` under the next action id, superseding
/// the entity's in-flight action.
pub open spec fn sync_entity<E>(s: ActionState<E>, e: E, spawn: bool) -> ActionState<E> {
    let id = s.next_id;
    let s1 = erase_entity(ActionState { next_id: next_action_id(s.next_id), ..s }, e);
    ActionState {
        sending: s1.sending.insert(id, (None, if spawn { EntityAction::SpawnEntity(e) } else { EntityAction::DespawnEntity(e) })),
        sending_entities: s1.sending_entities.insert(e, id),
        ..s1
    }
}

/// Turning the in-flight action of component `k` of `e` into a no-op can be
/// done: if `e` has component actions recorded, `k` has one, and it is
/// still awaiting delivery.
pub open spec fn erase_component_ok<E>(s: ActionState<E>, e: E, k: ComponentKind) -> bool {
    s.sending_components.contains_key(e) ==> {
        &&& s.sending_components[e].contains_key(k.0)
        &&& s.sending.contains_key(s.sending_components[e][k.0])
    }
}

/// Component `k` of `e` no longer has an in-flight action; the one it had
/// becomes a no-op.
pub open spec fn erase_component<E>(s: ActionState<E>, e: E, k: ComponentKind) -> ActionState<E> {
    if !s.sending_components.contains_key(e) {
        s
    } else {
        let id = s.sending_components[e][k.0];
        ActionState {
            sending: s.sending.insert(id, (s.sending[id].0, EntityAction::Noop)),
            sending_components: s.sending_components.insert(e, s.sending_components[e].remove(k.0)),
            ..s
        }
    }
}

/// A new insert (or removal) of component `k` of `e` under the next action
/// id, superseding the component's in-flight action.
pub open spec fn sync_component<E>(s: ActionState<E>, e: E, k: ComponentKind, insert: bool) -> ActionState<E> {
    let id = s.next_id;
    let s1 = erase_component(ActionState { next_id: next_action_id(s.next_id), ..s }, e, k);
    let inner = if s1.sending_components.contains_key(e) { s1.sending_components[e] } else { Map::empty() };
    ActionState {
        sending: s1.sending.insert(id, (None, if insert { EntityAction::InsertComponent(e, k) } else { EntityAction::RemoveComponent(e, k) })),
        sending_components: s1.sending_components.insert(e, inner.insert(k.0, id)),
        ..s1
    }
}

/// The actions after comparing entity `e`, in scope (`in_scope`) or not and
/// held by the client (`held`) or not: when both agree the in-flight action
/// is dropped, otherwise a spawn or despawn supersedes it.
pub open spec fn diff_entity<E>(s: ActionState<E>, in_scope: bool, held: bool, e: E) -> ActionState<E> {
    if in_scope == held {
        erase_entity(s, e)
    } else {
        sync_entity(s, e, in_scope)
    }
}

/// Comparing component `k` of `e` can be done without failing.
pub open spec fn diff_component_ok<E>(s: ActionState<E>, in_scope: bool, held: bool, e: E, k: ComponentKind) -> bool {
    if in_scope == held {
        (s.sending_components.contains_key(e) && s.sending_components[e].contains_key(k.0))
            ==> s.sending.contains_key(s.sending_components[e][k.0])
    } else {
        erase_component_ok(s, e, k)
    }
}

/// The actions after comparing component `k` of `e`, in scope or not and
/// held by the client or not: when both agree the in-flight action is
/// dropped, otherwise an insert or removal supersedes it.
pub open spec fn diff_component<E>(s: ActionState<E>, in_scope: bool, held: bool, e: E, k: ComponentKind) -> ActionState<E> {
    if in_scope == held {
        if s.sending_components.contains_key(e) && s.sending_components[e].contains_key(k.0) {
            erase_component(s, e, k)
        } else {
            s
        }
    } else {
        sync_component(s, e, k, in_scope)
    }
}

/// Entity replication state of one connection, kept by diffing.
pub struct NewEntityManager<E: Copy + Eq + Hash> {
    scope_world: HashMap<E, KindSet>,
    remote_world: HashMap<E, KindSet>,
    next_action_id: u16,
    sending_actions: HashMap<u16, (Option<u64>, EntityAction<E>)>,
    sending_entities: HashMap<E, u16>,
    sending_components: HashMap<E, HashMap<u16, u16>>,
    next_send_actions: NextSendActions<E>,
    sent_actions: HashMap<u16, (u64, Vec<(u16, EntityAction<E>)>)>,
    diff_handler: HashMap<E, KindSet>,
    net_entity_generator: NetKeyGenerator,
    entity_to_net_entity_map: HashMap<E, u16>,
    net_entity_to_entity_map: HashMap<u16, E>,
    delivered_packets: VecDeque<u16>,
    updates: EntityUpdates<E>,
}

impl<E: Copy + Eq + Hash> NewEntityManager<E> {
    /// The entities in this connection's scope, with their components.
    pub closed spec fn scope(&self) -> Map<E, Set<ComponentKind>> {
        self.scope_world@.map_values(|s: KindSet| s@)
    }

    /// The order in which each scoped entity's components were added.
    pub closed spec fn scope_order(&self) -> Map<E, Seq<ComponentKind>> {
        self.scope_world@.map_values(|s: KindSet| s.order())
    }

    /// What the client is known to hold.
    pub closed spec fn remote(&self) -> Map<E, Set<ComponentKind>> {
        self.remote_world@.map_values(|s: KindSet| s@)
    }

    /// The action bookkeeping.
    pub closed spec fn actions(&self) -> ActionState<E> {
        ActionState {
            next_id: self.next_action_id,
            sending: self.sending_actions@,
            sending_entities: self.sending_entities@,
            sending_components: self.sending_components@.map_values(|m: HashMap<u16, u16>| m@),
        }
    }

    /// Actions queued for the next packet, in action id order.
    pub closed spec fn next_send(&self) -> Seq<(u16, EntityAction<E>)> {
        self.next_send_actions@
    }

    /// Each sent packet's record: when it was sent and its actions.
    pub closed spec fn sent(&self) -> Map<u16, (u64, Seq<(u16, EntityAction<E>)>)> {
        self.sent_actions@.map_values(|r: (u64, Vec<(u16, EntityAction<E>)>)| (r.0, r.1@))
    }

    /// The components whose changes are watched, as `(entity, kind)` pairs.
    pub closed spec fn watched(&self) -> Set<(E, ComponentKind)> {
        Set::new(|p: (E, ComponentKind)| self.diff_handler@.contains_key(p.0) && self.diff_handler@[p.0]@.contains(p.1))
    }

    /// Each entity's net entity key.
    pub closed spec fn to_net(&self) -> Map<E, u16> {
        self.entity_to_net_entity_map@
    }

    /// Each net entity key's entity.
    pub closed spec fn from_net(&self) -> Map<u16, E> {
        self.net_entity_to_entity_map@
    }

    /// The generator of net entity keys.
    pub closed spec fn keys(&self) -> NetKeyGenerator {
        self.net_entity_generator
    }

    /// Delivered packets not yet processed, oldest first.
    pub closed spec fn delivered(&self) -> Seq<u16> {
        self.delivered_packets@
    }

    /// The entity type hashes deterministically and every component set is
    /// well formed.
    pub closed spec fn wf(&self) -> bool {
        &&& obeys_key_model::<E>()
        &&& forall|e: E| #[trigger] self.scope_world@.contains_key(e) ==> self.scope_world@[e].wf()
        &&& forall|e: E| #[trigger] self.remote_world@.contains_key(e) ==> self.remote_world@[e].wf()
        &&& forall|e: E| #[trigger] self.diff_handler@.contains_key(e) ==> self.diff_handler@[e].wf()
        &&& self.updates.wf()
    }

    /// The component updates: change masks, updates due and the record of
    /// sent updates.
    pub closed spec fn updates(&self) -> EntityUpdates<E> {
        self.updates
    }

    /// Everything but the updates is as in `other`.
    pub open spec fn same_replication(&self, other: &Self) -> bool {
        &&& self.scope() == other.scope()
        &&& self.scope_order() == other.scope_order()
        &&& self.remote() == other.remote()
        &&& self.actions() == other.actions()
        &&& self.next_send() == other.next_send()
        &&& self.sent() == other.sent()
        &&& self.watched() == other.watched()
        &&& self.to_net() == other.to_net()
        &&& self.from_net() == other.from_net()
        &&& self.keys() == other.keys()
        &&& self.delivered() == other.delivered()
    }

    proof fn lemma_views(&self)
        ensures
            self.scope().dom() == self.scope_world@.dom(),
            self.remote().dom() == self.remote_world@.dom(),
            forall|e: E| #[trigger] self.scope_world@.contains_key(e) ==> self.scope()[e] == self.scope_world@[e]@,
            forall|e: E| #[trigger] self.remote_world@.contains_key(e) ==> self.remote()[e] == self.remote_world@[e]@,
            self.actions().sending_components.dom() == self.sending_components@.dom(),
            forall|e: E| #[trigger] self.sending_components@.contains_key(e)
                ==> self.actions().sending_components[e] == self.sending_components@[e]@,
    {
        assert(self.scope().dom() =~= self.scope_world@.dom());
        assert(self.remote().dom() =~= self.remote_world@.dom());
        assert(self.actions().sending_components.dom() =~= self.sending_components@.dom());
    }

    /// A manager with nothing in scope. The entity type must hash and
    /// compare deterministically.
    pub fn new() -> (r: Self)
        requires
            obeys_key_model::<E>(),
        ensures
            r.wf(),
            r.scope() == Map::<E, Set<ComponentKind>>::empty(),
            r.remote() == Map::<E, Set<ComponentKind>>::empty(),
            r.actions().next_id == 0,
            r.actions().sending == Map::<u16, (Option<u64>, EntityAction<E>)>::empty(),
            r.actions().sending_entities == Map::<E, u16>::empty(),
            r.actions().sending_components == Map::<E, Map<u16, u16>>::empty(),
            r.next_send() == Seq::<(u16, EntityAction<E>)>::empty(),
            r.sent() == Map::<u16, (u64, Seq<(u16, EntityAction<E>)>)>::empty(),
            r.watched() == Set::<(E, ComponentKind)>::empty(),
            r.to_net() == Map::<E, u16>::empty(),
            r.from_net() == Map::<u16, E>::empty(),
            r.keys().next_fresh() == 0,
            r.keys().recycled_keys() == Seq::<u16>::empty(),
            r.delivered() == Seq::<u16>::empty(),
            r.updates().handler() == Map::<(E, ComponentKind), Seq<u8>>::empty(),
            r.updates().next_updates() == Map::<E, Seq<ComponentKind>>::empty(),
            r.updates().sent() == SentView::<E>::empty(),
    {
        let r = NewEntityManager {
            scope_world: HashMap::new(),
            remote_world: HashMap::new(),
            next_action_id: 0,
            sending_actions: HashMap::new(),
            sending_entities: HashMap::new(),
            sending_components: HashMap::new(),
            next_send_actions: NextSendActions::new(),
            sent_actions: HashMap::new(),
            diff_handler: HashMap::new(),
            net_entity_generator: NetKeyGenerator::new(),
            entity_to_net_entity_map: HashMap::new(),
            net_entity_to_entity_map: HashMap::new(),
            delivered_packets: VecDeque::new(),
            updates: EntityUpdates::new(),
        };
        proof {
            assert(r.scope() =~= Map::<E, Set<ComponentKind>>::empty());
            assert(r.remote() =~= Map::<E, Set<ComponentKind>>::empty());
            assert(r.actions().sending_components =~= Map::<E, Map<u16, u16>>::empty());
            assert(r.sent() =~= Map::<u16, (u64, Seq<(u16, EntityAction<E>)>)>::empty());
            assert(r.watched() =~= Set::<(E, ComponentKind)>::empty());
        }
        r
    }

    // Action bookkeeping

    /// The next action id; the counter moves on, wrapping.
    fn new_action_id(&mut self) -> (r: u16)
        ensures
            final(self).updates() == old(self).updates(),
            r == old(self).next_action_id,
            final(self).next_action_id == next_action_id(old(self).next_action_id),
            final(self).scope_world == old(self).scope_world,
            final(self).remote_world == old(self).remote_world,
            final(self).sending_actions == old(self).sending_actions,
            final(self).sending_entities == old(self).sending_entities,
            final(self).sending_components == old(self).sending_components,
            final(self).next_send_actions == old(self).next_send_actions,
            final(self).sent_actions == old(self).sent_actions,
            final(self).diff_handler == old(self).diff_handler,
            final(self).net_entity_generator == old(self).net_entity_generator,
            final(self).entity_to_net_entity_map == old(self).entity_to_net_entity_map,
            final(self).net_entity_to_entity_map == old(self).net_entity_to_entity_map,
            final(self).delivered_packets == old(self).delivered_packets,
    {
        let output = self.next_action_id;
        self.next_action_id = self.next_action_id.wrapping_add(1);
        output
    }

    /// Every field but the action bookkeeping is as in `other`.
    spec fn others_same(self, other: Self) -> bool {
        &&& self.scope_world == other.scope_world
        &&& self.remote_world == other.remote_world
        &&& self.next_send_actions == other.next_send_actions
        &&& self.sent_actions == other.sent_actions
        &&& self.diff_handler == other.diff_handler
        &&& self.net_entity_generator == other.net_entity_generator
        &&& self.entity_to_net_entity_map == other.entity_to_net_entity_map
        &&& self.net_entity_to_entity_map == other.net_entity_to_entity_map
        &&& self.delivered_packets == other.delivered_packets
    }

    /// The in-flight action of `entity`, if any, becomes a no-op.
    fn erase_sending_action_entity(&mut self, entity: &E)
        requires
            obeys_key_model::<E>(),
            erase_entity_ok(old(self).actions(), *entity),
        ensures
            final(self).updates() == old(self).updates(),
            final(self).actions() == erase_entity(old(self).actions(), *entity),
            final(self).others_same(*old(self)),
    {
        if !self.sending_entities.contains_key(entity) {
            return;
        }
        let action_id = self.sending_entities.remove(entity).unwrap();
        let (t, _) = self.sending_actions.remove(&action_id).unwrap();
        self.sending_actions.insert(action_id, (t, EntityAction::Noop));
        proof {
            let s0 = old(self).actions();
            assert(self.sending_actions@ =~= s0.sending.insert(action_id, (s0.sending[action_id].0, EntityAction::Noop)));
            assert(self.sending_entities@ =~= s0.sending_entities.remove(*entity));
            assert(self.actions().sending_components =~= s0.sending_components);
        }
    }

    /// A spawn (or despawn) of `entity` under the next action id supersedes
    /// its in-flight action.
    fn sync_new_action_entity(&mut self, entity: &E, spawn: bool)
        requires
            obeys_key_model::<E>(),
            erase_entity_ok(old(self).actions(), *entity),
        ensures
            final(self).updates() == old(self).updates(),
            final(self).actions() == sync_entity(old(self).actions(), *entity, spawn),
            final(self).others_same(*old(self)),
    {
        let new_action_id = self.new_action_id();
        let new_action = if spawn { EntityAction::SpawnEntity(*entity) } else { EntityAction::DespawnEntity(*entity) };
        proof {
            let s0 = old(self).actions();
            assert(self.actions().sending_components =~= s0.sending_components);
            assert(self.actions() == ActionState { next_id: next_action_id(s0.next_id), ..s0 });
        }
        let ghost s1 = self.actions();
        self.erase_sending_action_entity(entity);
        let ghost s2 = self.actions();
        self.sending_actions.insert(new_action_id, (None, new_action));
        self.sending_entities.insert(*entity, new_action_id);
        proof {
            assert(self.sending_actions@ =~= s2.sending.insert(new_action_id, (None, new_action)));
            assert(self.sending_entities@ =~= s2.sending_entities.insert(*entity, new_action_id));
            assert(self.actions().sending_components =~= s2.sending_components);
        }
    }

    /// The in-flight action of component `component` of `entity`, if the
    /// entity has component actions, becomes a no-op.
    fn erase_sending_action_component(&mut self, entity: &E, component: &ComponentKind)
        requires
            obeys_key_model::<E>(),
            erase_component_ok(old(self).actions(), *entity, *component),
        ensures
            final(self).updates() == old(self).updates(),
            final(self).actions() == erase_component(old(self).actions(), *entity, *component),
            final(self).others_same(*old(self)),
    {
        proof {
            self.lemma_views();
        }
        if !self.sending_components.contains_key(entity) {
            return;
        }
        let mut inner = self.sending_components.remove(entity).unwrap();
        let action_id = inner.remove(&component.0).unwrap();
        self.sending_components.insert(*entity, inner);
        let (t, _) = self.sending_actions.remove(&action_id).unwrap();
        self.sending_actions.insert(action_id, (t, EntityAction::Noop));
        proof {
            let s0 = old(self).actions();
            assert(self.sending_actions@ =~= s0.sending.insert(action_id, (s0.sending[action_id].0, EntityAction::Noop)));
            assert(self.actions().sending_components =~= s0.sending_components.insert(*entity,
                s0.sending_components[*entity].remove(component.0)));
        }
    }

    /// An insert (or removal) of component `component` of `entity` under
    /// the next action id supersedes the component's in-flight action.
    fn sync_new_action_component(&mut self, entity: &E, component: &ComponentKind, insert: bool)
        requires
            obeys_key_model::<E>(),
            erase_component_ok(old(self).actions(), *entity, *component),
        ensures
            final(self).updates() == old(self).updates(),
            final(self).actions() == sync_component(old(self).actions(), *entity, *component, insert),
            final(self).others_same(*old(self)),
    {
        let new_action_id = self.new_action_id();
        let new_action = if insert {
            EntityAction::InsertComponent(*entity, *component)
        } else {
            EntityAction::RemoveComponent(*entity, *component)
        };
        proof {
            let s0 = old(self).actions();
            assert(self.actions().sending_components =~= s0.sending_components);
            assert(self.actions() == ActionState { next_id: next_action_id(s0.next_id), ..s0 });
        }
        self.erase_sending_action_component(entity, component);
        let ghost s2 = self.actions();
        self.sending_actions.insert(new_action_id, (None, new_action));
        proof {
            self.lemma_views();
        }
        let mut inner = match self.sending_components.remove(entity) {
            Some(m) => m,
            None => HashMap::new(),
        };
        inner.insert(component.0, new_action_id);
        self.sending_components.insert(*entity, inner);
        proof {
            assert(self.sending_actions@ =~= s2.sending.insert(new_action_id, (None, new_action)));
            let base = if s2.sending_components.contains_key(*entity) { s2.sending_components[*entity] } else { Map::empty() };
            assert(self.actions().sending_components =~= s2.sending_components.insert(*entity, base.insert(component.0, new_action_id)));
        }
    }

    /// Starts watching changes of component `k` of `e`.
    fn watch(&mut self, e: E, k: ComponentKind)
        requires
            old(self).wf(),
        ensures
            final(self).updates() == old(self).updates(),
            final(self).wf(),
            final(self).watched() == old(self).watched().insert((e, k)),
            final(self).scope_world == old(self).scope_world,
            final(self).remote_world == old(self).remote_world,
            final(self).actions() == old(self).actions(),
            final(self).next_send_actions == old(self).next_send_actions,
            final(self).sent_actions == old(self).sent_actions,
            final(self).net_entity_generator == old(self).net_entity_generator,
            final(self).entity_to_net_entity_map == old(self).entity_to_net_entity_map,
            final(self).net_entity_to_entity_map == old(self).net_entity_to_entity_map,
            final(self).delivered_packets == old(self).delivered_packets,
    {
        match self.diff_handler.remove(&e) {
            Some(mut s) => {
                s.insert(k);
                self.diff_handler.insert(e, s);
            },
            None => {
                let mut s = KindSet::new();
                s.insert(k);
                self.diff_handler.insert(e, s);
            },
        }
        proof {
            assert(self.watched() =~= old(self).watched().insert((e, k)));
        }
    }

    /// Stops watching changes of component `k` of `e`.
    fn unwatch(&mut self, e: E, k: ComponentKind)
        requires
            old(self).wf(),
        ensures
            final(self).updates() == old(self).updates(),
            final(self).wf(),
            final(self).watched() == old(self).watched().remove((e, k)),
            final(self).scope_world == old(self).scope_world,
            final(self).remote_world == old(self).remote_world,
            final(self).actions() == old(self).actions(),
            final(self).next_send_actions == old(self).next_send_actions,
            final(self).sent_actions == old(self).sent_actions,
            final(self).net_entity_generator == old(self).net_entity_generator,
            final(self).entity_to_net_entity_map == old(self).entity_to_net_entity_map,
            final(self).net_entity_to_entity_map == old(self).net_entity_to_entity_map,
            final(self).delivered_packets == old(self).delivered_packets,
    {
        match self.diff_handler.remove(&e) {
            Some(mut s) => {
                s.remove(&k);
                self.diff_handler.insert(e, s);
            },
            None => {},
        }
        proof {
            assert(self.watched() =~= old(self).watched().remove((e, k)));
        }
    }

    /// Whether changes of component `k` of `e` are watched.
    fn component_is_registered(&self, e: &E, k: &ComponentKind) -> (r: bool)
        requires
            self.wf(),
        ensures
            r == self.watched().contains((*e, *k)),
    {
        match self.diff_handler.get(e) {
            Some(s) => s.contains(k),
            None => false,
        }
    }

    // Diffing the scope against the client

    /// Compares `entity` in scope and on the client and adjusts its
    /// in-flight action; an entity neither side holds loses its net key.
    fn make_diff_actions_entity(&mut self, entity: &E)
        requires
            old(self).wf(),
            erase_entity_ok(old(self).actions(), *entity),
        ensures
            final(self).updates() == old(self).updates(),
            final(self).wf(),
            final(self).actions() == diff_entity(old(self).actions(), old(self).scope().contains_key(*entity),
                old(self).remote().contains_key(*entity), *entity),
            final(self).scope_world == old(self).scope_world,
            final(self).remote_world == old(self).remote_world,
            final(self).next_send_actions == old(self).next_send_actions,
            final(self).sent_actions == old(self).sent_actions,
            final(self).diff_handler == old(self).diff_handler,
            final(self).net_entity_generator == old(self).net_entity_generator,
            final(self).delivered_packets == old(self).delivered_packets,
            drops_net_key(old(self).scope(), old(self).remote(), old(self).to_net(), *entity) ==> {
                &&& final(self).to_net() == old(self).to_net().remove(*entity)
                &&& final(self).from_net() == old(self).from_net().remove(old(self).to_net()[*entity])
            },
            !drops_net_key(old(self).scope(), old(self).remote(), old(self).to_net(), *entity) ==> {
                &&& final(self).to_net() == old(self).to_net()
                &&& final(self).from_net() == old(self).from_net()
            },
    {
        proof {
            self.lemma_views();
        }
        let scope_has_entity = self.scope_world.contains_key(entity);
        let remote_has_entity = self.remote_world.contains_key(entity);
        if scope_has_entity == remote_has_entity {
            if self.sending_entities.contains_key(entity) {
                self.erase_sending_action_entity(entity);
            }
            if !scope_has_entity && !remote_has_entity {
                if self.entity_to_net_entity_map.contains_key(entity) {
                    let net_entity = self.entity_to_net_entity_map.remove(entity).unwrap();
                    self.net_entity_to_entity_map.remove(&net_entity);
                }
            }
            return;
        }
        self.sync_new_action_entity(entity, scope_has_entity);
    }

    /// Compares component `component` of `entity`, which is in scope, in
    /// scope and on the client, and adjusts its in-flight action; a component
    /// neither side holds stops being watched. Nothing happens while the
    /// client does not hold the entity.
    fn make_diff_actions_component(&mut self, entity: &E, component: &ComponentKind)
        requires
            old(self).wf(),
            old(self).scope().contains_key(*entity),
            old(self).remote().contains_key(*entity) ==> diff_component_ok(old(self).actions(),
                old(self).scope()[*entity].contains(*component), old(self).remote()[*entity].contains(*component),
                *entity, *component),
        ensures
            final(self).updates() == old(self).updates(),
            final(self).wf(),
            final(self).scope_world == old(self).scope_world,
            final(self).remote_world == old(self).remote_world,
            final(self).next_send_actions == old(self).next_send_actions,
            final(self).sent_actions == old(self).sent_actions,
            final(self).net_entity_generator == old(self).net_entity_generator,
            final(self).entity_to_net_entity_map == old(self).entity_to_net_entity_map,
            final(self).net_entity_to_entity_map == old(self).net_entity_to_entity_map,
            final(self).delivered_packets == old(self).delivered_packets,
            final(self).actions() == component_actions(old(self).actions(), old(self).scope(), old(self).remote(), *entity, *component),
            final(self).watched() == component_watched(old(self).watched(), old(self).scope(), old(self).remote(), *entity, *component),
    {
        proof {
            self.lemma_views();
        }
        let scope_has_component = self.scope_world.get(entity).unwrap().contains(component);
        if !self.remote_world.contains_key(entity) {
            return;
        }
        let remote_has_component = self.remote_world.get(entity).unwrap().contains(component);
        if scope_has_component == remote_has_component {
            let remove = match self.sending_components.get(entity) {
                Some(component_set) => component_set.contains_key(&component.0),
                None => false,
            };
            if remove {
                self.erase_sending_action_component(entity, component);
            }
            if !scope_has_component && !remote_has_component {
                if self.component_is_registered(entity, component) {
                    self.unwatch(*entity, *component);
                }
            }
            proof {
                if !(!scope_has_component && !remote_has_component && old(self).watched().contains((*entity, *component))) {
                    assert(self.watched() =~= component_watched(old(self).watched(), old(self).scope(), old(self).remote(), *entity, *component));
                }
            }
            return;
        }
        self.sync_new_action_component(entity, component, scope_has_component);
    }

    // World scope

    /// `entity` enters the scope: the difference to the client is acted on,
    /// and an entity without a net key gets the next one.
    pub fn spawn_entity(&mut self, entity: &E)
        requires
            old(self).wf(),
            !old(self).scope().contains_key(*entity) ==> erase_entity_ok(old(self).actions(), *entity),
            !old(self).scope().contains_key(*entity) && !old(self).to_net().contains_key(*entity)
                ==> old(self).keys().can_generate() && old(self).keys().next_fresh() <= crate::world_channel::NET_KEY_SPACE,
        ensures
            final(self).updates() == old(self).updates(),
            final(self).wf(),
            final(self).remote() == old(self).remote(),
            final(self).watched() == old(self).watched(),
            final(self).next_send() == old(self).next_send(),
            final(self).sent() == old(self).sent(),
            final(self).delivered() == old(self).delivered(),
            old(self).scope().contains_key(*entity) ==> {
                &&& final(self).scope() == old(self).scope()
                &&& final(self).actions() == old(self).actions()
                &&& final(self).to_net() == old(self).to_net()
                &&& final(self).from_net() == old(self).from_net()
            },
            !old(self).scope().contains_key(*entity) ==> {
                &&& final(self).scope() == old(self).scope().insert(*entity, Set::empty())
                &&& final(self).actions() == diff_entity(old(self).actions(), true, old(self).remote().contains_key(*entity), *entity)
                &&& old(self).to_net().contains_key(*entity) ==> final(self).to_net() == old(self).to_net()
                    && final(self).from_net() == old(self).from_net()
                &&& !old(self).to_net().contains_key(*entity) ==> final(self).to_net() == old(self).to_net().insert(*entity, old(self).keys().next_key())
                    && final(self).from_net() == old(self).from_net().insert(old(self).keys().next_key(), *entity)
            },
    {
        proof {
            self.lemma_views();
        }
        if self.scope_world.contains_key(entity) {
            return;
        }
        self.scope_world.insert(*entity, KindSet::new());
        proof {
            assert(self.scope().contains_key(*entity));
            assert(self.remote() == old(self).remote());
        }
        self.make_diff_actions_entity(entity);
        if !self.entity_to_net_entity_map.contains_key(entity) {
            let new_net_entity = self.net_entity_generator.generate();
            self.entity_to_net_entity_map.insert(*entity, new_net_entity);
            self.net_entity_to_entity_map.insert(new_net_entity, *entity);
        }
        proof {
            assert(self.scope() =~= old(self).scope().insert(*entity, Set::empty()));
            assert(self.sent() =~= old(self).sent());
        }
    }

    /// `entity` leaves the scope: the difference to the client is acted on.
    pub fn despawn_entity(&mut self, entity: &E)
        requires
            old(self).wf(),
            old(self).scope().contains_key(*entity) ==> erase_entity_ok(old(self).actions(), *entity),
        ensures
            final(self).updates() == old(self).updates(),
            final(self).wf(),
            final(self).remote() == old(self).remote(),
            final(self).watched() == old(self).watched(),
            final(self).next_send() == old(self).next_send(),
            final(self).sent() == old(self).sent(),
            final(self).delivered() == old(self).delivered(),
            !old(self).scope().contains_key(*entity) ==> {
                &&& final(self).scope() == old(self).scope()
                &&& final(self).actions() == old(self).actions()
                &&& final(self).to_net() == old(self).to_net()
                &&& final(self).from_net() == old(self).from_net()
            },
            old(self).scope().contains_key(*entity) ==> {
                let held = old(self).remote().contains_key(*entity);
                &&& final(self).scope() == old(self).scope().remove(*entity)
                &&& final(self).actions() == diff_entity(old(self).actions(), false, held, *entity)
                &&& (!held && old(self).to_net().contains_key(*entity)) ==> final(self).to_net() == old(self).to_net().remove(*entity)
                    && final(self).from_net() == old(self).from_net().remove(old(self).to_net()[*entity])
                &&& !(!held && old(self).to_net().contains_key(*entity)) ==> final(self).to_net() == old(self).to_net()
                    && final(self).from_net() == old(self).from_net()
            },
    {
        proof {
            self.lemma_views();
        }
        if !self.scope_world.contains_key(entity) {
            return;
        }
        self.scope_world.remove(entity);
        proof {
            assert(!self.scope().contains_key(*entity));
            assert(self.remote() == old(self).remote());
        }
        self.make_diff_actions_entity(entity);
        proof {
            assert(self.scope() =~= old(self).scope().remove(*entity));
            assert(self.sent() =~= old(self).sent());
        }
    }

    /// Component `component` is added to `entity`; nothing happens when the
    /// entity is not in scope or already has it. The difference to the client
    /// is acted on, and the component's changes are watched.
    pub fn insert_component(&mut self, entity: &E, component: &ComponentKind)
        requires
            old(self).wf(),
            (old(self).scope().contains_key(*entity) && !old(self).scope()[*entity].contains(*component)
                && old(self).remote().contains_key(*entity)) ==> diff_component_ok(old(self).actions(), true,
                old(self).remote()[*entity].contains(*component), *entity, *component),
        ensures
            final(self).updates() == old(self).updates(),
            final(self).wf(),
            final(self).remote() == old(self).remote(),
            final(self).to_net() == old(self).to_net(),
            final(self).from_net() == old(self).from_net(),
            final(self).next_send() == old(self).next_send(),
            final(self).sent() == old(self).sent(),
            final(self).delivered() == old(self).delivered(),
            (!old(self).scope().contains_key(*entity) || old(self).scope()[*entity].contains(*component)) ==> {
                &&& final(self).scope() == old(self).scope()
                &&& final(self).actions() == old(self).actions()
                &&& final(self).watched() == old(self).watched()
            },
            (old(self).scope().contains_key(*entity) && !old(self).scope()[*entity].contains(*component)) ==> {
                let scope1 = old(self).scope().insert(*entity, old(self).scope()[*entity].insert(*component));
                &&& final(self).scope() == scope1
                &&& final(self).scope_order() == old(self).scope_order().insert(*entity,
                    old(self).scope_order()[*entity].push(*component))
                &&& final(self).actions() == component_actions(old(self).actions(), scope1, old(self).remote(), *entity, *component)
                &&& final(self).watched() == old(self).watched().insert((*entity, *component))
            },
    {
        proof {
            self.lemma_views();
        }
        if !self.scope_world.contains_key(entity) {
            return;
        }
        if self.scope_world.get(entity).unwrap().contains(component) {
            return;
        }
        let mut components = self.scope_world.remove(entity).unwrap();
        components.insert(*component);
        self.scope_world.insert(*entity, components);
        proof {
            assert(self.scope() =~= old(self).scope().insert(*entity, old(self).scope()[*entity].insert(*component)));
            assert(self.remote() == old(self).remote());
            assert(self.actions() == old(self).actions());
        }
        self.make_diff_actions_component(entity, component);
        if !self.component_is_registered(entity, component) {
            self.watch(*entity, *component);
        } else {
            proof {
                assert(old(self).watched().insert((*entity, *component)) =~= old(self).watched());
            }
        }
        proof {
            assert(self.scope_order() =~= old(self).scope_order().insert(*entity, old(self).scope_order()[*entity].push(*component)));
            assert(self.sent() =~= old(self).sent());
        }
    }

    /// Component `component` is removed from `entity`, which must be in
    /// scope; nothing happens when it lacks the component. The difference to
    /// the client is acted on.
    pub fn remove_component(&mut self, entity: &E, component: &ComponentKind)
        requires
            old(self).wf(),
            old(self).scope().contains_key(*entity),
            (old(self).scope()[*entity].contains(*component) && old(self).remote().contains_key(*entity))
                ==> diff_component_ok(old(self).actions(), false, old(self).remote()[*entity].contains(*component),
                *entity, *component),
        ensures
            final(self).updates() == old(self).updates(),
            final(self).wf(),
            final(self).remote() == old(self).remote(),
            final(self).to_net() == old(self).to_net(),
            final(self).from_net() == old(self).from_net(),
            final(self).next_send() == old(self).next_send(),
            final(self).sent() == old(self).sent(),
            final(self).delivered() == old(self).delivered(),
            !old(self).scope()[*entity].contains(*component) ==> {
                &&& final(self).scope() == old(self).scope()
                &&& final(self).actions() == old(self).actions()
                &&& final(self).watched() == old(self).watched()
            },
            old(self).scope()[*entity].contains(*component) ==> {
                let scope1 = old(self).scope().insert(*entity, old(self).scope()[*entity].remove(*component));
                &&& final(self).scope() == scope1
                &&& final(self).scope_order() == old(self).scope_order().insert(*entity,
                    old(self).scope_order()[*entity].filter(crate::kinds::other_kind(*component)))
                &&& final(self).actions() == component_actions(old(self).actions(), scope1, old(self).remote(), *entity, *component)
                &&& final(self).watched() == component_watched(old(self).watched(), scope1, old(self).remote(), *entity, *component)
            },
    {
        proof {
            self.lemma_views();
        }
        if !self.scope_world.get(entity).unwrap().contains(component) {
            return;
        }
        let mut components = self.scope_world.remove(entity).unwrap();
        components.remove(component);
        self.scope_world.insert(*entity, components);
        proof {
            assert(self.scope() =~= old(self).scope().insert(*entity, old(self).scope()[*entity].remove(*component)));
            assert(self.remote() == old(self).remote());
            assert(self.actions() == old(self).actions());
            assert(self.watched() == old(self).watched());
        }
        self.make_diff_actions_component(entity, component);
        proof {
            assert(self.scope_order() =~= old(self).scope_order().insert(*entity,
                old(self).scope_order()[*entity].filter(crate::kinds::other_kind(*component))));
            assert(self.sent() =~= old(self).sent());
        }
    }

    /// Whether `entity` is in scope.
    pub fn scope_has_entity(&self, entity: &E) -> (r: bool)
        requires
            self.wf(),
        ensures
            r == self.scope().contains_key(*entity),
    {
        proof {
            self.lemma_views();
        }
        self.scope_world.contains_key(entity)
    }

    /// Whether `entity` is in scope and held by the client.
    pub fn has_synced_entity(&self, entity: &E) -> (r: bool)
        requires
            self.wf(),
        ensures
            r == (self.scope().contains_key(*entity) && self.remote().contains_key(*entity)),
    {
        proof {
            self.lemma_views();
        }
        self.scope_world.contains_key(entity) && self.remote_world.contains_key(entity)
    }
    // Processing delivered actions

    /// The action bookkeeping once action `action_id` stopped awaiting
    /// delivery.
    spec fn delivered_state(self, action_id: u16) -> ActionState<E> {
        ActionState { sending: self.actions().sending.remove(action_id), ..self.actions() }
    }

    fn remove_sending(&mut self, action_id: &u16)
        ensures
            final(self).updates() == old(self).updates(),
            final(self).actions() == old(self).delivered_state(*action_id),
            final(self).others_same(*old(self)),
    {
        self.sending_actions.remove(action_id);
        proof {
            assert(self.sending_actions@ =~= old(self).sending_actions@.remove(*action_id));
            assert(self.actions().sending_components =~= old(self).actions().sending_components);
        }
    }

    /// Action `action_id` (a no-op) was delivered: it stops awaiting
    /// delivery.
    fn remote_received_noop(&mut self, action_id: &u16)
        ensures
            final(self).updates() == old(self).updates(),
            final(self).actions() == old(self).delivered_state(*action_id),
            final(self).others_same(*old(self)),
    {
        if !self.sending_actions.contains_key(action_id) {
            proof {
                assert(old(self).actions().sending.remove(*action_id) =~= old(self).actions().sending);
            }
            return;
        }
        self.remove_sending(action_id);
    }

    /// The despawn `action_id` of `entity` was delivered. If it was still
    /// awaiting delivery, it stops, and a client holding the entity no
    /// longer does; the difference is then acted on.
    fn remote_despawned_entity(&mut self, action_id: &u16, entity: &E)
        requires
            old(self).wf(),
            old(self).actions().sending.contains_key(*action_id) && old(self).remote().contains_key(*entity)
                ==> erase_entity_ok(old(self).delivered_state(*action_id), *entity),
        ensures
            final(self).updates() == old(self).updates(),
            final(self).wf(),
            !old(self).actions().sending.contains_key(*action_id) ==> *final(self) == *old(self),
            old(self).actions().sending.contains_key(*action_id) && !old(self).remote().contains_key(*entity) ==> {
                &&& final(self).actions() == old(self).delivered_state(*action_id)
                &&& final(self).others_same(*old(self))
            },
            old(self).actions().sending.contains_key(*action_id) && old(self).remote().contains_key(*entity) ==> {
                let held = old(self).remote().remove(*entity);
                &&& final(self).remote() == held
                &&& final(self).actions() == diff_entity(old(self).delivered_state(*action_id),
                    old(self).scope().contains_key(*entity), false, *entity)
                &&& drops_net_key(old(self).scope(), held, old(self).to_net(), *entity) ==> {
                    &&& final(self).to_net() == old(self).to_net().remove(*entity)
                    &&& final(self).from_net() == old(self).from_net().remove(old(self).to_net()[*entity])
                }
                &&& !drops_net_key(old(self).scope(), held, old(self).to_net(), *entity) ==> {
                    &&& final(self).to_net() == old(self).to_net()
                    &&& final(self).from_net() == old(self).from_net()
                }
                &&& final(self).scope_world == old(self).scope_world
                &&& final(self).next_send_actions == old(self).next_send_actions
                &&& final(self).sent_actions == old(self).sent_actions
                &&& final(self).diff_handler == old(self).diff_handler
                &&& final(self).net_entity_generator == old(self).net_entity_generator
                &&& final(self).delivered_packets == old(self).delivered_packets
            },
    {
        proof {
            self.lemma_views();
        }
        if !self.sending_actions.contains_key(action_id) {
            return;
        }
        self.remove_sending(action_id);
        if !self.remote_world.contains_key(entity) {
            return;
        }
        self.remote_world.remove(entity);
        proof {
            assert(self.remote() =~= old(self).remote().remove(*entity));
            assert(self.scope() == old(self).scope());
        }
        self.make_diff_actions_entity(entity);
    }

    /// The insert `action_id` of component `component` of `entity` was
    /// delivered. If it was still awaiting delivery, it stops; the client now
    /// holds the component, and the difference is acted on.
    fn remote_inserted_component(&mut self, action_id: &u16, entity: &E, component: &ComponentKind)
        requires
            old(self).wf(),
            old(self).actions().sending.contains_key(*action_id) ==> remote_component_ok(
                old(self).delivered_state(*action_id), old(self).scope(), old(self).remote(), *entity, *component, true),
        ensures
            final(self).updates() == old(self).updates(),
            final(self).wf(),
            !old(self).actions().sending.contains_key(*action_id) ==> *final(self) == *old(self),
            old(self).actions().sending.contains_key(*action_id) ==> final(self).remote_component_step(
                *old(self), old(self).delivered_state(*action_id), *entity, *component, true),
    {
        proof {
            self.lemma_views();
        }
        if !self.sending_actions.contains_key(action_id) {
            return;
        }
        self.remove_sending(action_id);
        if !self.remote_world.contains_key(entity) {
            self.make_diff_actions_entity(entity);
            return;
        }
        let mut remote_components = self.remote_world.remove(entity).unwrap();
        remote_components.insert(*component);
        self.remote_world.insert(*entity, remote_components);
        proof {
            assert(self.remote() =~= old(self).remote().insert(*entity, old(self).remote()[*entity].insert(*component)));
            assert(self.scope() == old(self).scope());
        }
        if !self.scope_world.contains_key(entity) {
            self.make_diff_actions_entity(entity);
            return;
        }
        self.make_diff_actions_component(entity, component);
    }

    /// The removal `action_id` of component `component` of `entity` was
    /// delivered. If it was still awaiting delivery, it stops; the client no
    /// longer holds the component, and the difference is acted on.
    fn remote_removed_component(&mut self, action_id: &u16, entity: &E, component: &ComponentKind)
        requires
            old(self).wf(),
            old(self).actions().sending.contains_key(*action_id) ==> remote_component_ok(
                old(self).delivered_state(*action_id), old(self).scope(), old(self).remote(), *entity, *component, false),
        ensures
            final(self).updates() == old(self).updates(),
            final(self).wf(),
            !old(self).actions().sending.contains_key(*action_id) ==> *final(self) == *old(self),
            old(self).actions().sending.contains_key(*action_id) ==> final(self).remote_component_step(
                *old(self), old(self).delivered_state(*action_id), *entity, *component, false),
    {
        proof {
            self.lemma_views();
        }
        if !self.sending_actions.contains_key(action_id) {
            return;
        }
        self.remove_sending(action_id);
        if !self.remote_world.contains_key(entity) {
            self.make_diff_actions_entity(entity);
            return;
        }
        let mut remote_components = self.remote_world.remove(entity).unwrap();
        remote_components.remove(component);
        self.remote_world.insert(*entity, remote_components);
        proof {
            assert(self.remote() =~= old(self).remote().insert(*entity, old(self).remote()[*entity].remove(*component)));
            assert(self.scope() == old(self).scope());
        }
        if !self.scope_world.contains_key(entity) {
            self.make_diff_actions_entity(entity);
            return;
        }
        self.make_diff_actions_component(entity, component);
    }

    /// What the client acknowledging a component insert (`inserted`) or
    /// removal of `k` on `e` leaves behind, with bookkeeping `s` once the
    /// action stopped awaiting delivery.
    spec fn remote_component_step(self, before: Self, s: ActionState<E>, e: E, k: ComponentKind, inserted: bool) -> bool {
        let held = if inserted { before.remote()[e].insert(k) } else { before.remote()[e].remove(k) };
        &&& self.scope_world == before.scope_world
        &&& self.next_send_actions == before.next_send_actions
        &&& self.sent_actions == before.sent_actions
        &&& self.net_entity_generator == before.net_entity_generator
        &&& self.delivered_packets == before.delivered_packets
        &&& !before.remote().contains_key(e) ==> {
            &&& self.remote() == before.remote()
            &&& self.actions() == diff_entity(s, before.scope().contains_key(e), false, e)
            &&& self.watched() == before.watched()
            &&& drops_net_key(before.scope(), before.remote(), before.to_net(), e) ==> {
                &&& self.to_net() == before.to_net().remove(e)
                &&& self.from_net() == before.from_net().remove(before.to_net()[e])
            }
            &&& !drops_net_key(before.scope(), before.remote(), before.to_net(), e) ==> {
                &&& self.to_net() == before.to_net()
                &&& self.from_net() == before.from_net()
            }
        }
        &&& before.remote().contains_key(e) ==> {
            let remote1 = before.remote().insert(e, held);
            &&& self.remote() == remote1
            &&& self.to_net() == before.to_net()
            &&& self.from_net() == before.from_net()
            &&& !before.scope().contains_key(e) ==> {
                &&& self.actions() == diff_entity(s, false, true, e)
                &&& self.watched() == before.watched()
            }
            &&& before.scope().contains_key(e) ==> {
                &&& self.actions() == component_actions(s, before.scope(), remote1, e, k)
                &&& self.watched() == component_watched(before.watched(), before.scope(), remote1, e, k)
            }
        }
    }

    /// The client's spawn of `entity` under action `action_id` was
    /// delivered. If it was still awaiting delivery, it stops, and unless
    /// the client already holds the entity it now does, with no components:
    /// an entity gone from scope gets a despawn, and an entity in scope gets
    /// an insert for each of its components, in the order they were added.
    fn remote_spawned_entity(&mut self, action_id: &u16, entity: &E)
        requires
            old(self).wf(),
            old(self).actions().sending.contains_key(*action_id) && !old(self).remote().contains_key(*entity) ==> {
                &&& !old(self).scope().contains_key(*entity) ==> erase_entity_ok(old(self).delivered_state(*action_id), *entity)
                &&& old(self).scope().contains_key(*entity) ==> sync_inserts_ok(old(self).delivered_state(*action_id), *entity,
                    old(self).scope_order()[*entity])
            },
        ensures
            final(self).updates() == old(self).updates(),
            final(self).wf(),
            !old(self).actions().sending.contains_key(*action_id) ==> *final(self) == *old(self),
            old(self).actions().sending.contains_key(*action_id) && old(self).remote().contains_key(*entity) ==> {
                &&& final(self).actions() == old(self).delivered_state(*action_id)
                &&& final(self).others_same(*old(self))
            },
            old(self).actions().sending.contains_key(*action_id) && !old(self).remote().contains_key(*entity) ==> {
                &&& final(self).remote() == old(self).remote().insert(*entity, Set::empty())
                &&& !old(self).scope().contains_key(*entity) ==> final(self).actions() == diff_entity(
                    old(self).delivered_state(*action_id), false, true, *entity)
                &&& old(self).scope().contains_key(*entity) ==> final(self).actions() == sync_inserts(
                    old(self).delivered_state(*action_id), *entity, old(self).scope_order()[*entity])
                &&& final(self).watched() == old(self).watched()
                &&& final(self).to_net() == old(self).to_net()
                &&& final(self).from_net() == old(self).from_net()
                &&& final(self).scope_world == old(self).scope_world
                &&& final(self).next_send_actions == old(self).next_send_actions
                &&& final(self).sent_actions == old(self).sent_actions
                &&& final(self).net_entity_generator == old(self).net_entity_generator
                &&& final(self).delivered_packets == old(self).delivered_packets
            },
    {
        proof {
            self.lemma_views();
        }
        if !self.sending_actions.contains_key(action_id) {
            return;
        }
        self.remove_sending(action_id);
        if self.remote_world.contains_key(entity) {
            return;
        }
        self.remote_world.insert(*entity, KindSet::new());
        proof {
            assert(self.remote() =~= old(self).remote().insert(*entity, Set::empty()));
            assert(self.scope() == old(self).scope());
        }
        if !self.scope_world.contains_key(entity) {
            self.make_diff_actions_entity(entity);
            return;
        }
        let scope_components = self.scope_world.get(entity).unwrap().to_vec();
        let ghost s0 = self.actions();
        let ghost mid = *self;
        proof {
            assert(scope_components@ == old(self).scope_order()[*entity]);
            self.scope_world@[*entity].lemma_order_matches();
        }
        let mut i: usize = 0;
        while i < scope_components.len()
            invariant
                self.updates == old(self).updates,
                self.wf(),
                i <= scope_components@.len(),
                scope_components@ == old(self).scope_order()[*entity],
                scope_components@.to_set() == self.scope()[*entity],
                self.scope().contains_key(*entity),
                self.remote().contains_key(*entity),
                self.remote()[*entity] == Set::<ComponentKind>::empty(),
                sync_inserts_ok(s0, *entity, scope_components@),
                self.actions() == sync_inserts(s0, *entity, scope_components@.take(i as int)),
                self.watched() == mid.watched(),
                self.scope_world == mid.scope_world,
                self.remote_world == mid.remote_world,
                self.next_send_actions == mid.next_send_actions,
                self.sent_actions == mid.sent_actions,
                self.net_entity_generator == mid.net_entity_generator,
                self.entity_to_net_entity_map == mid.entity_to_net_entity_map,
                self.net_entity_to_entity_map == mid.net_entity_to_entity_map,
                self.delivered_packets == mid.delivered_packets,
            decreases scope_components@.len() - i,
        {
            let k = scope_components[i];
            proof {
                assert(scope_components@.take(i + 1).drop_last() =~= scope_components@.take(i as int));
                lemma_sync_inserts_ok_prefix(s0, *entity, scope_components@, i + 1);
                assert(scope_components@.to_set().contains(k));
            }
            self.make_diff_actions_component(entity, &k);
            i += 1;
        }
        proof {
            assert(scope_components@.take(scope_components@.len() as int) =~= scope_components@);
        }
    }

    /// Handles every delivered packet, oldest first: its record is dropped
    /// and each of its actions stops awaiting delivery.
    pub fn process_delivered_packets(&mut self)
        requires
            old(self).wf(),
        ensures
            final(self).wf(),
            final(self).delivered() == Seq::<u16>::empty(),
            (final(self).actions().sending, final(self).sent())
                == deliver_all(old(self).actions().sending, old(self).sent(), old(self).delivered()),
            final(self).actions().next_id == old(self).actions().next_id,
            final(self).actions().sending_entities == old(self).actions().sending_entities,
            final(self).actions().sending_components == old(self).actions().sending_components,
            final(self).scope() == old(self).scope(),
            final(self).remote() == old(self).remote(),
            final(self).watched() == old(self).watched(),
            final(self).to_net() == old(self).to_net(),
            final(self).from_net() == old(self).from_net(),
            final(self).next_send() == old(self).next_send(),
            final(self).updates().sent() == old(self).updates().sent().remove_keys(old(self).delivered().to_set()),
            final(self).updates().handler() == old(self).updates().handler(),
            final(self).updates().next_updates() == old(self).updates().next_updates(),
            final(self).updates().last_index() == old(self).updates().last_index(),
    {
        let ghost dd = old(self).delivered();
        let ghost mut k: int = 0;
        proof {
            assert(dd.take(0).to_set() =~= Set::<u16>::empty());
            assert(old(self).updates().sent().remove_keys(Set::<u16>::empty()) =~= old(self).updates().sent());
            assert(dd.skip(0) =~= dd);
        }
        let ghost target = deliver_all(old(self).actions().sending, old(self).sent(), old(self).delivered());
        loop
            invariant_except_break
                0 <= k <= dd.len(),
                self.delivered() == dd.skip(k),
                self.updates().sent() == old(self).updates().sent().remove_keys(dd.take(k).to_set()),
                self.updates().handler() == old(self).updates().handler(),
                self.updates().next_updates() == old(self).updates().next_updates(),
                self.updates().last_index() == old(self).updates().last_index(),
                self.wf(),
                deliver_all(self.actions().sending, self.sent(), self.delivered()) == target,
                self.actions().next_id == old(self).actions().next_id,
                self.actions().sending_entities == old(self).actions().sending_entities,
                self.actions().sending_components == old(self).actions().sending_components,
                self.scope_world == old(self).scope_world,
                self.remote_world == old(self).remote_world,
                self.diff_handler == old(self).diff_handler,
                self.entity_to_net_entity_map == old(self).entity_to_net_entity_map,
                self.net_entity_to_entity_map == old(self).net_entity_to_entity_map,
                self.next_send_actions == old(self).next_send_actions,
            ensures
                0 <= k <= dd.len(),
                self.delivered() == dd.skip(k),
                self.updates().sent() == old(self).updates().sent().remove_keys(dd.take(k).to_set()),
                self.updates().handler() == old(self).updates().handler(),
                self.updates().next_updates() == old(self).updates().next_updates(),
                self.updates().last_index() == old(self).updates().last_index(),
                self.wf(),
                self.delivered() == Seq::<u16>::empty(),
                (self.actions().sending, self.sent()) == target,
                self.actions().next_id == old(self).actions().next_id,
                self.actions().sending_entities == old(self).actions().sending_entities,
                self.actions().sending_components == old(self).actions().sending_components,
                self.scope_world == old(self).scope_world,
                self.remote_world == old(self).remote_world,
                self.diff_handler == old(self).diff_handler,
                self.entity_to_net_entity_map == old(self).entity_to_net_entity_map,
                self.net_entity_to_entity_map == old(self).net_entity_to_entity_map,
                self.next_send_actions == old(self).next_send_actions,
            decreases self.delivered().len(),
        {
            let ghost d0 = self.delivered();
            let ghost sending0 = self.actions().sending;
            let ghost sent0 = self.sent();
            let packet_index = match self.delivered_packets.pop_front() {
                Some(p) => p,
                None => {
                    proof {
                        assert(d0 =~= Seq::<u16>::empty());
                    }
                    break;
                },
            };
            proof {
                assert(self.delivered() =~= d0.drop_first());
                assert(self.sent() == sent0);
                assert(d0[0] == dd[k]);
                assert(dd.take(k + 1) =~= dd.take(k).push(packet_index));
                dd.take(k).lemma_push_to_set_commute(packet_index);
                assert(d0.drop_first() =~= dd.skip(k + 1));
                k = k + 1;
            }
            self.updates.notify_update_delivered(packet_index);
            proof {
                assert(self.updates().sent() =~= old(self).updates().sent().remove_keys(dd.take(k).to_set()));
            }
            let ghost upd = self.updates;
            let removed = self.sent_actions.remove(&packet_index);
            proof {
                assert(self.sent() =~= sent0.remove(packet_index));
            }
            match removed {
                Some((_, action_list)) => {
                    let ghost ids = list_ids(action_list@);
                    let mut j: usize = 0;
                    while j < action_list.len()
                        invariant
                            self.wf(),
                            j <= action_list@.len(),
                            ids == list_ids(action_list@),
                            self.actions().sending == sending0.remove_keys(list_ids(action_list@.take(j as int))),
                            self.actions().next_id == old(self).actions().next_id,
                            self.actions().sending_entities == old(self).actions().sending_entities,
                            self.actions().sending_components == old(self).actions().sending_components,
                            self.sent() == sent0.remove(packet_index),
                            self.delivered() == d0.drop_first(),
                            self.updates == upd,
                            self.scope_world == old(self).scope_world,
                            self.remote_world == old(self).remote_world,
                            self.diff_handler == old(self).diff_handler,
                            self.entity_to_net_entity_map == old(self).entity_to_net_entity_map,
                            self.net_entity_to_entity_map == old(self).net_entity_to_entity_map,
                            self.next_send_actions == old(self).next_send_actions,
                        decreases action_list@.len() - j,
                    {
                        let (action_id, action) = action_list[j];
                        self.sending_actions.remove(&action_id);
                        proof {
                            assert(self.actions().sending_components =~= old(self).actions().sending_components);
                            assert(!self.actions().sending.contains_key(action_id));
                        }
                        match action {
                            EntityAction::SpawnEntity(entity) => self.remote_spawned_entity(&action_id, &entity),
                            EntityAction::DespawnEntity(entity) => self.remote_despawned_entity(&action_id, &entity),
                            EntityAction::InsertComponent(entity, component) =>
                                self.remote_inserted_component(&action_id, &entity, &component),
                            EntityAction::RemoveComponent(entity, component) =>
                                self.remote_removed_component(&action_id, &entity, &component),
                            EntityAction::Noop => self.remote_received_noop(&action_id),
                        }
                        proof {
                            assert(action_list@.take(j + 1) =~= action_list@.take(j as int).push(action_list@[j as int]));
                            lemma_list_ids_push(action_list@.take(j as int), action_list@[j as int]);
                            assert(self.actions().sending =~= sending0.remove_keys(list_ids(action_list@.take(j + 1))));
                        }
                        j += 1;
                    }
                    proof {
                        assert(action_list@.take(action_list@.len() as int) =~= action_list@);
                        assert(sent0.contains_key(packet_index));
                        assert(sent0[packet_index].1 == action_list@);
                    }
                },
                None => {
                    proof {
                        assert(!sent0.contains_key(packet_index));
                        assert(sent0.remove(packet_index) =~= sent0);
                    }
                },
            }
        }
        proof {
            assert(self.scope() == old(self).scope());
            assert(self.remote() == old(self).remote());
            assert(dd.skip(k).len() == 0);
            assert(dd.take(k) =~= dd);
        }
    }

    /// Packet `packet_index` was delivered; it is handled by the next
    /// `process_delivered_packets`.
    pub fn notify_packet_delivered(&mut self, packet_index: u16)
        ensures
            final(self).updates() == old(self).updates(),
            final(self).delivered() == old(self).delivered().push(packet_index),
            final(self).actions() == old(self).actions(),
            final(self).scope() == old(self).scope(),
            final(self).remote() == old(self).remote(),
            final(self).next_send() == old(self).next_send(),
            final(self).sent() == old(self).sent(),
            final(self).watched() == old(self).watched(),
            final(self).keys() == old(self).keys(),
            final(self).to_net() == old(self).to_net(),
            final(self).from_net() == old(self).from_net(),
    {
        self.delivered_packets.push_back(packet_index);
    }

    // Collecting

    /// Drops the record of every packet that has outlived its time to live
    /// at `now_ms`.
    pub fn collect_dropped_action_packets(&mut self, now_ms: u64)
        requires
            old(self).wf(),
        ensures
            final(self).updates() == old(self).updates(),
            final(self).wf(),
            final(self).sent() == unexpired(old(self).sent(), now_ms),
            final(self).actions() == old(self).actions(),
            final(self).scope() == old(self).scope(),
            final(self).remote() == old(self).remote(),
            final(self).next_send() == old(self).next_send(),
            final(self).watched() == old(self).watched(),
            final(self).to_net() == old(self).to_net(),
            final(self).from_net() == old(self).from_net(),
            final(self).delivered() == old(self).delivered(),
    {
        let packets = keys_of(&self.sent_actions);
        let mut i: usize = 0;
        while i < packets.len()
            invariant
                self.updates == old(self).updates,
                self.wf(),
                i <= packets@.len(),
                packets@.to_set() == old(self).sent_actions@.dom(),
                packets@.no_duplicates(),
                self.sent() == old(self).sent().remove_keys(expired_among(old(self).sent(), packets@.take(i as int), now_ms)),
                self.actions() == old(self).actions(),
                self.scope_world == old(self).scope_world,
                self.remote_world == old(self).remote_world,
                self.next_send_actions == old(self).next_send_actions,
                self.diff_handler == old(self).diff_handler,
                self.entity_to_net_entity_map == old(self).entity_to_net_entity_map,
                self.net_entity_to_entity_map == old(self).net_entity_to_entity_map,
                self.delivered_packets == old(self).delivered_packets,
            decreases packets@.len() - i,
        {
            let p = packets[i];
            proof {
                assert(packets@.to_set().contains(p));
                assert(!packets@.take(i as int).contains(p)) by {
                    if packets@.take(i as int).contains(p) {
                        let j = choose|j: int| 0 <= j < i && packets@.take(i as int)[j] == p;
                        assert(packets@[j] == packets@[i as int]);
                    }
                }
            }
            proof {
                assert(old(self).sent().contains_key(p));
                assert(!expired_among(old(self).sent(), packets@.take(i as int), now_ms).contains(p));
                assert(self.sent().contains_key(p));
                assert(self.sent()[p] == old(self).sent()[p]);
                assert(self.sent_actions@.dom() =~= self.sent().dom());
            }
            let sent_ms = self.sent_actions.get(&p).unwrap().0;
            proof {
                assert(sent_ms == old(self).sent()[p].0);
            }
            let expired = now_ms > sent_ms && now_ms - sent_ms > PACKET_RECORD_TTL_MS;
            let ghost prev = self.sent();
            if expired {
                self.sent_actions.remove(&p);
                proof {
                    assert(self.sent() =~= prev.remove(p));
                }
            }
            proof {
                let s0 = expired_among(old(self).sent(), packets@.take(i as int), now_ms);
                let s1 = expired_among(old(self).sent(), packets@.take(i + 1), now_ms);
                assert(packets@.take(i + 1) =~= packets@.take(i as int).push(p));
                assert forall|q: u16| #[trigger] packets@.take(i + 1).contains(q) <==> (packets@.take(i as int).contains(q) || q == p) by {
                    crate::world_channel::lemma_push_contains(packets@.take(i as int), p, q);
                }
                if expired {
                    assert(s1 =~= s0.insert(p));
                    assert(self.sent() =~= old(self).sent().remove_keys(s1));
                } else {
                    assert(s1 =~= s0);
                }
            }
            i += 1;
        }
        proof {
            assert(packets@.take(packets@.len() as int) =~= packets@);
            assert(self.sent() =~= unexpired(old(self).sent(), now_ms)) by {
                assert forall|q: u16| #[trigger] old(self).sent().contains_key(q) implies packets@.contains(q) by {
                    assert(packets@.to_set().contains(q));
                }
            }
        }
    }

    /// Queues every action due for (re)sending at `now_ms`: never sent, or
    /// last sent more than `resend_ms` ago. Each is stamped as sent at
    /// `now_ms`. The order in which due actions are queued is that of a walk
    /// over the awaiting actions, which the map leaves open; no due action
    /// may be queued already.
    pub fn collect_next_actions(&mut self, now_ms: u64, resend_ms: u64)
        requires
            old(self).wf(),
            forall|id: u16, j: int| #![trigger is_due(old(self).actions().sending, now_ms, resend_ms, id), old(self).next_send()[j]]
                is_due(old(self).actions().sending, now_ms, resend_ms, id) && 0 <= j < old(self).next_send().len()
                    ==> old(self).next_send()[j].0 != id,
        ensures
            final(self).updates() == old(self).updates(),
            final(self).wf(),
            final(self).actions().sending == stamped(old(self).actions().sending, now_ms, resend_ms),
            exists|order: Seq<u16>| {
                &&& order.no_duplicates()
                &&& order.to_set() == due_ids(old(self).actions().sending, now_ms, resend_ms)
                &&& final(self).next_send() == push_all(old(self).next_send(), order, old(self).actions().sending)
            },
            final(self).actions().next_id == old(self).actions().next_id,
            final(self).actions().sending_entities == old(self).actions().sending_entities,
            final(self).actions().sending_components == old(self).actions().sending_components,
            final(self).scope() == old(self).scope(),
            final(self).remote() == old(self).remote(),
            final(self).sent() == old(self).sent(),
            final(self).watched() == old(self).watched(),
            final(self).to_net() == old(self).to_net(),
            final(self).from_net() == old(self).from_net(),
            final(self).delivered() == old(self).delivered(),
    {
        let ids = keys_of(&self.sending_actions);
        let ghost sending0 = old(self).actions().sending;
        let ghost mut order: Seq<u16> = Seq::empty();
        let mut i: usize = 0;
        while i < ids.len()
            invariant
                self.updates == old(self).updates,
                self.wf(),
                i <= ids@.len(),
                ids@.to_set() == sending0.dom(),
                ids@.no_duplicates(),
                order == ids@.take(i as int).filter(|id: u16| is_due(sending0, now_ms, resend_ms, id)),
                self.next_send() == push_all(old(self).next_send(), order, sending0),
                queued_ids(self.next_send()) == queued_ids(old(self).next_send()) + order.to_set(),
                forall|id: u16| #[trigger] sending0.contains_key(id) ==> self.actions().sending.contains_key(id),
                forall|id: u16| #[trigger] sending0.contains_key(id) ==> self.actions().sending[id] == (
                    if ids@.take(i as int).contains(id) { stamped(sending0, now_ms, resend_ms)[id] } else { sending0[id] }),
                self.actions().sending.dom() == sending0.dom(),
                forall|id: u16, j: int| #![trigger is_due(sending0, now_ms, resend_ms, id), old(self).next_send()[j]]
                    is_due(sending0, now_ms, resend_ms, id) && 0 <= j < old(self).next_send().len()
                        ==> old(self).next_send()[j].0 != id,
                self.actions().next_id == old(self).actions().next_id,
                self.sending_entities == old(self).sending_entities,
                self.sending_components == old(self).sending_components,
                self.scope_world == old(self).scope_world,
                self.remote_world == old(self).remote_world,
                self.sent_actions == old(self).sent_actions,
                self.diff_handler == old(self).diff_handler,
                self.entity_to_net_entity_map == old(self).entity_to_net_entity_map,
                self.net_entity_to_entity_map == old(self).net_entity_to_entity_map,
                self.delivered_packets == old(self).delivered_packets,
            decreases ids@.len() - i,
        {
            let id = ids[i];
            proof {
                assert(ids@.to_set().contains(id));
                assert(!ids@.take(i as int).contains(id)) by {
                    if ids@.take(i as int).contains(id) {
                        let j = choose|j: int| 0 <= j < i && ids@.take(i as int)[j] == id;
                        assert(ids@[j] == ids@[i as int]);
                    }
                }
            }
            let entry = *self.sending_actions.get(&id).unwrap();
            let should_send = match entry.0 {
                Some(last_sent) => now_ms > last_sent && now_ms - last_sent > resend_ms,
                None => true,
            };
            let ghost order0 = order;
            if should_send {
                proof {
                    assert(is_due(sending0, now_ms, resend_ms, id));
                    assert forall|j: int| 0 <= j < self.next_send().len() implies #[trigger] self.next_send()[j].0 != id by {
                        assert(queued_ids(self.next_send()).contains(self.next_send()[j].0)) by {
                            lemma_queued_ids_contains(self.next_send(), j);
                        }
                        if queued_ids(old(self).next_send()).contains(id) {
                            let m = lemma_queued_ids_index(old(self).next_send(), id);
                            assert(old(self).next_send()[m].0 != id);
                        }
                        if order0.to_set().contains(id) {
                            let f = |x: u16| is_due(sending0, now_ms, resend_ms, x);
                            ids@.take(i as int).lemma_filter_contains_rev(f, id);
                        }
                    }
                }
                proof {
                    lemma_push_index_range(self.next_send(), id, 0);
                }
                self.next_send_actions.push(id, entry.1);
                self.sending_actions.insert(id, (Some(now_ms), entry.1));
                proof {
                    order = order0.push(id);
                    lemma_push_all_push(old(self).next_send(), order0, id, sending0);
                    lemma_queued_ids_insert(push_all(old(self).next_send(), order0, sending0),
                        push_index(push_all(old(self).next_send(), order0, sending0), id, 0), (id, sending0[id].1));
                    order0.lemma_push_to_set_commute(id);
                }
            }
            proof {
                let f = |x: u16| is_due(sending0, now_ms, resend_ms, x);
                assert(ids@.take(i + 1) =~= ids@.take(i as int).push(id));
                ids@.take(i as int).lemma_filter_push(id, f);
                assert forall|x: u16| #[trigger] ids@.take(i + 1).contains(x) <==> (ids@.take(i as int).contains(x) || x == id) by {
                    crate::world_channel::lemma_push_contains(ids@.take(i as int), id, x);
                }
                assert(queued_ids(self.next_send()) =~= queued_ids(old(self).next_send()) + order.to_set());
            }
            i += 1;
        }
        proof {
            assert(ids@.take(ids@.len() as int) =~= ids@);
            let f = |x: u16| is_due(sending0, now_ms, resend_ms, x);
            assert(self.actions().sending =~= stamped(sending0, now_ms, resend_ms)) by {
                assert forall|id: u16| #[trigger] sending0.contains_key(id) implies ids@.contains(id) by {
                    assert(ids@.to_set().contains(id));
                }
            }
            crate::kinds::lemma_filter_no_duplicates(ids@, f);
            assert(order.to_set() =~= due_ids(sending0, now_ms, resend_ms)) by {
                assert forall|x: u16| order.to_set().contains(x) <==> due_ids(sending0, now_ms, resend_ms).contains(x) by {
                    if order.contains(x) {
                        ids@.lemma_filter_contains_rev(f, x);
                    }
                    if due_ids(sending0, now_ms, resend_ms).contains(x) {
                        assert(ids@.to_set().contains(x));
                        let j = choose|j: int| 0 <= j < ids@.len() && ids@[j] == x;
                        ids@.lemma_filter_contains(f, j);
                    }
                }
            }
            assert(self.scope() == old(self).scope());
            assert(self.remote() == old(self).remote());
            assert(self.actions().sending_components == old(self).actions().sending_components);
        }
    }

    /// Cleans up the update packets lost at `now_ms` (sent more than
    /// `update_drop_ms` before), adds the component updates due, drops
    /// expired action records and queues the actions due for sending at
    /// `now_ms`.
    pub fn collect_outgoing_messages(&mut self, now_ms: u64, resend_ms: u64, update_drop_ms: u64)
        requires
            old(self).wf(),
            forall|id: u16, j: int| #![trigger is_due(old(self).actions().sending, now_ms, resend_ms, id), old(self).next_send()[j]]
                is_due(old(self).actions().sending, now_ms, resend_ms, id) && 0 <= j < old(self).next_send().len()
                    ==> old(self).next_send()[j].0 != id,
        ensures
            final(self).wf(),
            final(self).sent() == unexpired(old(self).sent(), now_ms),
            final(self).actions().sending == stamped(old(self).actions().sending, now_ms, resend_ms),
            exists|order: Seq<u16>| {
                &&& order.no_duplicates()
                &&& order.to_set() == due_ids(old(self).actions().sending, now_ms, resend_ms)
                &&& final(self).next_send() == push_all(old(self).next_send(), order, old(self).actions().sending)
            },
            final(self).actions().next_id == old(self).actions().next_id,
            final(self).actions().sending_entities == old(self).actions().sending_entities,
            final(self).actions().sending_components == old(self).actions().sending_components,
            final(self).scope() == old(self).scope(),
            final(self).remote() == old(self).remote(),
            final(self).watched() == old(self).watched(),
            final(self).to_net() == old(self).to_net(),
            final(self).from_net() == old(self).from_net(),
            final(self).delivered() == old(self).delivered(),
            final(self).updates().sent() == unexpired_records(old(self).updates().sent(), now_ms, update_drop_ms),
            final(self).updates().handler().dom() == old(self).updates().handler().dom(),
            forall|key: (E, ComponentKind)| #[trigger] old(self).updates().handler().contains_key(key)
                ==> mask_within(old(self).updates().handler()[key], final(self).updates().handler()[key]),
            forall|key: (E, ComponentKind), i: int, b: u8|
                old(self).updates().handler().contains_key(key) && 0 <= i < final(self).updates().handler()[key].len() && b < 8
                && #[trigger] has_bit(final(self).updates().handler()[key], i, b)
                ==> has_bit(old(self).updates().handler()[key], i, b)
                    || marked_by_lost(old(self).updates().sent(), now_ms, update_drop_ms, key, i, b),
            forall|e: E| #[trigger] final(self).updates().next_updates().contains_key(e)
                <==> (old(self).updates().next_updates().contains_key(e)
                    || exists|k: ComponentKind| #[trigger] remote_update_due(old(self).remote(), final(self).updates().handler(), (e, k))),
            forall|e: E, k: ComponentKind|
                #![trigger final(self).updates().next_updates()[e].contains(k)]
                final(self).updates().next_updates().contains_key(e)
                ==> (final(self).updates().next_updates()[e].contains(k) <==> (
                    (old(self).updates().next_updates().contains_key(e) && old(self).updates().next_updates()[e].contains(k))
                    || remote_update_due(old(self).remote(), final(self).updates().handler(), (e, k)))),
            final(self).updates().last_index() == old(self).updates().last_index(),
    {
        self.collect_dropped_update_packets(now_ms, update_drop_ms);
        self.collect_component_updates();
        self.collect_dropped_action_packets(now_ms);
        self.collect_next_actions(now_ms, resend_ms);
    }

    /// Whether any action or update waits for the next packet.
    pub fn has_outgoing_messages(&self) -> (r: bool)
        requires
            self.wf(),
        ensures
            r == (self.next_send().len() != 0 || self.updates().next_updates().dom().len() > 0),
    {
        self.next_send_actions.len() != 0 || self.updates.has_outgoing_updates()
    }

    // Updates

    /// Changes to component `kind` of `entity` are tracked with a clear mask
    /// of `diff_mask_length` bytes (a component already tracked keeps its
    /// mask).
    pub fn register_component(&mut self, entity: &E, kind: &ComponentKind, diff_mask_length: u8)
        requires
            old(self).wf(),
        ensures
            final(self).wf(),
            final(self).same_replication(&*old(self)),
            final(self).updates().handler() == if old(self).updates().handler().contains_key((*entity, *kind)) {
                old(self).updates().handler()
            } else {
                old(self).updates().handler().insert((*entity, *kind), zeros(diff_mask_length as nat))
            },
            final(self).updates().next_updates() == old(self).updates().next_updates(),
            final(self).updates().sent() == old(self).updates().sent(),
            final(self).updates().last_index() == old(self).updates().last_index(),
    {
        self.updates.register_component(entity, kind, diff_mask_length);
    }

    /// Changes to component `kind` of `entity` are no longer tracked.
    pub fn deregister_component(&mut self, entity: &E, kind: &ComponentKind)
        requires
            old(self).wf(),
        ensures
            final(self).wf(),
            final(self).same_replication(&*old(self)),
            final(self).updates().handler() == old(self).updates().handler().remove((*entity, *kind)),
            final(self).updates().next_updates() == old(self).updates().next_updates(),
            final(self).updates().sent() == old(self).updates().sent(),
            final(self).updates().last_index() == old(self).updates().last_index(),
    {
        self.updates.deregister_component(entity, kind);
    }

    /// Property `index` of component `kind` of `entity` changed: it is
    /// marked if the component is tracked.
    pub fn mutate(&mut self, entity: &E, kind: &ComponentKind, index: u8)
        requires
            old(self).wf(),
        ensures
            final(self).wf(),
            final(self).same_replication(&*old(self)),
            final(self).updates().handler() == if old(self).updates().handler().contains_key((*entity, *kind)) {
                old(self).updates().handler().insert(
                    (*entity, *kind),
                    mask_set_bit(old(self).updates().handler()[(*entity, *kind)], index, true),
                )
            } else {
                old(self).updates().handler()
            },
            final(self).updates().next_updates() == old(self).updates().next_updates(),
            final(self).updates().sent() == old(self).updates().sent(),
            final(self).updates().last_index() == old(self).updates().last_index(),
    {
        self.updates.mutate(entity, kind, index);
    }

    /// Adds the updates due to those already due: every component the
    /// client holds whose mask marks a change.
    pub fn collect_component_updates(&mut self)
        requires
            old(self).wf(),
        ensures
            final(self).wf(),
            final(self).same_replication(&*old(self)),
            forall|e: E| #[trigger] final(self).updates().next_updates().contains_key(e)
                <==> (old(self).updates().next_updates().contains_key(e)
                    || exists|k: ComponentKind| #[trigger] remote_update_due(old(self).remote(), old(self).updates().handler(), (e, k))),
            forall|e: E, k: ComponentKind|
                #![trigger final(self).updates().next_updates()[e].contains(k)]
                final(self).updates().next_updates().contains_key(e)
                ==> (final(self).updates().next_updates()[e].contains(k) <==> (
                    (old(self).updates().next_updates().contains_key(e) && old(self).updates().next_updates()[e].contains(k))
                    || remote_update_due(old(self).remote(), old(self).updates().handler(), (e, k)))),
            final(self).updates().handler() == old(self).updates().handler(),
            final(self).updates().sent() == old(self).updates().sent(),
            final(self).updates().last_index() == old(self).updates().last_index(),
    {
        proof {
            self.lemma_views();
        }
        let held = pairs_of(&self.remote_world);
        let ghost h = self.updates().handler();
        let ghost n = self.updates().next_updates();
        let ghost rm = self.remote();
        self.updates.add_component_updates(&held);
        proof {
            assert forall|key: (E, ComponentKind)| component_due(held@, h, key) == remote_update_due(rm, h, key) by {
                assert(held@.to_set().contains(key) == held@.contains(key));
                assert(kind_pairs(self.remote_world@).contains(key) == (rm.contains_key(key.0) && rm[key.0].contains(key.1)));
            }
            assert forall|e: E| #[trigger] self.updates().next_updates().contains_key(e)
                <==> (n.contains_key(e) || exists|k: ComponentKind| #[trigger] remote_update_due(rm, h, (e, k))) by {
                if self.updates().next_updates().contains_key(e) && !n.contains_key(e) {
                    let k = choose|k: ComponentKind| #[trigger] component_due(held@, h, (e, k));
                    assert(remote_update_due(rm, h, (e, k)));
                }
                if exists|k: ComponentKind| #[trigger] remote_update_due(rm, h, (e, k)) {
                    let k = choose|k: ComponentKind| #[trigger] remote_update_due(rm, h, (e, k));
                    assert(component_due(held@, h, (e, k)));
                }
            }
        }
    }

    /// The entities with updates due, each once, in no particular order:
    /// the order an update packet is filled in.
    pub fn update_entities(&self) -> (r: Vec<E>)
        requires
            self.wf(),
        ensures
            r@.to_set() == self.updates().next_updates().dom(),
            r@.no_duplicates(),
    {
        self.updates.update_entities()
    }

    /// Writes the updates of `entities` into packet `packet_index`, as
    /// [`EntityUpdates::write_updates`] does, and hands back, for each, the
    /// components to encode with the masks sent.
    pub fn write_updates(&mut self, now_ms: u64, packet_index: u16, entities: &Vec<E>) -> (r: Vec<(E, Vec<(ComponentKind, DiffMask)>)>)
        requires
            old(self).wf(),
            entities@.no_duplicates(),
            forall|x: E| #[trigger] entities@.contains(x) ==> old(self).updates().next_updates().contains_key(x),
            forall|x: E, k: ComponentKind| #[trigger] entities@.contains(x) && old(self).updates().next_updates()[x].contains(k)
                ==> #[trigger] old(self).updates().handler().contains_key((x, k)),
        ensures
            final(self).wf(),
            final(self).same_replication(&*old(self)),
            updates_written(r@, entities@, old(self).updates().next_updates(), old(self).updates().handler()),
            final(self).updates().next_updates() == old(self).updates().next_updates().remove_keys(entities@.to_set()),
            final(self).updates().handler() == cleared_after_write(old(self).updates().handler(), entities@.to_set(),
                old(self).updates().next_updates()),
            final(self).updates().sent() == old(self).updates().sent().insert(packet_index, (
                if old(self).updates().sent().contains_key(packet_index) { old(self).updates().sent()[packet_index].0 } else { now_ms },
                record_after_write(
                    if old(self).updates().sent().contains_key(packet_index) {
                        old(self).updates().sent()[packet_index].1
                    } else {
                        Map::empty()
                    },
                    old(self).updates().handler(),
                    entities@.to_set(),
                    old(self).updates().next_updates(),
                ),
            )),
            final(self).updates().last_index() == if exists|i: int| 0 <= i < entities@.len()
                && #[trigger] old(self).updates().next_updates()[entities@[i]].len() > 0 {
                packet_index
            } else {
                old(self).updates().last_index()
            },
    {
        self.updates.write_updates(now_ms, packet_index, entities)
    }

    /// Cleans up every update packet lost at `now_ms` (sent more than
    /// `drop_after_ms` before), as
    /// [`EntityUpdates::collect_dropped_update_packets`] does.
    pub fn collect_dropped_update_packets(&mut self, now_ms: u64, drop_after_ms: u64)
        requires
            old(self).wf(),
        ensures
            final(self).wf(),
            final(self).same_replication(&*old(self)),
            final(self).updates().sent() == unexpired_records(old(self).updates().sent(), now_ms, drop_after_ms),
            final(self).updates().handler().dom() == old(self).updates().handler().dom(),
            forall|key: (E, ComponentKind)| #[trigger] old(self).updates().handler().contains_key(key)
                ==> mask_within(old(self).updates().handler()[key], final(self).updates().handler()[key]),
            forall|key: (E, ComponentKind), i: int, b: u8|
                old(self).updates().handler().contains_key(key) && 0 <= i < final(self).updates().handler()[key].len() && b < 8
                && #[trigger] has_bit(final(self).updates().handler()[key], i, b)
                ==> has_bit(old(self).updates().handler()[key], i, b)
                    || marked_by_lost(old(self).updates().sent(), now_ms, drop_after_ms, key, i, b),
            final(self).updates().next_updates() == old(self).updates().next_updates(),
            final(self).updates().last_index() == old(self).updates().last_index(),
    {
        self.updates.collect_dropped_update_packets(now_ms, drop_after_ms);
    }

    /// Update packet `dropped` was lost: its changes that no later packet
    /// carried are marked again, as [`EntityUpdates::dropped_update_cleanup`]
    /// does.
    pub fn dropped_update_cleanup(&mut self, dropped: u16)
        requires
            old(self).wf(),
        ensures
            final(self).wf(),
            final(self).same_replication(&*old(self)),
            final(self).updates().sent() == old(self).updates().sent().remove(dropped),
            final(self).updates().handler() == after_cleanup(old(self).updates().handler(), old(self).updates().sent(),
                dropped, old(self).updates().last_index()),
            final(self).updates().next_updates() == old(self).updates().next_updates(),
            final(self).updates().last_index() == old(self).updates().last_index(),
    {
        self.updates.dropped_update_cleanup(dropped);
    }

    // Writing

    /// Whether `action` can be written given `world` (each entity's
    /// components): an insert needs the component in the world.
    fn can_write_action(&self, world: &HashMap<E, Vec<ComponentKind>>, action: &EntityAction<E>) -> (r: bool)
        requires
            self.wf(),
        ensures
            r == can_write(world@, *action),
    {
        match action {
            EntityAction::InsertComponent(entity, component) => {
                match world.get(entity) {
                    Some(kinds) => crate::entity_manager::contains_kind(kinds, component),
                    None => false,
                }
            },
            _ => true,
        }
    }

    /// Takes the first queued action and, when it can be written given
    /// `world`, records it in the record of packet `packet_index` (which
    /// must exist) and returns it for encoding; otherwise it is dropped.
    pub fn write_action(&mut self, world: &HashMap<E, Vec<ComponentKind>>, packet_index: u16) -> (r: Option<EntityAction<E>>)
        requires
            old(self).wf(),
            old(self).next_send().len() > 0,
            old(self).sent().contains_key(packet_index),
        ensures
            final(self).updates() == old(self).updates(),
            final(self).wf(),
            final(self).next_send() == old(self).next_send().drop_first(),
            can_write(world@, old(self).next_send()[0].1) ==> {
                &&& r == Some(old(self).next_send()[0].1)
                &&& final(self).sent() == old(self).sent().insert(packet_index, (old(self).sent()[packet_index].0,
                    old(self).sent()[packet_index].1.push(old(self).next_send()[0])))
            },
            !can_write(world@, old(self).next_send()[0].1) ==> r is None && final(self).sent() == old(self).sent(),
            final(self).actions() == old(self).actions(),
            final(self).scope() == old(self).scope(),
            final(self).remote() == old(self).remote(),
            final(self).watched() == old(self).watched(),
            final(self).to_net() == old(self).to_net(),
            final(self).from_net() == old(self).from_net(),
            final(self).delivered() == old(self).delivered(),
    {
        let (action_id, action) = self.next_send_actions.pop().unwrap();
        if !self.can_write_action(world, &action) {
            proof {
                assert(self.scope() == old(self).scope());
                assert(self.remote() == old(self).remote());
            }
            return None;
        }
        let (sent_ms, mut list) = self.sent_actions.remove(&packet_index).unwrap();
        list.push((action_id, action));
        self.sent_actions.insert(packet_index, (sent_ms, list));
        proof {
            assert(self.sent() =~= old(self).sent().insert(packet_index, (old(self).sent()[packet_index].0,
                old(self).sent()[packet_index].1.push(old(self).next_send()[0]))));
            assert(self.scope() == old(self).scope());
            assert(self.remote() == old(self).remote());
        }
        Some(action)
    }

    /// Records in packet `packet_index` sent at `now_ms` (whose record is
    /// created if missing) the first `message_count` queued actions, which
    /// the serializer found to fit; those that cannot be written given
    /// `world` are dropped. Returns the written actions, in order.
    pub fn write_actions(
        &mut self,
        world: &HashMap<E, Vec<ComponentKind>>,
        now_ms: u64,
        packet_index: u16,
        message_count: usize,
    ) -> (r: Vec<EntityAction<E>>)
        requires
            old(self).wf(),
            message_count <= old(self).next_send().len(),
        ensures
            final(self).updates() == old(self).updates(),
            final(self).wf(),
            final(self).next_send() == old(self).next_send().skip(message_count as int),
            r@ == writable(world@, old(self).next_send().take(message_count as int)).map_values(
                |p: (u16, EntityAction<E>)| p.1),
            ({
                let rec = if old(self).sent().contains_key(packet_index) {
                    old(self).sent()[packet_index]
                } else {
                    (now_ms, Seq::empty())
                };
                final(self).sent() == old(self).sent().insert(packet_index, (rec.0,
                    rec.1 + writable(world@, old(self).next_send().take(message_count as int))))
            }),
            final(self).actions() == old(self).actions(),
            final(self).scope() == old(self).scope(),
            final(self).remote() == old(self).remote(),
            final(self).watched() == old(self).watched(),
            final(self).to_net() == old(self).to_net(),
            final(self).from_net() == old(self).from_net(),
            final(self).delivered() == old(self).delivered(),
    {
        if !self.sent_actions.contains_key(&packet_index) {
            self.sent_actions.insert(packet_index, (now_ms, Vec::new()));
        }
        let ghost rec = if old(self).sent().contains_key(packet_index) {
            old(self).sent()[packet_index]
        } else {
            (now_ms, Seq::<(u16, EntityAction<E>)>::empty())
        };
        proof {
            assert(self.sent() =~= old(self).sent().insert(packet_index, rec));
            assert(self.scope() == old(self).scope());
            assert(self.remote() == old(self).remote());
        }
        let ghost queued = old(self).next_send();
        let mut out: Vec<EntityAction<E>> = Vec::new();
        let mut i: usize = 0;
        while i < message_count
            invariant
                self.updates == old(self).updates,
                self.wf(),
                i <= message_count,
                message_count <= queued.len(),
                self.next_send() == queued.skip(i as int),
                out@ == writable(world@, queued.take(i as int)).map_values(|p: (u16, EntityAction<E>)| p.1),
                self.sent() == old(self).sent().insert(packet_index, (rec.0, rec.1 + writable(world@, queued.take(i as int)))),
                self.actions() == old(self).actions(),
                self.scope() == old(self).scope(),
                self.remote() == old(self).remote(),
                self.watched() == old(self).watched(),
                self.to_net() == old(self).to_net(),
                self.from_net() == old(self).from_net(),
                self.delivered() == old(self).delivered(),
            decreases message_count - i,
        {
            let ghost x = queued[i as int];
            proof {
                assert(queued.skip(i as int)[0] == x);
            }
            let written = self.write_action(world, packet_index);
            proof {
                let f = |p: (u16, EntityAction<E>)| can_write(world@, p.1);
                let g = |p: (u16, EntityAction<E>)| p.1;
                assert(queued.take(i + 1) =~= queued.take(i as int).push(x));
                queued.take(i as int).lemma_filter_push(x, f);
                queued.take(i as int).filter(f).lemma_push_map_commute(g, x);
                assert(queued.skip(i as int).drop_first() =~= queued.skip(i + 1));
                let w0 = writable(world@, queued.take(i as int));
                assert(rec.1 + w0.push(x) =~= (rec.1 + w0).push(x));
            }
            match written {
                Some(a) => {
                    out.push(a);
                },
                None => {},
            }
            i += 1;
        }
        out
    }

    // Net entity keys

    /// The net entity key of `entity`, which must have one.
    pub fn entity_to_net_entity(&self, entity: &E) -> (r: u16)
        requires
            self.wf(),
            self.to_net().contains_key(*entity),
        ensures
            r == self.to_net()[*entity],
    {
        *self.entity_to_net_entity_map.get(entity).unwrap()
    }

    /// The entity named by `net_entity`, which must name one.
    pub fn net_entity_to_entity(&self, net_entity: &u16) -> (r: E)
        requires
            self.wf(),
            self.from_net().contains_key(*net_entity),
        ensures
            r == self.from_net()[*net_entity],
    {
        *self.net_entity_to_entity_map.get(net_entity).unwrap()
    }

}

/// Comparing `e` drops its net key: neither side holds it and it has one.
pub open spec fn drops_net_key<E>(scope: Map<E, Set<ComponentKind>>, remote: Map<E, Set<ComponentKind>>, to_net: Map<E, u16>, e: E) -> bool {
    !scope.contains_key(e) && !remote.contains_key(e) && to_net.contains_key(e)
}

/// The actions after comparing component `k` of `e` (in scope) between
/// `scope` and `remote`: unchanged while the client does not hold `e`.
pub open spec fn component_actions<E>(
    s: ActionState<E>,
    scope: Map<E, Set<ComponentKind>>,
    remote: Map<E, Set<ComponentKind>>,
    e: E,
    k: ComponentKind,
) -> ActionState<E> {
    if remote.contains_key(e) {
        diff_component(s, scope[e].contains(k), remote[e].contains(k), e, k)
    } else {
        s
    }
}

/// The watched components after comparing component `k` of `e`: it stops
/// being watched when the client holds `e` and neither side holds `k`.
pub open spec fn component_watched<E>(
    w: Set<(E, ComponentKind)>,
    scope: Map<E, Set<ComponentKind>>,
    remote: Map<E, Set<ComponentKind>>,
    e: E,
    k: ComponentKind,
) -> Set<(E, ComponentKind)> {
    if remote.contains_key(e) && !scope[e].contains(k) && !remote[e].contains(k) {
        w.remove((e, k))
    } else {
        w
    }
}

/// Acknowledging a component insert (`inserted`) or removal of `k` on `e`
/// can be handled without failing, given bookkeeping `s` once the action
/// stopped awaiting delivery.
pub open spec fn remote_component_ok<E>(
    s: ActionState<E>,
    scope: Map<E, Set<ComponentKind>>,
    remote: Map<E, Set<ComponentKind>>,
    e: E,
    k: ComponentKind,
    inserted: bool,
) -> bool {
    &&& !remote.contains_key(e) ==> erase_entity_ok(s, e)
    &&& remote.contains_key(e) && !scope.contains_key(e) ==> erase_entity_ok(s, e)
    &&& remote.contains_key(e) && scope.contains_key(e) ==> diff_component_ok(s, scope[e].contains(k), inserted, e, k)
}

/// An insert for each of `ks`, in order, each superseding its component's
/// in-flight action.
pub open spec fn sync_inserts<E>(s: ActionState<E>, e: E, ks: Seq<ComponentKind>) -> ActionState<E>
    decreases ks.len(),
{
    if ks.len() == 0 {
        s
    } else {
        sync_component(sync_inserts(s, e, ks.drop_last()), e, ks.last(), true)
    }
}

/// Issuing an insert for each of `ks`, in order, can be done without failing.
pub open spec fn sync_inserts_ok<E>(s: ActionState<E>, e: E, ks: Seq<ComponentKind>) -> bool
    decreases ks.len(),
{
    ks.len() == 0 || (sync_inserts_ok(s, e, ks.drop_last()) && erase_component_ok(sync_inserts(s, e, ks.drop_last()), e, ks.last()))
}

proof fn lemma_sync_inserts_ok_prefix<E>(s: ActionState<E>, e: E, ks: Seq<ComponentKind>, n: int)
    requires
        sync_inserts_ok(s, e, ks),
        0 < n <= ks.len(),
    ensures
        erase_component_ok(sync_inserts(s, e, ks.take(n).drop_last()), e, ks[n - 1]),
        sync_inserts(s, e, ks.take(n)) == sync_component(sync_inserts(s, e, ks.take(n).drop_last()), e, ks[n - 1], true),
    decreases ks.len() - n,
{
    if n < ks.len() {
        assert(ks.drop_last().take(n) =~= ks.take(n));
        lemma_sync_inserts_ok_prefix(s, e, ks.drop_last(), n);
    } else {
        assert(ks.take(n) =~= ks);
    }
}

/// The action ids of a packet's action list.
pub open spec fn list_ids<E>(list: Seq<(u16, EntityAction<E>)>) -> Set<u16> {
    list.map_values(|p: (u16, EntityAction<E>)| p.0).to_set()
}

proof fn lemma_list_ids_push<E>(list: Seq<(u16, EntityAction<E>)>, x: (u16, EntityAction<E>))
    ensures
        list_ids(list.push(x)) == list_ids(list).insert(x.0),
{
    let f = |p: (u16, EntityAction<E>)| p.0;
    list.lemma_push_map_commute(f, x);
    list.map_values(f).lemma_push_to_set_commute(x.0);
}

/// Delivering packet `p`: its record goes, and each of its actions stops
/// awaiting delivery.
pub open spec fn deliver_packet<E>(
    sending: Map<u16, (Option<u64>, EntityAction<E>)>,
    sent: Map<u16, (u64, Seq<(u16, EntityAction<E>)>)>,
    p: u16,
) -> (Map<u16, (Option<u64>, EntityAction<E>)>, Map<u16, (u64, Seq<(u16, EntityAction<E>)>)>) {
    if sent.contains_key(p) {
        (sending.remove_keys(list_ids(sent[p].1)), sent.remove(p))
    } else {
        (sending, sent)
    }
}

/// Delivering the packets `ps`, first to last.
pub open spec fn deliver_all<E>(
    sending: Map<u16, (Option<u64>, EntityAction<E>)>,
    sent: Map<u16, (u64, Seq<(u16, EntityAction<E>)>)>,
    ps: Seq<u16>,
) -> (Map<u16, (Option<u64>, EntityAction<E>)>, Map<u16, (u64, Seq<(u16, EntityAction<E>)>)>)
    decreases ps.len(),
{
    if ps.len() == 0 {
        (sending, sent)
    } else {
        let (a, b) = deliver_packet(sending, sent, ps[0]);
        deliver_all(a, b, ps.drop_first())
    }
}

/// The packets among `ps` whose record in `sent` has outlived its time to
/// live at `now_ms`.
pub open spec fn expired_among<E>(sent: Map<u16, (u64, Seq<(u16, EntityAction<E>)>)>, ps: Seq<u16>, now_ms: u64) -> Set<u16> {
    Set::new(|p: u16| ps.contains(p) && sent.contains_key(p) && crate::entity_manager::record_expired_strict(sent[p].0, now_ms))
}

/// The records of `sent` that have not outlived their time to live at
/// `now_ms`.
pub open spec fn unexpired<E>(sent: Map<u16, (u64, Seq<(u16, EntityAction<E>)>)>, now_ms: u64) -> Map<u16, (u64, Seq<(u16, EntityAction<E>)>)> {
    Map::new(|p: u16| sent.contains_key(p) && !crate::entity_manager::record_expired_strict(sent[p].0, now_ms), |p: u16| sent[p])
}

/// Action `id` awaits delivery and is due for (re)sending at `now_ms`:
/// never sent, or last sent more than `resend_ms` ago.
pub open spec fn is_due<E>(sending: Map<u16, (Option<u64>, EntityAction<E>)>, now_ms: u64, resend_ms: u64, id: u16) -> bool {
    &&& sending.contains_key(id)
    &&& match sending[id].0 {
        Some(last) => now_ms > last && now_ms - last > resend_ms,
        None => true,
    }
}

/// The ids of the actions due at `now_ms`.
pub open spec fn due_ids<E>(sending: Map<u16, (Option<u64>, EntityAction<E>)>, now_ms: u64, resend_ms: u64) -> Set<u16> {
    Set::new(|id: u16| is_due(sending, now_ms, resend_ms, id))
}

/// `sending` with every due action stamped as sent at `now_ms`.
pub open spec fn stamped<E>(sending: Map<u16, (Option<u64>, EntityAction<E>)>, now_ms: u64, resend_ms: u64) -> Map<u16, (Option<u64>, EntityAction<E>)> {
    Map::new(
        |id: u16| sending.contains_key(id),
        |id: u16| if is_due(sending, now_ms, resend_ms, id) { (Some(now_ms), sending[id].1) } else { sending[id] },
    )
}

/// The queue after pushing the actions of `order`, first to last.
pub open spec fn push_all<E>(queue: Seq<(u16, EntityAction<E>)>, order: Seq<u16>, sending: Map<u16, (Option<u64>, EntityAction<E>)>) -> Seq<(u16, EntityAction<E>)>
    decreases order.len(),
{
    if order.len() == 0 {
        queue
    } else {
        let q = push_all(queue, order.drop_last(), sending);
        q.insert(push_index(q, order.last(), 0), (order.last(), sending[order.last()].1))
    }
}

proof fn lemma_push_all_push<E>(queue: Seq<(u16, EntityAction<E>)>, order: Seq<u16>, id: u16, sending: Map<u16, (Option<u64>, EntityAction<E>)>)
    ensures
        push_all(queue, order.push(id), sending) == ({
            let q = push_all(queue, order, sending);
            q.insert(push_index(q, id, 0), (id, sending[id].1))
        }),
{
    assert(order.push(id).drop_last() =~= order);
}

/// The action ids in a queue.
pub open spec fn queued_ids<E>(queue: Seq<(u16, EntityAction<E>)>) -> Set<u16> {
    Set::new(|id: u16| exists|j: int| 0 <= j < queue.len() && #[trigger] queue[j].0 == id)
}

proof fn lemma_queued_ids_contains<E>(queue: Seq<(u16, EntityAction<E>)>, j: int)
    requires
        0 <= j < queue.len(),
    ensures
        queued_ids(queue).contains(queue[j].0),
{
}

proof fn lemma_queued_ids_index<E>(queue: Seq<(u16, EntityAction<E>)>, id: u16) -> (j: int)
    requires
        queued_ids(queue).contains(id),
    ensures
        0 <= j < queue.len(),
        queue[j].0 == id,
{
    choose|j: int| 0 <= j < queue.len() && #[trigger] queue[j].0 == id
}

proof fn lemma_queued_ids_insert<E>(queue: Seq<(u16, EntityAction<E>)>, at: int, x: (u16, EntityAction<E>))
    requires
        0 <= at <= queue.len(),
    ensures
        queued_ids(queue.insert(at, x)) == queued_ids(queue).insert(x.0),
{
    let q2 = queue.insert(at, x);
    assert forall|id: u16| queued_ids(q2).contains(id) <==> queued_ids(queue).insert(x.0).contains(id) by {
        if queued_ids(q2).contains(id) {
            let j = choose|j: int| 0 <= j < q2.len() && #[trigger] q2[j].0 == id;
            if j < at {
                assert(queue[j].0 == id);
            } else if j > at {
                assert(queue[j - 1].0 == id);
            }
        }
        if queued_ids(queue).contains(id) {
            let j = choose|j: int| 0 <= j < queue.len() && #[trigger] queue[j].0 == id;
            if j < at {
                assert(q2[j].0 == id);
            } else {
                assert(q2[j + 1].0 == id);
            }
        }
        if id == x.0 {
            assert(q2[at].0 == id);
        }
    }
    assert(queued_ids(q2) =~= queued_ids(queue).insert(x.0));
}

/// Whether an action can be written given `world`: an insert needs the
/// component in the world.
pub open spec fn can_write<E>(world: Map<E, Vec<ComponentKind>>, action: EntityAction<E>) -> bool {
    match action {
        EntityAction::InsertComponent(e, k) => world.contains_key(e) && world[e]@.contains(k),
        _ => true,
    }
}

/// Every queued action can be written, except an insertion of a component
/// the world no longer gives the entity: spawns, despawns, removals and
/// no-ops always go out, and an insertion goes out exactly when the world
/// still has that component on that entity.
pub proof fn lemma_only_missing_insertions_held_back<E>(world: Map<E, Vec<ComponentKind>>, action: EntityAction<E>)
    ensures
        !(action is InsertComponent) ==> can_write(world, action),
        action matches EntityAction::InsertComponent(e, k) ==> (can_write(world, action) <==> (world.contains_key(e)
            && world[e]@.contains(k))),
{
}

/// The queued actions that can be written given `world`, in order.
pub open spec fn writable<E>(world: Map<E, Vec<ComponentKind>>, queue: Seq<(u16, EntityAction<E>)>) -> Seq<(u16, EntityAction<E>)> {
    queue.filter(|p: (u16, EntityAction<E>)| can_write(world, p.1))
}

/// Every recorded in-flight action awaits delivery and is about what it is
/// recorded under: an entity's is a spawn or despawn of that entity, a
/// component's an insert or removal of that component.
pub open spec fn tracking_consistent<E>(s: ActionState<E>) -> bool {
    &&& forall|e: E| #[trigger] s.sending_entities.contains_key(e) ==> {
        let id = s.sending_entities[e];
        &&& s.sending.contains_key(id)
        &&& (s.sending[id].1 == EntityAction::SpawnEntity(e) || s.sending[id].1 == EntityAction::DespawnEntity(e))
    }
    &&& forall|e: E, c: u16| #[trigger] s.sending_components.contains_key(e) && #[trigger] s.sending_components[e].contains_key(c) ==> {
        let id = s.sending_components[e][c];
        &&& s.sending.contains_key(id)
        &&& (s.sending[id].1 == EntityAction::InsertComponent(e, ComponentKind(c))
            || s.sending[id].1 == EntityAction::RemoveComponent(e, ComponentKind(c)))
    }
}

/// The next action id is not awaiting delivery.
pub open spec fn next_id_free<E>(s: ActionState<E>) -> bool {
    !s.sending.contains_key(s.next_id)
}

proof fn lemma_erase_entity_keeps_tracking<E>(s: ActionState<E>, e: E)
    requires
        tracking_consistent(s),
    ensures
        tracking_consistent(erase_entity(s, e)),
        erase_entity(s, e).sending.dom() == s.sending.dom(),
        erase_entity(s, e).next_id == s.next_id,
{
    if s.sending_entities.contains_key(e) {
        let id = s.sending_entities[e];
        let s1 = erase_entity(s, e);
        assert(s1.sending.dom() =~= s.sending.dom());
        assert forall|x: E| #[trigger] s1.sending_entities.contains_key(x) implies {
            let i = s1.sending_entities[x];
            &&& s1.sending.contains_key(i)
            &&& (s1.sending[i].1 == EntityAction::SpawnEntity(x) || s1.sending[i].1 == EntityAction::DespawnEntity(x))
        } by {
            assert(s.sending_entities.contains_key(x));
            if s.sending_entities[x] == id {
                assert(s.sending[id].1 == EntityAction::SpawnEntity(e) || s.sending[id].1 == EntityAction::DespawnEntity(e));
            }
        }
        assert forall|x: E, c: u16| #[trigger] s1.sending_components.contains_key(x) && #[trigger] s1.sending_components[x].contains_key(c) implies {
            let i = s1.sending_components[x][c];
            &&& s1.sending.contains_key(i)
            &&& (s1.sending[i].1 == EntityAction::InsertComponent(x, ComponentKind(c))
                || s1.sending[i].1 == EntityAction::RemoveComponent(x, ComponentKind(c)))
        } by {
            if s.sending_components[x][c] == id {
                assert(s.sending[id].1 == EntityAction::SpawnEntity(e) || s.sending[id].1 == EntityAction::DespawnEntity(e));
            }
        }
    }
}

proof fn lemma_erase_component_keeps_tracking<E>(s: ActionState<E>, e: E, k: ComponentKind)
    requires
        tracking_consistent(s),
        erase_component_ok(s, e, k),
    ensures
        tracking_consistent(erase_component(s, e, k)),
        erase_component(s, e, k).sending.dom() == s.sending.dom(),
        erase_component(s, e, k).next_id == s.next_id,
{
    if s.sending_components.contains_key(e) {
        let id = s.sending_components[e][k.0];
        let s1 = erase_component(s, e, k);
        assert(s1.sending.dom() =~= s.sending.dom());
        assert(s.sending[id].1 == EntityAction::InsertComponent(e, ComponentKind(k.0))
            || s.sending[id].1 == EntityAction::RemoveComponent(e, ComponentKind(k.0)));
        assert forall|x: E| #[trigger] s1.sending_entities.contains_key(x) implies {
            let i = s1.sending_entities[x];
            &&& s1.sending.contains_key(i)
            &&& (s1.sending[i].1 == EntityAction::SpawnEntity(x) || s1.sending[i].1 == EntityAction::DespawnEntity(x))
        } by {
            assert(s.sending_entities.contains_key(x));
        }
        assert forall|x: E, c: u16| #[trigger] s1.sending_components.contains_key(x) && #[trigger] s1.sending_components[x].contains_key(c) implies {
            let i = s1.sending_components[x][c];
            &&& s1.sending.contains_key(i)
            &&& (s1.sending[i].1 == EntityAction::InsertComponent(x, ComponentKind(c))
                || s1.sending[i].1 == EntityAction::RemoveComponent(x, ComponentKind(c)))
        } by {
            if x == e {
                assert(s.sending_components[e].contains_key(c));
                assert(c != k.0);
            }
            assert(s.sending_components[x].contains_key(c));
            if s.sending_components[x][c] == id {
                assert(ComponentKind(c) == ComponentKind(k.0) && x == e);
            }
        }
    }
}

/// Comparing an entity keeps the bookkeeping consistent while the next
/// action id is free, and after it the entity's recorded action, if any, is
/// about it and awaiting delivery.
pub proof fn lemma_diff_entity_keeps_tracking<E>(s: ActionState<E>, in_scope: bool, held: bool, e: E)
    requires
        tracking_consistent(s),
        next_id_free(s),
    ensures
        erase_entity_ok(s, e),
        tracking_consistent(diff_entity(s, in_scope, held, e)),
{
    if in_scope == held {
        lemma_erase_entity_keeps_tracking(s, e);
    } else {
        let s0 = ActionState { next_id: next_action_id(s.next_id), ..s };
        lemma_erase_entity_keeps_tracking(s0, e);
        let s1 = erase_entity(s0, e);
        let id = s.next_id;
        let s2 = sync_entity(s, e, in_scope);
        assert(!s1.sending.contains_key(id));
        assert forall|x: E| #[trigger] s2.sending_entities.contains_key(x) implies {
            let i = s2.sending_entities[x];
            &&& s2.sending.contains_key(i)
            &&& (s2.sending[i].1 == EntityAction::SpawnEntity(x) || s2.sending[i].1 == EntityAction::DespawnEntity(x))
        } by {
            if x != e {
                assert(s1.sending_entities.contains_key(x));
            }
        }
        assert forall|x: E, c: u16| #[trigger] s2.sending_components.contains_key(x) && #[trigger] s2.sending_components[x].contains_key(c) implies {
            let i = s2.sending_components[x][c];
            &&& s2.sending.contains_key(i)
            &&& (s2.sending[i].1 == EntityAction::InsertComponent(x, ComponentKind(c))
                || s2.sending[i].1 == EntityAction::RemoveComponent(x, ComponentKind(c)))
        } by {
            assert(s1.sending_components[x].contains_key(c));
        }
    }
}

/// Comparing a component keeps the bookkeeping consistent while the next
/// action id is free, whenever the comparison can be made.
pub proof fn lemma_diff_component_keeps_tracking<E>(s: ActionState<E>, in_scope: bool, held: bool, e: E, k: ComponentKind)
    requires
        tracking_consistent(s),
        next_id_free(s),
        diff_component_ok(s, in_scope, held, e, k),
    ensures
        tracking_consistent(diff_component(s, in_scope, held, e, k)),
{
    if in_scope == held {
        if s.sending_components.contains_key(e) && s.sending_components[e].contains_key(k.0) {
            lemma_erase_component_keeps_tracking(s, e, k);
        }
    } else {
        let s0 = ActionState { next_id: next_action_id(s.next_id), ..s };
        lemma_erase_component_keeps_tracking(s0, e, k);
        let s1 = erase_component(s0, e, k);
        let id = s.next_id;
        let s2 = sync_component(s, e, k, in_scope);
        assert(!s1.sending.contains_key(id));
        assert(ComponentKind(k.0) == k);
        assert forall|x: E| #[trigger] s2.sending_entities.contains_key(x) implies {
            let i = s2.sending_entities[x];
            &&& s2.sending.contains_key(i)
            &&& (s2.sending[i].1 == EntityAction::SpawnEntity(x) || s2.sending[i].1 == EntityAction::DespawnEntity(x))
        } by {
            assert(s1.sending_entities.contains_key(x));
        }
        assert forall|x: E, c: u16| #[trigger] s2.sending_components.contains_key(x) && #[trigger] s2.sending_components[x].contains_key(c) implies {
            let i = s2.sending_components[x][c];
            &&& s2.sending.contains_key(i)
            &&& (s2.sending[i].1 == EntityAction::InsertComponent(x, ComponentKind(c))
                || s2.sending[i].1 == EntityAction::RemoveComponent(x, ComponentKind(c)))
        } by {
            if !(x == e && c == k.0) {
                assert(s1.sending_components.contains_key(x));
                assert(s1.sending_components[x].contains_key(c));
            }
        }
    }
}

} // verus!
