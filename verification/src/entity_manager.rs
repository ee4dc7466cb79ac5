//! Entity replication for one connection: the entity channel, the actions
//! queued for the next packet, the record of which actions each sent packet
//! carried, and the component updates. Encoding actions and updates into
//! bits is the serializer's work; this manager decides what each queued
//! action becomes, which updates are due, and keeps the records.

use std::collections::HashMap;
use std::hash::Hash;

use vstd::prelude::*;
use vstd::std_specs::hash::obeys_key_model;

use crate::diff_mask::{has_bit, mask_set_bit, mask_within, zeros, DiffMask};
use crate::entity_updates::{
    after_cleanup, cleared_after_write, component_due, marked_by_lost, record_after_write, unexpired_records, updates_written,
    EntityUpdates, SentView,
};
use crate::keys::ComponentKind;
use crate::sequence_list::{SequenceList, ids_unique, scan_back_finds, scan_back_stop, first_index_of};
use crate::world_channel::{ActionView, ActionRecord, EntityActionEvent, WorldChannel};

verus! {

broadcast use vstd::std_specs::hash::group_hash_axioms;

/// How long the record of a sent packet's actions is kept, in milliseconds.
pub const ACTION_RECORD_TTL_MS: u64 = 60000;

/// A packet record sent at `sent_ms` has outlived its time to live at `now_ms`.
pub open spec fn record_expired(sent_ms: u64, now_ms: u64) -> bool {
    now_ms >= sent_ms && now_ms - sent_ms > ACTION_RECORD_TTL_MS
}

/// A packet record sent at `sent_ms` has outlived its time to live at
/// `now_ms`, which is later.
pub open spec fn record_expired_strict(sent_ms: u64, now_ms: u64) -> bool {
    now_ms > sent_ms && now_ms - sent_ms > ACTION_RECORD_TTL_MS
}

/// The components `world` gives `e`: its list, or none.
pub open spec fn world_kinds<E>(world: Map<E, Vec<ComponentKind>>, e: E) -> Seq<ComponentKind> {
    if world.contains_key(e) { world[e]@ } else { Seq::empty() }
}

/// What a queued action becomes when written: a spawn carries the entity's
/// components in the world; an insert becomes a no-op when the world no
/// longer has the component or the entity's channel is not spawned; a
/// removal becomes a no-op when the channel is not spawned.
pub open spec fn resolved_action<E>(
    event: EntityActionEvent<E>,
    world: Map<E, Vec<ComponentKind>>,
    channel_open: bool,
) -> ActionView<E> {
    match event {
        EntityActionEvent::SpawnEntity(e) => ActionView::SpawnEntity(e, world_kinds(world, e)),
        EntityActionEvent::DespawnEntity(e) => ActionView::DespawnEntity(e),
        EntityActionEvent::InsertComponent(e, k) =>
            if world.contains_key(e) && world[e]@.contains(k) && channel_open {
                ActionView::InsertComponent(e, k)
            } else {
                ActionView::Noop
            },
        EntityActionEvent::RemoveComponent(e, k) =>
            if channel_open {
                ActionView::RemoveComponent(e, k)
            } else {
                ActionView::Noop
            },
    }
}

/// `written` is what the queued `event` should go out as, given the
/// entities' components in `world` and the client's entity channels: a
/// spawn always goes out, carrying the entity's components (none when the
/// world no longer has it); a despawn always goes out; an insertion goes
/// out when the world still gives the entity that component and its channel
/// is spawned on the client; a removal goes out when its channel is
/// spawned. Otherwise a no-op goes out in its place.
pub open spec fn written_as_meant<E>(
    event: EntityActionEvent<E>,
    world: Map<E, Vec<ComponentKind>>,
    channels: Map<E, crate::world_channel::ChannelView>,
    written: ActionView<E>,
) -> bool {
    match event {
        EntityActionEvent::SpawnEntity(e) => written == ActionView::SpawnEntity(
            e,
            if world.contains_key(e) { world[e]@ } else { Seq::empty() },
        ),
        EntityActionEvent::DespawnEntity(e) => written == ActionView::DespawnEntity(e),
        EntityActionEvent::InsertComponent(e, k) => {
            let open = channels.contains_key(e) && channels[e] is Spawned;
            &&& (open && world.contains_key(e) && world[e]@.contains(k)) ==> written == ActionView::InsertComponent(e, k)
            &&& !(open && world.contains_key(e) && world[e]@.contains(k)) ==> written == ActionView::<E>::Noop
        },
        EntityActionEvent::RemoveComponent(e, k) => {
            let open = channels.contains_key(e) && channels[e] is Spawned;
            &&& open ==> written == ActionView::RemoveComponent(e, k)
            &&& !open ==> written == ActionView::<E>::Noop
        },
    }
}

/// Every queued action is written as it is meant to go out: a removal of
/// `(e, k)` is written as that removal exactly when `e`'s channel is
/// spawned on the client, and as a no-op otherwise; an insertion likewise,
/// when the world also still has the component; spawns and despawns
/// always go out.
pub proof fn lemma_actions_written_as_meant<E>(
    event: EntityActionEvent<E>,
    world: Map<E, Vec<ComponentKind>>,
    channels: Map<E, crate::world_channel::ChannelView>,
)
    ensures
        written_as_meant(
            event,
            world,
            channels,
            resolved_action(event, world, crate::world_channel::is_spawned(channels, event_entity(event))),
        ),
        event matches EntityActionEvent::RemoveComponent(e, k) ==> (resolved_action(
            event,
            world,
            crate::world_channel::is_spawned(channels, e),
        ) == ActionView::<E>::RemoveComponent(e, k) <==> (channels.contains_key(e) && channels[e] is Spawned)),
{
}

/// The entity an action event is about.
pub open spec fn event_entity<E>(event: EntityActionEvent<E>) -> E {
    match event {
        EntityActionEvent::SpawnEntity(e) => e,
        EntityActionEvent::DespawnEntity(e) => e,
        EntityActionEvent::InsertComponent(e, _) => e,
        EntityActionEvent::RemoveComponent(e, _) => e,
    }
}

/// `sent` with an empty record for packet `p` sent at `now_ms` inserted
/// where a scan from the back places it, unless such a scan finds one.
pub open spec fn with_record<E>(sent: Seq<(u16, (u64, Seq<(u16, ActionView<E>)>))>, p: u16, now_ms: u64)
    -> Seq<(u16, (u64, Seq<(u16, ActionView<E>)>))> {
    if scan_back_finds(sent, p) {
        sent
    } else {
        sent.insert(scan_back_stop(sent, p, sent.len() as int) + 1, (p, (now_ms, Seq::empty())))
    }
}

/// The `(action id, action)` pairs written for the first queued actions.
pub open spec fn written_pairs<E>(next: Seq<(u16, EntityActionEvent<E>)>, written: Seq<ActionRecord<E>>)
    -> Seq<(u16, ActionView<E>)> {
    Seq::new(written.len(), |i: int| (next[i].0, written[i]@))
}

/// The value of a packet's action list.
pub open spec fn list_view<E>(l: Vec<(u16, ActionRecord<E>)>) -> Seq<(u16, ActionView<E>)> {
    l@.map_values(|p: (u16, ActionRecord<E>)| (p.0, p.1@))
}

/// The value of a packet record: its packet index, the time it was sent and
/// its actions.
pub open spec fn record_view<E>(r: (u16, (u64, Vec<(u16, ActionRecord<E>)>))) -> (u16, (u64, Seq<(u16, ActionView<E>)>)) {
    (r.0, (r.1.0, list_view(r.1.1)))
}

/// Whether component `key` has an update due: it is watched by the
/// channel, its mask is registered and marks a change.
pub open spec fn update_due<E>(watched: Set<(E, ComponentKind)>, handler: Map<(E, ComponentKind), Seq<u8>>, key: (E, ComponentKind)) -> bool {
    watched.contains(key) && handler.contains_key(key) && !crate::diff_mask::mask_is_clear(handler[key])
}

/// Entity replication state of one connection.
pub struct EntityManager<E: Copy + Eq + Hash> {
    world_channel: WorldChannel<E>,
    next_send_actions: Vec<(u16, EntityActionEvent<E>)>,
    sent_action_packets: SequenceList<(u64, Vec<(u16, ActionRecord<E>)>)>,
    updates: EntityUpdates<E>,
}

impl<E: Copy + Eq + Hash> EntityManager<E> {
    /// The connection's entity channel.
    pub closed spec fn channel(&self) -> WorldChannel<E> {
        self.world_channel
    }

    /// The actions queued for the next packet, with their action ids.
    pub closed spec fn next_actions(&self) -> Seq<(u16, EntityActionEvent<E>)> {
        self.next_send_actions@
    }

    /// The record of sent packets, oldest first.
    pub closed spec fn sent_packets(&self) -> Seq<(u16, (u64, Seq<(u16, ActionView<E>)>))> {
        self.sent_action_packets@.map_values(|r: (u16, (u64, Vec<(u16, ActionRecord<E>)>))| record_view(r))
    }

    /// The component updates: change masks, updates due and the record of
    /// sent updates.
    pub closed spec fn updates(&self) -> EntityUpdates<E> {
        self.updates
    }

    /// The entity channel and the updates are well formed.
    pub open spec fn wf(&self) -> bool {
        &&& self.channel().wf()
        &&& self.updates().wf()
    }

    proof fn lemma_ids_match(&self)
        ensures
            self.sent_packets().len() == self.sent_action_packets@.len(),
            forall|p: u16| #[trigger] scan_back_finds(self.sent_packets(), p) == scan_back_finds(self.sent_action_packets@, p),
            forall|p: u16| #[trigger] scan_back_stop(self.sent_packets(), p, self.sent_packets().len() as int)
                == scan_back_stop(self.sent_action_packets@, p, self.sent_action_packets@.len() as int),
            forall|p: u16| #[trigger] first_index_of(self.sent_packets(), p, 0) == first_index_of(self.sent_action_packets@, p, 0),
    {
        let l1 = self.sent_action_packets@;
        let l2 = self.sent_packets();
        assert forall|i: int| 0 <= i < l1.len() implies #[trigger] l1[i].0 == l2[i].0 by {}
        assert forall|p: u16| #[trigger] scan_back_finds(l2, p) == scan_back_finds(l1, p) by {
            crate::sequence_list::lemma_scan_back_stop_same_ids(l1, l2, p, l1.len() as int);
            crate::sequence_list::lemma_scan_back_stop_range(l1, p, l1.len() as int);
            let k = scan_back_stop(l1, p, l1.len() as int);
            if k >= 0 {
                assert(l1[k].0 == l2[k].0);
            }
        }
        assert forall|p: u16| #[trigger] scan_back_stop(l2, p, l2.len() as int) == scan_back_stop(l1, p, l1.len() as int) by {
            crate::sequence_list::lemma_scan_back_stop_same_ids(l1, l2, p, l1.len() as int);
        }
        assert forall|p: u16| #[trigger] first_index_of(l2, p, 0) == first_index_of(l1, p, 0) by {
            crate::sequence_list::lemma_first_index_same_ids(l1, l2, p, 0);
        }
    }

    /// A manager with an empty channel and no record. The entity type must
    /// hash and compare deterministically.
    pub fn new() -> (r: Self)
        requires
            obeys_key_model::<E>(),
        ensures
            r.wf(),
            r.channel().host() == Map::<E, Set<ComponentKind>>::empty(),
            r.channel().remote() == Map::<E, Set<ComponentKind>>::empty(),
            r.channel().channels().dom() == Set::<E>::empty(),
            r.channel().outgoing() == Seq::<EntityActionEvent<E>>::empty(),
            r.channel().can_open(),
            r.next_actions() == Seq::<(u16, EntityActionEvent<E>)>::empty(),
            r.sent_packets() == Seq::<(u16, (u64, Seq<(u16, ActionView<E>)>))>::empty(),
            r.updates().handler() == Map::<(E, ComponentKind), Seq<u8>>::empty(),
            r.updates().next_updates() == Map::<E, Seq<ComponentKind>>::empty(),
            r.updates().sent() == SentView::<E>::empty(),
    {
        let r = EntityManager {
            world_channel: WorldChannel::new(),
            next_send_actions: Vec::new(),
            sent_action_packets: SequenceList::new(),
            updates: EntityUpdates::new(),
        };
        proof {
            assert(r.sent_packets() =~= Seq::<(u16, (u64, Seq<(u16, ActionView<E>)>))>::empty());
        }
        r
    }

    // World scope

    /// The entity enters this connection's scope.
    pub fn spawn_entity(&mut self, entity: &E)
        requires
            old(self).wf(),
            !old(self).channel().channels().contains_key(*entity) ==> old(self).channel().can_open(),
        ensures
            final(self).wf(),
            final(self).channel().host_spawn_step(old(self).channel(), *entity),
            final(self).next_actions() == old(self).next_actions(),
            final(self).sent_packets() == old(self).sent_packets(),
            final(self).updates() == old(self).updates(),
    {
        self.world_channel.host_spawn_entity(entity);
    }

    /// The entity leaves this connection's scope.
    pub fn despawn_entity(&mut self, entity: &E)
        requires
            old(self).wf(),
        ensures
            final(self).wf(),
            final(self).channel().host_despawn_step(old(self).channel(), *entity),
            final(self).next_actions() == old(self).next_actions(),
            final(self).sent_packets() == old(self).sent_packets(),
            final(self).updates() == old(self).updates(),
    {
        self.world_channel.host_despawn_entity(entity);
    }

    /// A component is added to an entity in scope.
    pub fn insert_component(&mut self, entity: &E, component: &ComponentKind)
        requires
            old(self).wf(),
            old(self).channel().host().contains_key(*entity),
        ensures
            final(self).wf(),
            final(self).channel().host_insert_step(old(self).channel(), *entity, *component),
            final(self).next_actions() == old(self).next_actions(),
            final(self).sent_packets() == old(self).sent_packets(),
            final(self).updates() == old(self).updates(),
    {
        self.world_channel.host_insert_component(entity, component);
    }

    /// A component is removed from an entity in scope.
    pub fn remove_component(&mut self, entity: &E, component: &ComponentKind)
        requires
            old(self).wf(),
            old(self).channel().host().contains_key(*entity),
        ensures
            final(self).wf(),
            final(self).channel().host_remove_step(old(self).channel(), *entity, *component),
            final(self).next_actions() == old(self).next_actions(),
            final(self).sent_packets() == old(self).sent_packets(),
            final(self).updates() == old(self).updates(),
    {
        self.world_channel.host_remove_component(entity, component);
    }

    /// Whether `entity` is in this connection's scope.
    pub fn scope_has_entity(&self, entity: &E) -> (r: bool)
        requires
            self.wf(),
        ensures
            r == self.channel().host().contains_key(*entity),
    {
        self.world_channel.host_has_entity(entity)
    }

    /// Whether `entity`'s channel is spawned.
    pub fn entity_channel_is_open(&self, entity: &E) -> (r: bool)
        requires
            self.wf(),
        ensures
            r == (self.channel().channels().contains_key(*entity) && self.channel().channels()[*entity] is Spawned),
    {
        self.world_channel.entity_channel_is_open(entity)
    }

    /// Whether any action or update waits for the next packet.
    pub fn has_outgoing_messages(&self) -> (r: bool)
        requires
            self.wf(),
        ensures
            r == (self.next_actions().len() > 0 || self.updates().next_updates().dom().len() > 0),
    {
        self.next_send_actions.len() > 0 || self.updates.has_outgoing_updates()
    }

    /// Queues `actions`, the channel's actions due for sending, for the next
    /// packet in place of what was queued.
    pub fn collect_next_actions(&mut self, actions: Vec<(u16, EntityActionEvent<E>)>)
        ensures
            final(self).next_actions() == actions@,
            final(self).channel() == old(self).channel(),
            final(self).sent_packets() == old(self).sent_packets(),
            final(self).updates() == old(self).updates(),
    {
        self.next_send_actions = actions;
    }

    /// Drops the oldest packet records while they have outlived their time
    /// to live at `now_ms`.
    pub fn collect_dropped_action_packets(&mut self, now_ms: u64)
        ensures
            final(self).channel() == old(self).channel(),
            final(self).next_actions() == old(self).next_actions(),
            final(self).updates() == old(self).updates(),
            exists|k: int| {
                &&& 0 <= k <= old(self).sent_packets().len()
                &&& final(self).sent_packets() == old(self).sent_packets().skip(k)
                &&& forall|j: int| 0 <= j < k ==> record_expired(#[trigger] old(self).sent_packets()[j].1.0, now_ms)
                &&& k < old(self).sent_packets().len() ==> !record_expired(old(self).sent_packets()[k].1.0, now_ms)
            },
    {
        let ghost s0 = self.sent_packets();
        let ghost mut k: int = 0;
        loop
            invariant_except_break
                0 <= k <= s0.len(),
                self.sent_packets() == s0.skip(k),
                forall|j: int| 0 <= j < k ==> record_expired(#[trigger] s0[j].1.0, now_ms),
                self.world_channel == old(self).world_channel,
                self.next_send_actions == old(self).next_send_actions,
                self.updates == old(self).updates,
                s0 == old(self).sent_packets(),
            ensures
                self.updates == old(self).updates,
                0 <= k <= s0.len(),
                self.sent_packets() == s0.skip(k),
                forall|j: int| 0 <= j < k ==> record_expired(#[trigger] s0[j].1.0, now_ms),
                k < s0.len() ==> !record_expired(s0[k].1.0, now_ms),
                self.world_channel == old(self).world_channel,
                self.next_send_actions == old(self).next_send_actions,
                s0 == old(self).sent_packets(),
            decreases s0.len() - k,
        {
            proof {
                if self.sent_action_packets@.len() > 0 {
                    assert(self.sent_packets()[0] == record_view(self.sent_action_packets@[0]));
                }
                assert(self.sent_packets().len() == self.sent_action_packets@.len());
                if k < s0.len() {
                    assert(s0.skip(k)[0] == s0[k]);
                }
            }
            let expired = match self.sent_action_packets.front() {
                Some(entry) => now_ms >= entry.1.0 && now_ms - entry.1.0 > ACTION_RECORD_TTL_MS,
                None => false,
            };
            if !expired {
                proof {
                    if k < s0.len() {
                        assert(self.sent_packets()[0] == s0[k]);
                    }
                }
                break;
            }
            let ghost before = self.sent_action_packets@;
            let ghost prev = self.sent_packets();
            self.sent_action_packets.pop_front();
            proof {
                assert(self.sent_packets() =~= s0.skip(k + 1)) by {
                    assert(self.sent_action_packets@ == before.subrange(1, before.len() as int));
                    assert forall|i: int| 0 <= i < self.sent_packets().len() implies self.sent_packets()[i] == s0.skip(k + 1)[i] by {
                        assert(self.sent_packets()[i] == record_view(before[i + 1]));
                        assert(prev[i + 1] == record_view(before[i + 1]));
                        assert(prev[i + 1] == s0[k + i + 1]);
                    }
                }
                k = k + 1;
            }
        }
        proof {
            assert(exists|k2: int| {
                &&& 0 <= k2 <= s0.len()
                &&& self.sent_packets() == s0.skip(k2)
                &&& forall|j: int| 0 <= j < k2 ==> record_expired(#[trigger] s0[j].1.0, now_ms)
                &&& k2 < s0.len() ==> !record_expired(s0[k2].1.0, now_ms)
            }) by {
                assert(0 <= k <= s0.len());
            }
        }
    }

    /// Adds `(action_id, action)` to the record of packet `packet_index`,
    /// which must be in the record.
    fn record_action_written(&mut self, packet_index: u16, action_id: u16, action: ActionRecord<E>)
        requires
            scan_back_finds(old(self).sent_action_packets@, packet_index),
        ensures
            final(self).world_channel == old(self).world_channel,
            final(self).next_send_actions == old(self).next_send_actions,
            final(self).updates == old(self).updates,
            ({
                let k = crate::sequence_list::scan_back_stop(
                    old(self).sent_action_packets@, packet_index, old(self).sent_action_packets@.len() as int);
                let r = old(self).sent_packets()[k];
                final(self).sent_packets() == old(self).sent_packets().update(
                    k, (r.0, (r.1.0, r.1.1.push((action_id, action@)))))
            }),
            scan_back_finds(final(self).sent_action_packets@, packet_index),
    {
        let ghost l0 = self.sent_action_packets@;
        let entry = self.sent_action_packets.get_mut_scan_from_back(&packet_index);
        match entry {
            Some(record) => {
                let ghost v0 = record.1@;
                record.1.push((action_id, action));
                proof {
                    assert(list_view(record.1) =~= list_view_of(v0).push((action_id, action@)));
                }
            },
            None => {},
        }
        proof {
            let k = crate::sequence_list::scan_back_stop(l0, packet_index, l0.len() as int);
            crate::sequence_list::lemma_scan_back_stop_range(l0, packet_index, l0.len() as int);
            assert(self.sent_packets() =~= old(self).sent_packets().update(
                k, (old(self).sent_packets()[k].0, (old(self).sent_packets()[k].1.0,
                old(self).sent_packets()[k].1.1.push((action_id, action@))))));
            crate::sequence_list::lemma_scan_back_finds_same_ids(l0, self.sent_action_packets@, packet_index);
        }
    }

    /// Resolves the queued action at `index` against `world` (each entity's
    /// components) and, when `is_writing`, records it in the record of
    /// packet `packet_index`, which must be in the record. Returns the
    /// action to encode.
    pub fn write_action(
        &mut self,
        world: &HashMap<E, Vec<ComponentKind>>,
        packet_index: u16,
        index: usize,
        is_writing: bool,
    ) -> (r: ActionRecord<E>)
        requires
            old(self).wf(),
            index < old(self).next_actions().len(),
            is_writing ==> scan_back_finds(old(self).sent_packets(), packet_index),
        ensures
            final(self).wf(),
            final(self).channel() == old(self).channel(),
            final(self).updates() == old(self).updates(),
            final(self).next_actions() == old(self).next_actions(),
            r@ == resolved_action(old(self).next_actions()[index as int].1, world@,
                crate::world_channel::is_spawned(old(self).channel().channels(), event_entity(old(self).next_actions()[index as int].1))),
            written_as_meant(old(self).next_actions()[index as int].1, world@, old(self).channel().channels(), r@),
            !is_writing ==> final(self).sent_packets() == old(self).sent_packets(),
            is_writing ==> ({
                let k = scan_back_stop(old(self).sent_packets(), packet_index, old(self).sent_packets().len() as int);
                let rec = old(self).sent_packets()[k];
                final(self).sent_packets() == old(self).sent_packets().update(
                    k, (rec.0, (rec.1.0, rec.1.1.push((old(self).next_actions()[index as int].0, r@)))))
            }),
            is_writing ==> scan_back_finds(final(self).sent_packets(), packet_index),
    {
        proof {
            self.lemma_ids_match();
        }
        let (action_id, event) = self.next_send_actions[index];
        proof {
            self.world_channel.lemma_wf_agrees(event_entity(event));
        }
        let action = match event {
            EntityActionEvent::SpawnEntity(e) => {
                let kinds = match world.get(&e) {
                    Some(v) => v.clone(),
                    None => Vec::new(),
                };
                ActionRecord::SpawnEntity(e, kinds)
            },
            EntityActionEvent::DespawnEntity(e) => ActionRecord::DespawnEntity(e),
            EntityActionEvent::InsertComponent(e, k) => {
                let has = match world.get(&e) {
                    Some(v) => contains_kind(v, &k),
                    None => false,
                };
                if has && self.world_channel.entity_channel_is_open(&e) {
                    ActionRecord::InsertComponent(e, k)
                } else {
                    ActionRecord::Noop
                }
            },
            EntityActionEvent::RemoveComponent(e, k) => {
                if self.world_channel.entity_channel_is_open(&e) {
                    ActionRecord::RemoveComponent(e, k)
                } else {
                    ActionRecord::Noop
                }
            },
        };
        if is_writing {
            let record = action.duplicate();
            self.record_action_written(packet_index, action_id, record);
        }
        proof {
            self.lemma_ids_match();
        }
        action
    }

    /// Records and dequeues the first `message_count` queued actions, which
    /// the serializer found to fit into packet `packet_index` sent at
    /// `now_ms`; the packet gets a record first if it has none. Returns the
    /// actions to encode, in order.
    pub fn write_actions(
        &mut self,
        world: &HashMap<E, Vec<ComponentKind>>,
        now_ms: u64,
        packet_index: u16,
        message_count: usize,
    ) -> (r: Vec<ActionRecord<E>>)
        requires
            old(self).wf(),
            message_count <= old(self).next_actions().len(),
        ensures
            final(self).wf(),
            final(self).channel() == old(self).channel(),
            final(self).updates() == old(self).updates(),
            final(self).next_actions() == old(self).next_actions().skip(message_count as int),
            r@.len() == message_count,
            forall|i: int| 0 <= i < message_count ==> (#[trigger] r@[i])@ == resolved_action(
                old(self).next_actions()[i].1, world@,
                crate::world_channel::is_spawned(old(self).channel().channels(), event_entity(old(self).next_actions()[i].1))),
            forall|i: int| 0 <= i < message_count ==> written_as_meant(
                old(self).next_actions()[i].1, world@, old(self).channel().channels(), (#[trigger] r@[i])@),
            scan_back_finds(final(self).sent_packets(), packet_index),
            ({
                let base = with_record(old(self).sent_packets(), packet_index, now_ms);
                let k = scan_back_stop(base, packet_index, base.len() as int);
                final(self).sent_packets() == base.update(k, (base[k].0, (base[k].1.0,
                    base[k].1.1 + written_pairs(old(self).next_actions(), r@))))
            }),
            ids_unique(final(self).sent_packets()) ==> ({
                let base = with_record(old(self).sent_packets(), packet_index, now_ms);
                let k = scan_back_stop(base, packet_index, base.len() as int);
                final(self).sent_packets()[first_index_of(final(self).sent_packets(), packet_index, 0)].1.1
                    == base[k].1.1 + written_pairs(old(self).next_actions(), r@)
            }),
    {
        proof {
            self.lemma_ids_match();
        }
        if !self.sent_action_packets.contains_scan_from_back(&packet_index) {
            let fresh: (u64, Vec<(u16, ActionRecord<E>)>) = (now_ms, Vec::new());
            let ghost g = fresh;
            self.sent_action_packets.insert_scan_from_back(packet_index, fresh);
            proof {
                crate::sequence_list::lemma_insert_then_finds(old(self).sent_action_packets@, packet_index, g);
                let l0 = old(self).sent_action_packets@;
                let at = scan_back_stop(l0, packet_index, l0.len() as int) + 1;
                crate::sequence_list::lemma_scan_back_stop_range(l0, packet_index, l0.len() as int);
                assert(self.sent_packets() =~= old(self).sent_packets().insert(at, (packet_index, (now_ms, Seq::empty())))) by {
                    assert(record_view((packet_index, g)) == (packet_index, (now_ms, Seq::<(u16, ActionView<E>)>::empty()))) by {
                        assert(list_view(g.1) =~= Seq::<(u16, ActionView<E>)>::empty());
                    }
                }
            }
        }
        let ghost base = self.sent_packets();
        proof {
            self.lemma_ids_match();
            assert(base == with_record(old(self).sent_packets(), packet_index, now_ms));
            crate::sequence_list::lemma_scan_back_stop_range(base, packet_index, base.len() as int);
        }
        let ghost k = scan_back_stop(base, packet_index, base.len() as int);
        proof {
            self.lemma_ids_match();
        }
        let mut out: Vec<ActionRecord<E>> = Vec::new();
        let mut i: usize = 0;
        while i < message_count
            invariant
                self.wf(),
                self.channel() == old(self).channel(),
                self.updates() == old(self).updates(),
                self.next_actions() == old(self).next_actions(),
                message_count <= self.next_send_actions@.len(),
                i <= message_count,
                out@.len() == i,
                forall|j: int| 0 <= j < i ==> (#[trigger] out@[j])@ == resolved_action(
                    old(self).next_actions()[j].1, world@,
                    crate::world_channel::is_spawned(old(self).channel().channels(), event_entity(old(self).next_actions()[j].1))),
                scan_back_finds(self.sent_packets(), packet_index),
                0 <= k < base.len(),
                k == scan_back_stop(base, packet_index, base.len() as int),
                base[k].0 == packet_index,
                self.sent_packets() == base.update(k, (base[k].0, (base[k].1.0,
                    base[k].1.1 + written_pairs(old(self).next_actions(), out@)))),
            decreases message_count - i,
        {
            let ghost before = self.sent_packets();
            proof {
                assert(before.len() == base.len());
                assert forall|j: int| 0 <= j < base.len() implies #[trigger] base[j].0 == before[j].0 by {
                    if j != k {
                        assert(before[j] == base[j]);
                    }
                }
                crate::sequence_list::lemma_scan_back_stop_same_ids(base, before, packet_index, base.len() as int);
            }
            let a = self.write_action(world, packet_index, i, true);
            let ghost av = a@;
            out.push(a);
            proof {
                let w0 = written_pairs(old(self).next_actions(), out@.drop_last());
                assert(out@.drop_last() =~= out@.take(i as int));
                assert(written_pairs(old(self).next_actions(), out@) =~= w0.push((old(self).next_actions()[i as int].0, av)));
                assert(base[k].1.1 + w0.push((old(self).next_actions()[i as int].0, av))
                    =~= (base[k].1.1 + w0).push((old(self).next_actions()[i as int].0, av)));
                assert(before[k] == (base[k].0, (base[k].1.0, base[k].1.1 + w0)));
                let newrec = (base[k].0, (base[k].1.0, base[k].1.1 + written_pairs(old(self).next_actions(), out@)));
                assert(scan_back_stop(before, packet_index, before.len() as int) == k);
                assert(self.sent_packets() == before.update(k, newrec));
                assert(before.update(k, newrec) =~= base.update(k, newrec));
                assert(self.sent_packets() =~= base.update(k, (base[k].0, (base[k].1.0,
                    base[k].1.1 + written_pairs(old(self).next_actions(), out@)))));
            }
            i += 1;
        }
        proof {
            let fin = self.sent_packets();
            if ids_unique(fin) {
                assert forall|j: int| 0 <= j < base.len() implies #[trigger] base[j].0 == fin[j].0 by {
                    if j != k {
                        assert(fin[j] == base[j]);
                    }
                }
                crate::sequence_list::lemma_scan_back_stop_same_ids(base, fin, packet_index, base.len() as int);
                crate::sequence_list::lemma_unique_id_found_from_both_ends(fin, packet_index);
            }
        }
        let mut rest: Vec<(u16, EntityActionEvent<E>)> = Vec::new();
        let mut j: usize = message_count;
        while j < self.next_send_actions.len()
            invariant
                message_count <= j <= self.next_send_actions@.len(),
                rest@ == self.next_send_actions@.subrange(message_count as int, j as int),
            decreases self.next_send_actions@.len() - j,
        {
            rest.push(self.next_send_actions[j]);
            proof {
                assert(self.next_send_actions@.subrange(message_count as int, j + 1)
                    =~= self.next_send_actions@.subrange(message_count as int, j as int).push(self.next_send_actions@[j as int]));
            }
            j += 1;
        }
        self.next_send_actions = rest;
        proof {
            assert(self.next_send_actions@ =~= old(self).next_actions().skip(message_count as int));
        }
        out
    }

    /// Removes the records of delivered packet `packet_index`, if any: the
    /// updates it carried are forgotten, and its actions are returned for
    /// the channel to apply, in the order written.
    pub fn notify_packet_delivered(&mut self, packet_index: u16) -> (r: Vec<(u16, ActionRecord<E>)>)
        requires
            old(self).wf(),
        ensures
            final(self).wf(),
            final(self).updates().sent() == old(self).updates().sent().remove(packet_index),
            final(self).updates().handler() == old(self).updates().handler(),
            final(self).updates().next_updates() == old(self).updates().next_updates(),
            final(self).updates().last_index() == old(self).updates().last_index(),
            final(self).channel() == old(self).channel(),
            final(self).next_actions() == old(self).next_actions(),
            first_index_of(old(self).sent_packets(), packet_index, 0) == -1 ==> {
                &&& r@.len() == 0
                &&& final(self).sent_packets() == old(self).sent_packets()
            },
            first_index_of(old(self).sent_packets(), packet_index, 0) != -1 ==> ({
                let k = first_index_of(old(self).sent_packets(), packet_index, 0);
                &&& list_view(r) == old(self).sent_packets()[k].1.1
                &&& final(self).sent_packets() == old(self).sent_packets().remove(k)
            }),
    {
        proof {
            self.lemma_ids_match();
        }
        self.updates.notify_update_delivered(packet_index);
        let removed = self.sent_action_packets.remove_scan_from_front(&packet_index);
        proof {
            let k = first_index_of(old(self).sent_action_packets@, packet_index, 0);
            if k != -1 {
                crate::sequence_list::lemma_first_index_range(old(self).sent_action_packets@, packet_index, 0);
                assert(self.sent_packets() =~= old(self).sent_packets().remove(k));
            }
        }
        match removed {
            Some(record) => record.1,
            None => Vec::new(),
        }
    }

    /// Applies an action the client acknowledged to the channel, when it
    /// fits the channel's current state; returns whether it did. Handing in
    /// the acknowledged actions in action-id order is the caller's part.
    pub fn apply_delivered_action(&mut self, action: &ActionRecord<E>) -> (r: bool)
        requires
            old(self).wf(),
        ensures
            final(self).wf(),
            r == old(self).channel().can_apply(action@),
            r ==> final(self).channel().apply_step(old(self).channel(), action@),
            !r ==> final(self).channel() == old(self).channel(),
            final(self).next_actions() == old(self).next_actions(),
            final(self).sent_packets() == old(self).sent_packets(),
            final(self).updates() == old(self).updates(),
    {
        if self.world_channel.action_applies(action) {
            self.world_channel.apply_delivered_action(action);
            true
        } else {
            false
        }
    }

    // Updates

    /// Component `kind` of `entity` has its channel open for updates:
    /// changes to it are tracked with a clear mask of `diff_mask_length`
    /// bytes (a component already tracked keeps its mask).
    pub fn register_component(&mut self, entity: &E, kind: &ComponentKind, diff_mask_length: u8)
        requires
            old(self).wf(),
        ensures
            final(self).wf(),
            final(self).updates().handler() == if old(self).updates().handler().contains_key((*entity, *kind)) {
                old(self).updates().handler()
            } else {
                old(self).updates().handler().insert((*entity, *kind), zeros(diff_mask_length as nat))
            },
            final(self).updates().next_updates() == old(self).updates().next_updates(),
            final(self).updates().sent() == old(self).updates().sent(),
            final(self).updates().last_index() == old(self).updates().last_index(),
            final(self).channel() == old(self).channel(),
            final(self).next_actions() == old(self).next_actions(),
            final(self).sent_packets() == old(self).sent_packets(),
    {
        self.updates.register_component(entity, kind, diff_mask_length);
    }

    /// Changes to component `kind` of `entity` are no longer tracked (its
    /// channel is closing).
    pub fn deregister_component(&mut self, entity: &E, kind: &ComponentKind)
        requires
            old(self).wf(),
        ensures
            final(self).wf(),
            final(self).updates().handler() == old(self).updates().handler().remove((*entity, *kind)),
            final(self).updates().next_updates() == old(self).updates().next_updates(),
            final(self).updates().sent() == old(self).updates().sent(),
            final(self).updates().last_index() == old(self).updates().last_index(),
            final(self).channel() == old(self).channel(),
            final(self).next_actions() == old(self).next_actions(),
            final(self).sent_packets() == old(self).sent_packets(),
    {
        self.updates.deregister_component(entity, kind);
    }

    /// Property `index` of component `kind` of `entity` changed: it is
    /// marked if the component is tracked.
    pub fn mutate(&mut self, entity: &E, kind: &ComponentKind, index: u8)
        requires
            old(self).wf(),
        ensures
            final(self).wf(),
            final(self).updates().handler() == if old(self).updates().handler().contains_key((*entity, *kind)) {
                old(self).updates().handler().insert(
                    (*entity, *kind),
                    mask_set_bit(old(self).updates().handler()[(*entity, *kind)], index, true),
                )
            } else {
                old(self).updates().handler()
            },
            final(self).updates().next_updates() == old(self).updates().next_updates(),
            final(self).updates().sent() == old(self).updates().sent(),
            final(self).updates().last_index() == old(self).updates().last_index(),
            final(self).channel() == old(self).channel(),
            final(self).next_actions() == old(self).next_actions(),
            final(self).sent_packets() == old(self).sent_packets(),
    {
        self.updates.mutate(entity, kind, index);
    }

    /// Finds the updates due: every component the channel watches whose
    /// mask marks a change, grouped by entity, in place of what was due.
    pub fn collect_component_updates(&mut self)
        requires
            old(self).wf(),
        ensures
            final(self).wf(),
            forall|e: E| #[trigger] final(self).updates().next_updates().contains_key(e)
                <==> exists|k: ComponentKind| #[trigger] update_due(old(self).channel().watched(), old(self).updates().handler(), (e, k)),
            forall|e: E, k: ComponentKind|
                #![trigger final(self).updates().next_updates()[e].contains(k)]
                final(self).updates().next_updates().contains_key(e)
                ==> (final(self).updates().next_updates()[e].contains(k)
                    <==> update_due(old(self).channel().watched(), old(self).updates().handler(), (e, k))),
            final(self).updates().handler() == old(self).updates().handler(),
            final(self).updates().sent() == old(self).updates().sent(),
            final(self).updates().last_index() == old(self).updates().last_index(),
            final(self).channel() == old(self).channel(),
            final(self).next_actions() == old(self).next_actions(),
            final(self).sent_packets() == old(self).sent_packets(),
    {
        let watched = self.world_channel.watched_components();
        let ghost h = self.updates().handler();
        let ghost w = self.channel().watched();
        self.updates.collect_component_updates(&watched);
        proof {
            assert forall|key: (E, ComponentKind)| component_due(watched@, h, key) == update_due(w, h, key) by {
                assert(watched@.to_set().contains(key) == watched@.contains(key));
            }
            assert forall|e: E| #[trigger] self.updates().next_updates().contains_key(e)
                <==> exists|k: ComponentKind| #[trigger] update_due(w, h, (e, k)) by {
                if self.updates().next_updates().contains_key(e) {
                    let k = choose|k: ComponentKind| #[trigger] component_due(watched@, h, (e, k));
                    assert(update_due(w, h, (e, k)));
                }
                if exists|k: ComponentKind| #[trigger] update_due(w, h, (e, k)) {
                    let k = choose|k: ComponentKind| #[trigger] update_due(w, h, (e, k));
                    assert(component_due(watched@, h, (e, k)));
                }
            }
        }
    }

    /// The entities with updates due, each once, in no particular order:
    /// the order an update packet is filled in.
    pub fn update_entities(&self) -> (r: Vec<E>)
        requires
            self.wf(),
        ensures
            r@.to_set() == self.updates().next_updates().dom(),
            r@.no_duplicates(),
    {
        self.updates.update_entities()
    }

    /// Writes the updates of `entities` into packet `packet_index`, as
    /// [`EntityUpdates::write_updates`] does, and hands back, for each, the
    /// components to encode with the masks sent. Each entity's net entity
    /// key is [`Self::entity_to_net_entity`].
    pub fn write_updates(&mut self, now_ms: u64, packet_index: u16, entities: &Vec<E>) -> (r: Vec<(E, Vec<(ComponentKind, DiffMask)>)>)
        requires
            old(self).wf(),
            entities@.no_duplicates(),
            forall|x: E| #[trigger] entities@.contains(x) ==> old(self).updates().next_updates().contains_key(x),
            forall|x: E, k: ComponentKind| #[trigger] entities@.contains(x) && old(self).updates().next_updates()[x].contains(k)
                ==> #[trigger] old(self).updates().handler().contains_key((x, k)),
        ensures
            final(self).wf(),
            updates_written(r@, entities@, old(self).updates().next_updates(), old(self).updates().handler()),
            final(self).updates().next_updates() == old(self).updates().next_updates().remove_keys(entities@.to_set()),
            final(self).updates().handler() == cleared_after_write(old(self).updates().handler(), entities@.to_set(),
                old(self).updates().next_updates()),
            final(self).updates().sent() == old(self).updates().sent().insert(packet_index, (
                if old(self).updates().sent().contains_key(packet_index) { old(self).updates().sent()[packet_index].0 } else { now_ms },
                record_after_write(
                    if old(self).updates().sent().contains_key(packet_index) {
                        old(self).updates().sent()[packet_index].1
                    } else {
                        Map::empty()
                    },
                    old(self).updates().handler(),
                    entities@.to_set(),
                    old(self).updates().next_updates(),
                ),
            )),
            final(self).updates().last_index() == if exists|i: int| 0 <= i < entities@.len()
                && #[trigger] old(self).updates().next_updates()[entities@[i]].len() > 0 {
                packet_index
            } else {
                old(self).updates().last_index()
            },
            final(self).channel() == old(self).channel(),
            final(self).next_actions() == old(self).next_actions(),
            final(self).sent_packets() == old(self).sent_packets(),
    {
        self.updates.write_updates(now_ms, packet_index, entities)
    }

    /// Cleans up every update packet lost at `now_ms` (sent more than
    /// `drop_after_ms` before), as [`EntityUpdates::collect_dropped_update_packets`]
    /// does.
    pub fn collect_dropped_update_packets(&mut self, now_ms: u64, drop_after_ms: u64)
        requires
            old(self).wf(),
        ensures
            final(self).wf(),
            final(self).updates().sent() == unexpired_records(old(self).updates().sent(), now_ms, drop_after_ms),
            final(self).updates().handler().dom() == old(self).updates().handler().dom(),
            forall|key: (E, ComponentKind)| #[trigger] old(self).updates().handler().contains_key(key)
                ==> mask_within(old(self).updates().handler()[key], final(self).updates().handler()[key]),
            forall|key: (E, ComponentKind), i: int, b: u8|
                old(self).updates().handler().contains_key(key) && 0 <= i < final(self).updates().handler()[key].len() && b < 8
                && #[trigger] has_bit(final(self).updates().handler()[key], i, b)
                ==> has_bit(old(self).updates().handler()[key], i, b)
                    || marked_by_lost(old(self).updates().sent(), now_ms, drop_after_ms, key, i, b),
            final(self).updates().next_updates() == old(self).updates().next_updates(),
            final(self).updates().last_index() == old(self).updates().last_index(),
            final(self).channel() == old(self).channel(),
            final(self).next_actions() == old(self).next_actions(),
            final(self).sent_packets() == old(self).sent_packets(),
    {
        self.updates.collect_dropped_update_packets(now_ms, drop_after_ms);
    }

    /// Update packet `dropped` was lost: its changes that no later packet
    /// carried are marked again, as [`EntityUpdates::dropped_update_cleanup`]
    /// does.
    pub fn dropped_update_cleanup(&mut self, dropped: u16)
        requires
            old(self).wf(),
        ensures
            final(self).wf(),
            final(self).updates().sent() == old(self).updates().sent().remove(dropped),
            final(self).updates().handler() == after_cleanup(old(self).updates().handler(), old(self).updates().sent(),
                dropped, old(self).updates().last_index()),
            final(self).updates().next_updates() == old(self).updates().next_updates(),
            final(self).updates().last_index() == old(self).updates().last_index(),
            final(self).channel() == old(self).channel(),
            final(self).next_actions() == old(self).next_actions(),
            final(self).sent_packets() == old(self).sent_packets(),
    {
        self.updates.dropped_update_cleanup(dropped);
    }

    /// The net entity key of `entity`, which must have a channel.
    pub fn entity_to_net_entity(&self, entity: &E) -> (r: u16)
        requires
            self.wf(),
            self.channel().to_net().contains_key(*entity),
        ensures
            r == self.channel().to_net()[*entity],
    {
        self.world_channel.entity_to_net_entity(entity).unwrap()
    }

    /// The entity named by `net_entity`, which must name one.
    pub fn net_entity_to_entity(&self, net_entity: &u16) -> (r: E)
        requires
            self.wf(),
            self.channel().from_net().contains_key(*net_entity),
        ensures
            r == self.channel().from_net()[*net_entity],
    {
        self.world_channel.net_entity_to_entity(net_entity).unwrap()
    }
}

/// The value of an action list given by its sequence.
pub open spec fn list_view_of<E>(l: Seq<(u16, ActionRecord<E>)>) -> Seq<(u16, ActionView<E>)> {
    l.map_values(|p: (u16, ActionRecord<E>)| (p.0, p.1@))
}

/// Whether `kinds` lists `kind`.
pub fn contains_kind(kinds: &Vec<ComponentKind>, kind: &ComponentKind) -> (r: bool)
    ensures
        r == kinds@.contains(*kind),
{
    let mut i: usize = 0;
    while i < kinds.len()
        invariant
            i <= kinds@.len(),
            forall|j: int| 0 <= j < i ==> kinds@[j] != *kind,
        decreases kinds@.len() - i,
    {
        if kinds[i] == *kind {
            proof {
                assert(kinds@[i as int] == *kind);
            }
            return true;
        }
        i += 1;
    }
    false
}

} // verus!
