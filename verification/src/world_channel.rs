//! The per-connection entity channel: what the server holds for a client
//! (the host world), what the client has acknowledged (the remote world),
//! and the state of each entity's and component's replication between them.

use std::collections::{HashMap, HashSet, VecDeque};
use std::hash::Hash;

use vstd::prelude::*;
use vstd::std_specs::hash::obeys_key_model;

use crate::keys::ComponentKind;
use crate::kinds::{kind_pairs, pairs_of, KindSet, other_kind};
use crate::maps::keys_of;

verus! {

broadcast use vstd::std_specs::hash::group_hash_axioms;

/// Replication state of one component of a spawned entity.
#[derive(Clone, Copy, PartialEq, Eq, Debug, Structural)]
pub enum ComponentChannel {
    /// An insert was sent and is not acknowledged yet.
    Inserting,
    /// Both sides have the component.
    Inserted,
    /// A removal was sent and is not acknowledged yet.
    Removing,
}

/// Whether an entity's local copy is being created, exists, or is being deleted.
#[derive(Debug, PartialEq, Clone, Copy, Structural)]
pub enum LocalityStatus {
    Creating,
    Created,
    Deleting,
}

/// An entity action sent to the client.
#[derive(Clone, Copy, PartialEq, Eq, Debug, Structural)]
pub enum EntityActionEvent<E> {
    SpawnEntity(E),
    DespawnEntity(E),
    InsertComponent(E, ComponentKind),
    RemoveComponent(E, ComponentKind),
}

/// The record of an entity action as written into a packet, handed back
/// once the packet is delivered. A spawn carries the components the entity
/// had.
pub enum ActionRecord<E> {
    SpawnEntity(E, Vec<ComponentKind>),
    DespawnEntity(E),
    InsertComponent(E, ComponentKind),
    RemoveComponent(E, ComponentKind),
    Noop,
}

/// The mathematical value of an [`ActionRecord`].
pub enum ActionView<E> {
    SpawnEntity(E, Seq<ComponentKind>),
    DespawnEntity(E),
    InsertComponent(E, ComponentKind),
    RemoveComponent(E, ComponentKind),
    Noop,
}

impl<E> View for ActionRecord<E> {
    type V = ActionView<E>;

    open spec fn view(&self) -> ActionView<E> {
        match self {
            ActionRecord::SpawnEntity(e, ks) => ActionView::SpawnEntity(*e, ks@),
            ActionRecord::DespawnEntity(e) => ActionView::DespawnEntity(*e),
            ActionRecord::InsertComponent(e, k) => ActionView::InsertComponent(*e, *k),
            ActionRecord::RemoveComponent(e, k) => ActionView::RemoveComponent(*e, *k),
            ActionRecord::Noop => ActionView::Noop,
        }
    }
}

impl<E: Copy> ActionRecord<E> {
    /// A copy of the action.
    pub fn duplicate(&self) -> (r: Self)
        ensures
            r@ == self@,
    {
        match self {
            ActionRecord::SpawnEntity(e, ks) => ActionRecord::SpawnEntity(*e, ks.clone()),
            ActionRecord::DespawnEntity(e) => ActionRecord::DespawnEntity(*e),
            ActionRecord::InsertComponent(e, k) => ActionRecord::InsertComponent(*e, *k),
            ActionRecord::RemoveComponent(e, k) => ActionRecord::RemoveComponent(*e, *k),
            ActionRecord::Noop => ActionRecord::Noop,
        }
    }
}

/// Replication state of one entity.
pub enum EntityChannel {
    /// A spawn was sent and is not acknowledged yet.
    Spawning,
    /// Both sides have the entity; each component has its own state, keyed
    /// by the component kind's number.
    Spawned(HashMap<u16, ComponentChannel>),
    /// A despawn was sent and is not acknowledged yet.
    Despawning,
}

/// The mathematical value of an [`EntityChannel`].
pub enum ChannelView {
    Spawning,
    Spawned(Map<u16, ComponentChannel>),
    Despawning,
}

impl View for EntityChannel {
    type V = ChannelView;

    open spec fn view(&self) -> ChannelView {
        match self {
            EntityChannel::Spawning => ChannelView::Spawning,
            EntityChannel::Spawned(m) => ChannelView::Spawned(m@),
            EntityChannel::Despawning => ChannelView::Despawning,
        }
    }
}

/// The greatest number of fresh net entity keys.
pub const NET_KEY_SPACE: u32 = 65536;

/// Hands out 16-bit net entity keys: fresh ones first, then, once those
/// run out, returned ones oldest first.
pub struct NetKeyGenerator {
    next: u32,
    recycled: VecDeque<u16>,
}

impl NetKeyGenerator {
    pub closed spec fn next_fresh(&self) -> u32 {
        self.next
    }

    pub closed spec fn recycled_keys(&self) -> Seq<u16> {
        self.recycled@
    }

    /// The key that `generate` hands out next.
    pub open spec fn next_key(&self) -> u16 {
        if self.next_fresh() < NET_KEY_SPACE {
            self.next_fresh() as u16
        } else {
            self.recycled_keys()[0]
        }
    }

    /// Whether a key can be handed out.
    pub open spec fn can_generate(&self) -> bool {
        self.next_fresh() < NET_KEY_SPACE || self.recycled_keys().len() > 0
    }

    pub fn new() -> (r: Self)
        ensures
            r.next_fresh() == 0,
            r.recycled_keys() == Seq::<u16>::empty(),
    {
        NetKeyGenerator { next: 0, recycled: VecDeque::new() }
    }

    /// A key: the next fresh one while any remain, else the oldest returned one.
    pub fn generate(&mut self) -> (r: u16)
        requires
            old(self).next_fresh() <= NET_KEY_SPACE,
            old(self).can_generate(),
        ensures
            r == old(self).next_key(),
            final(self).next_fresh() <= NET_KEY_SPACE,
            old(self).next_fresh() < NET_KEY_SPACE ==> {
                &&& r == old(self).next_fresh()
                &&& final(self).next_fresh() == old(self).next_fresh() + 1
                &&& final(self).recycled_keys() == old(self).recycled_keys()
            },
            old(self).next_fresh() == NET_KEY_SPACE ==> {
                &&& r == old(self).recycled_keys()[0]
                &&& final(self).next_fresh() == old(self).next_fresh()
                &&& final(self).recycled_keys() == old(self).recycled_keys().drop_first()
            },
    {
        if self.next < NET_KEY_SPACE {
            let k = self.next as u16;
            self.next = self.next + 1;
            k
        } else {
            let k = self.recycled.pop_front();
            match k {
                Some(k) => {
                    proof {
                        assert(self.recycled@ =~= old(self).recycled_keys().drop_first());
                    }
                    k
                },
                None => {
                    proof {
                        assert(false);
                    }
                    0
                },
            }
        }
    }

    /// Returns `key` for reuse.
    pub fn recycle_key(&mut self, key: u16)
        ensures
            final(self).next_fresh() == old(self).next_fresh(),
            final(self).recycled_keys() == old(self).recycled_keys().push(key),
    {
        self.recycled.push_back(key);
    }
}


/// The kinds whose component channel is `Inserted`.
pub open spec fn inserted_kinds(cc: Map<u16, ComponentChannel>) -> Set<ComponentKind> {
    Set::new(|k: ComponentKind| cc.contains_key(k.0) && cc[k.0] == ComponentChannel::Inserted)
}

/// The insert actions a freshly spawned entity still needs: one per host
/// component the client did not report, in host order.
pub open spec fn missing_inserts<E>(e: E, host_order: Seq<ComponentKind>, inserted: Seq<ComponentKind>) -> Seq<EntityActionEvent<E>> {
    host_order.filter(|k: ComponentKind| !inserted.contains(k)).map_values(|k: ComponentKind| EntityActionEvent::InsertComponent(e, k))
}

/// The remove actions a freshly spawned entity needs: one per component the
/// client reported that the host no longer holds, in the client's order.
pub open spec fn unwanted_removals<E>(e: E, host: Set<ComponentKind>, inserted: Seq<ComponentKind>) -> Seq<EntityActionEvent<E>> {
    inserted.filter(|k: ComponentKind| !host.contains(k)).map_values(|k: ComponentKind| EntityActionEvent::RemoveComponent(e, k))
}

/// The pairs `(e, k)` for every `k` in `ks`.
pub open spec fn pairs<E>(e: E, ks: Set<ComponentKind>) -> Set<(E, ComponentKind)> {
    Set::new(|p: (E, ComponentKind)| p.0 == e && ks.contains(p.1))
}

/// The component channels of one spawned entity agree with the host's and the
/// client's components: the client holds a component exactly when its channel
/// is past `Inserting`; every host component has a channel; an `Inserted`
/// channel belongs to a host component.
pub open spec fn components_agree(host: Set<ComponentKind>, remote: Set<ComponentKind>, cc: Map<u16, ComponentChannel>) -> bool {
    forall|c: u16|
        #![trigger remote.contains(ComponentKind(c))]
        #![trigger host.contains(ComponentKind(c))]
        #![trigger cc.contains_key(c)]
        {
            &&& (remote.contains(ComponentKind(c)) <==> (cc.contains_key(c) && cc[c] != ComponentChannel::Inserting))
            &&& (host.contains(ComponentKind(c)) ==> cc.contains_key(c))
            &&& (cc.contains_key(c) && cc[c] == ComponentChannel::Inserted ==> host.contains(ComponentKind(c)))
        }
}

/// Entity `e`'s channel agrees with both worlds: the client holds it exactly
/// while its channel is spawned or despawning; a held entity has a channel;
/// a spawned channel belongs to a held entity and its components agree.
pub open spec fn entity_agrees<E>(
    host: Map<E, Set<ComponentKind>>,
    remote: Map<E, Set<ComponentKind>>,
    channels: Map<E, ChannelView>,
    e: E,
) -> bool {
    &&& (remote.contains_key(e) <==> (channels.contains_key(e) && !(channels[e] is Spawning)))
    &&& (host.contains_key(e) ==> channels.contains_key(e))
    &&& (channels.contains_key(e) && channels[e] is Spawned ==> {
        &&& host.contains_key(e)
        &&& components_agree(host[e], remote[e], channels[e]->Spawned_0)
    })
}

/// Every entity's channel agrees with both worlds.
pub open spec fn worlds_agree<E>(
    host: Map<E, Set<ComponentKind>>,
    remote: Map<E, Set<ComponentKind>>,
    channels: Map<E, ChannelView>,
) -> bool {
    forall|e: E| #[trigger] entity_agrees(host, remote, channels, e)
}

/// Net entity keys name the entities in `open` one to one; every key in use
/// or waiting for reuse was handed out before, and none waits twice or while
/// in use.
pub open spec fn keys_agree<E>(open: Set<E>, to_net: Map<E, u16>, from_net: Map<u16, E>, g: NetKeyGenerator) -> bool {
    &&& forall|e: E| #[trigger] open.contains(e) <==> to_net.contains_key(e)
    &&& forall|e: E| #[trigger] to_net.contains_key(e) ==> from_net.contains_key(to_net[e]) && from_net[to_net[e]] == e
    &&& forall|n: u16| #[trigger] from_net.contains_key(n) ==> to_net.contains_key(from_net[n]) && to_net[from_net[n]] == n
    &&& g.next_fresh() <= NET_KEY_SPACE
    &&& forall|n: u16| #[trigger] from_net.contains_key(n) ==> n < g.next_fresh()
    &&& forall|i: int| 0 <= i < g.recycled_keys().len() ==> #[trigger] g.recycled_keys()[i] < g.next_fresh()
        && !from_net.contains_key(g.recycled_keys()[i])
    &&& g.recycled_keys().no_duplicates()
}

/// Entity channels of one connection.
pub struct WorldChannel<E: Copy + Eq + Hash> {
    host_world: HashMap<E, KindSet>,
    remote_world: HashMap<E, KindSet>,
    entity_channels: HashMap<E, EntityChannel>,
    outgoing_actions: Vec<EntityActionEvent<E>>,
    diff_handler: HashMap<E, KindSet>,
    message_entities: HashSet<E>,
    net_entity_generator: NetKeyGenerator,
    entity_to_net_entity_map: HashMap<E, u16>,
    net_entity_to_entity_map: HashMap<u16, E>,
}

impl<E: Copy + Eq + Hash> WorldChannel<E> {
    /// The entities the server holds for this client, with their components.
    pub closed spec fn host(&self) -> Map<E, Set<ComponentKind>> {
        self.host_world@.map_values(|s: KindSet| s@)
    }

    /// The order in which the host's components of each entity were added.
    pub closed spec fn host_order(&self) -> Map<E, Seq<ComponentKind>> {
        self.host_world@.map_values(|s: KindSet| s.order())
    }

    /// The entities the client has acknowledged, with their components.
    pub closed spec fn remote(&self) -> Map<E, Set<ComponentKind>> {
        self.remote_world@.map_values(|s: KindSet| s@)
    }

    /// Each entity's channel.
    pub closed spec fn channels(&self) -> Map<E, ChannelView> {
        self.entity_channels@.map_values(|c: EntityChannel| c@)
    }

    /// Every action sent so far, oldest first.
    pub closed spec fn outgoing(&self) -> Seq<EntityActionEvent<E>> {
        self.outgoing_actions@
    }

    /// The components whose changes are watched for sending, as
    /// `(entity, kind)` pairs.
    pub closed spec fn watched(&self) -> Set<(E, ComponentKind)> {
        Set::new(|p: (E, ComponentKind)| self.diff_handler@.contains_key(p.0) && self.diff_handler@[p.0]@.contains(p.1))
    }

    /// The entities whose channel is open for entity messages.
    pub closed spec fn message_entities(&self) -> Set<E> {
        self.message_entities@
    }

    /// Each entity's net entity key.
    pub closed spec fn to_net(&self) -> Map<E, u16> {
        self.entity_to_net_entity_map@
    }

    /// Each net entity key's entity.
    pub closed spec fn from_net(&self) -> Map<u16, E> {
        self.net_entity_to_entity_map@
    }

    pub closed spec fn keys(&self) -> NetKeyGenerator {
        self.net_entity_generator
    }

    /// A net entity key can be handed out for a new channel.
    pub open spec fn can_open(&self) -> bool {
        self.keys().can_generate()
    }

    /// The net entity key the next channel to open gets.
    pub open spec fn next_net_key(&self) -> u16 {
        self.keys().next_key()
    }

    closed spec fn sets_wf(&self) -> bool {
        &&& forall|e: E| #[trigger] self.host_world@.contains_key(e) ==> self.host_world@[e].wf()
        &&& forall|e: E| #[trigger] self.remote_world@.contains_key(e) ==> self.remote_world@[e].wf()
        &&& forall|e: E| #[trigger] self.diff_handler@.contains_key(e) ==> self.diff_handler@[e].wf()
    }

    /// The channel state agrees with both worlds, and net entity keys are a
    /// one-to-one naming of the entities that have a channel.
    pub closed spec fn wf(&self) -> bool {
        &&& obeys_key_model::<E>()
        &&& self.sets_wf()
        &&& worlds_agree(self.host(), self.remote(), self.channels())
        &&& keys_agree(self.channels().dom(), self.to_net(), self.from_net(), self.keys())
    }

    /// What a well-formed channel guarantees of any one entity.
    pub proof fn lemma_wf_agrees(&self, e: E)
        requires
            self.wf(),
        ensures
            obeys_key_model::<E>(),
            entity_agrees(self.host(), self.remote(), self.channels(), e),
            self.channels().contains_key(e) <==> self.to_net().contains_key(e),
            self.to_net().contains_key(e) ==> self.from_net()[self.to_net()[e]] == e,
    {
        assert(entity_agrees(self.host(), self.remote(), self.channels(), e));
    }

    proof fn lemma_views(&self)
        ensures
            self.host().dom() == self.host_world@.dom(),
            self.remote().dom() == self.remote_world@.dom(),
            self.channels().dom() == self.entity_channels@.dom(),
            forall|e: E| #[trigger] self.host_world@.contains_key(e) ==> self.host()[e] == self.host_world@[e]@,
            forall|e: E| #[trigger] self.remote_world@.contains_key(e) ==> self.remote()[e] == self.remote_world@[e]@,
            forall|e: E| #[trigger] self.entity_channels@.contains_key(e) ==> self.channels()[e] == self.entity_channels@[e]@,
    {
        assert(self.host().dom() =~= self.host_world@.dom());
        assert(self.remote().dom() =~= self.remote_world@.dom());
        assert(self.channels().dom() =~= self.entity_channels@.dom());
    }

    /// A channel with nothing in either world. The entity type must hash
    /// and compare deterministically.
    pub fn new() -> (r: Self)
        requires
            obeys_key_model::<E>(),
        ensures
            r.wf(),
            r.host() == Map::<E, Set<ComponentKind>>::empty(),
            r.remote() == Map::<E, Set<ComponentKind>>::empty(),
            r.channels() == Map::<E, ChannelView>::empty(),
            r.outgoing() == Seq::<EntityActionEvent<E>>::empty(),
            r.watched() == Set::<(E, ComponentKind)>::empty(),
            r.message_entities() == Set::<E>::empty(),
            r.to_net() == Map::<E, u16>::empty(),
            r.can_open(),
            r.next_net_key() == 0,
    {
        let r = WorldChannel {
            host_world: HashMap::new(),
            remote_world: HashMap::new(),
            entity_channels: HashMap::new(),
            outgoing_actions: Vec::new(),
            diff_handler: HashMap::new(),
            message_entities: HashSet::new(),
            net_entity_generator: NetKeyGenerator::new(),
            entity_to_net_entity_map: HashMap::new(),
            net_entity_to_entity_map: HashMap::new(),
        };
        proof {
            assert(r.host() =~= Map::<E, Set<ComponentKind>>::empty());
            assert(r.remote() =~= Map::<E, Set<ComponentKind>>::empty());
            assert(r.channels() =~= Map::<E, ChannelView>::empty());
            assert(r.watched() =~= Set::<(E, ComponentKind)>::empty());
            assert forall|e: E| #[trigger] entity_agrees(r.host(), r.remote(), r.channels(), e) by {}
        }
        r
    }

    /// Whether the host holds `entity`.
    pub fn host_has_entity(&self, entity: &E) -> (r: bool)
        requires
            self.wf(),
        ensures
            r == self.host().contains_key(*entity),
    {
        proof { self.lemma_views(); }
        self.host_world.contains_key(entity)
    }

    /// Every watched `(entity, kind)`, each once, in no particular order.
    pub fn watched_components(&self) -> (r: Vec<(E, ComponentKind)>)
        requires
            self.wf(),
        ensures
            r@.to_set() == self.watched(),
            r@.no_duplicates(),
    {
        let r = pairs_of(&self.diff_handler);
        proof {
            assert(kind_pairs(self.diff_handler@) =~= self.watched());
        }
        r
    }

    /// Whether `entity`'s channel is spawned.
    pub fn entity_channel_is_open(&self, entity: &E) -> (r: bool)
        requires
            self.wf(),
        ensures
            r == (self.channels().contains_key(*entity) && self.channels()[*entity] is Spawned),
    {
        proof { self.lemma_views(); }
        match self.entity_channels.get(entity) {
            Some(EntityChannel::Spawned(_)) => true,
            _ => false,
        }
    }

    /// The net entity key of `entity`, if its channel exists.
    pub fn entity_to_net_entity(&self, entity: &E) -> (r: Option<u16>)
        requires
            self.wf(),
        ensures
            self.to_net().contains_key(*entity) ==> r == Some(self.to_net()[*entity]),
            !self.to_net().contains_key(*entity) ==> r is None,
    {
        match self.entity_to_net_entity_map.get(entity) {
            Some(n) => Some(*n),
            None => None,
        }
    }

    /// The entity named by net entity key `net_entity`, if any.
    pub fn net_entity_to_entity(&self, net_entity: &u16) -> (r: Option<E>)
        requires
            self.wf(),
        ensures
            self.from_net().contains_key(*net_entity) ==> r == Some(self.from_net()[*net_entity]),
            !self.from_net().contains_key(*net_entity) ==> r is None,
    {
        match self.net_entity_to_entity_map.get(net_entity) {
            Some(e) => Some(*e),
            None => None,
        }
    }

    /// Every action sent so far, oldest first.
    pub fn outgoing_actions(&self) -> (r: Vec<EntityActionEvent<E>>)
        ensures
            r@ == self.outgoing(),
    {
        let mut out: Vec<EntityActionEvent<E>> = Vec::new();
        let mut i: usize = 0;
        while i < self.outgoing_actions.len()
            invariant
                i <= self.outgoing_actions@.len(),
                out@ == self.outgoing_actions@.take(i as int),
            decreases self.outgoing_actions@.len() - i,
        {
            out.push(self.outgoing_actions[i]);
            proof {
                assert(self.outgoing_actions@.take(i + 1) =~= self.outgoing_actions@.take(i as int).push(self.outgoing_actions@[i as int]));
            }
            i += 1;
        }
        proof {
            assert(self.outgoing_actions@.take(self.outgoing_actions@.len() as int) =~= self.outgoing_actions@);
        }
        out
    }

    // Net entity keys

    /// Names `entity`, which has no channel yet, by the next net entity key.
    fn open_key(&mut self, entity: &E)
        requires
            obeys_key_model::<E>(),
            keys_agree(old(self).channels().dom(), old(self).to_net(), old(self).from_net(), old(self).keys()),
            !old(self).channels().contains_key(*entity),
            old(self).keys().can_generate(),
        ensures
            keys_agree(old(self).channels().dom().insert(*entity), final(self).to_net(), final(self).from_net(), final(self).keys()),
            final(self).to_net() == old(self).to_net().insert(*entity, old(self).next_net_key()),
            final(self).from_net() == old(self).from_net().insert(old(self).next_net_key(), *entity),
            final(self).host_world == old(self).host_world,
            final(self).remote_world == old(self).remote_world,
            final(self).entity_channels == old(self).entity_channels,
            final(self).outgoing_actions == old(self).outgoing_actions,
            final(self).diff_handler == old(self).diff_handler,
            final(self).message_entities == old(self).message_entities,
    {
        let ghost g0 = self.net_entity_generator;
        let n = self.net_entity_generator.generate();
        proof {
            let rk = g0.recycled_keys();
            assert(!self.from_net().contains_key(n)) by {
                if g0.next_fresh() >= NET_KEY_SPACE {
                    assert(rk[0] == n);
                }
            }
            assert forall|i: int| 0 <= i < self.keys().recycled_keys().len() implies #[trigger] self.keys().recycled_keys()[i] != n by {
                if g0.next_fresh() >= NET_KEY_SPACE {
                    assert(self.keys().recycled_keys()[i] == rk[i + 1]);
                    assert(rk[0] != rk[i + 1]);
                }
            }
        }
        self.entity_to_net_entity_map.insert(*entity, n);
        self.net_entity_to_entity_map.insert(n, *entity);
        proof {
            let open = old(self).channels().dom().insert(*entity);
            let g = self.keys();
            let rk = g0.recycled_keys();
            assert forall|i: int| 0 <= i < g.recycled_keys().len() implies #[trigger] g.recycled_keys()[i] < g.next_fresh()
                && !self.from_net().contains_key(g.recycled_keys()[i]) by {
                if g0.next_fresh() >= NET_KEY_SPACE {
                    assert(g.recycled_keys()[i] == rk[i + 1]);
                } else {
                    assert(g.recycled_keys()[i] == rk[i]);
                }
            }
            assert(g.recycled_keys().no_duplicates()) by {
                if g0.next_fresh() >= NET_KEY_SPACE {
                    assert forall|i: int, j: int| 0 <= i < j < g.recycled_keys().len() implies g.recycled_keys()[i] != g.recycled_keys()[j] by {
                        assert(g.recycled_keys()[i] == rk[i + 1]);
                        assert(g.recycled_keys()[j] == rk[j + 1]);
                    }
                }
            }
            assert forall|e: E| #[trigger] open.contains(e) <==> self.to_net().contains_key(e) by {}
            assert forall|m: u16| #[trigger] self.from_net().contains_key(m) implies m < g.next_fresh() by {}
        }
    }

    /// Drops `entity`'s net entity key and returns it for reuse.
    fn close_key(&mut self, entity: &E)
        requires
            obeys_key_model::<E>(),
            keys_agree(old(self).channels().dom(), old(self).to_net(), old(self).from_net(), old(self).keys()),
            old(self).to_net().contains_key(*entity),
        ensures
            keys_agree(old(self).channels().dom().remove(*entity), final(self).to_net(), final(self).from_net(), final(self).keys()),
            final(self).to_net() == old(self).to_net().remove(*entity),
            final(self).from_net() == old(self).from_net().remove(old(self).to_net()[*entity]),
            final(self).keys().next_fresh() == old(self).keys().next_fresh(),
            final(self).keys().recycled_keys() == old(self).keys().recycled_keys().push(old(self).to_net()[*entity]),
            final(self).can_open(),
            final(self).host_world == old(self).host_world,
            final(self).remote_world == old(self).remote_world,
            final(self).entity_channels == old(self).entity_channels,
            final(self).outgoing_actions == old(self).outgoing_actions,
            final(self).diff_handler == old(self).diff_handler,
            final(self).message_entities == old(self).message_entities,
    {
        let n = *self.entity_to_net_entity_map.get(entity).unwrap();
        self.entity_to_net_entity_map.remove(entity);
        self.net_entity_to_entity_map.remove(&n);
        self.net_entity_generator.recycle_key(n);
        proof {
            let open = old(self).channels().dom().remove(*entity);
            let g0 = old(self).keys();
            let g = self.keys();
            assert forall|e: E| #[trigger] open.contains(e) <==> self.to_net().contains_key(e) by {}
            assert forall|e: E| #[trigger] self.to_net().contains_key(e) implies self.from_net().contains_key(self.to_net()[e])
                && self.from_net()[self.to_net()[e]] == e by {
                assert(old(self).from_net()[old(self).to_net()[e]] == e);
            }
            assert forall|i: int| 0 <= i < g.recycled_keys().len() implies #[trigger] g.recycled_keys()[i] < g.next_fresh()
                && !self.from_net().contains_key(g.recycled_keys()[i]) by {
                if i < g0.recycled_keys().len() {
                    assert(g.recycled_keys()[i] == g0.recycled_keys()[i]);
                }
            }
            assert(g.recycled_keys().no_duplicates()) by {
                assert forall|i: int, j: int| 0 <= i < j < g.recycled_keys().len() implies g.recycled_keys()[i] != g.recycled_keys()[j] by {
                    if j == g0.recycled_keys().len() {
                        assert(g.recycled_keys()[i] == g0.recycled_keys()[i]);
                        assert(!old(self).from_net().contains_key(g0.recycled_keys()[i]));
                    }
                }
            }
        }
    }
    /// Whether `self` and `other` have the same channels, sent actions and
    /// net entity keys.
    pub open spec fn same_links(self, other: Self) -> bool {
        &&& self.channels() == other.channels()
        &&& self.outgoing() == other.outgoing()
        &&& self.to_net() == other.to_net()
        &&& self.from_net() == other.from_net()
    }

    /// What `host_spawn_entity` leaves behind, starting from `before`.
    pub open spec fn host_spawn_step(self, before: Self, entity: E) -> bool {
        &&& self.remote() == before.remote()
        &&& self.watched() == before.watched()
        &&& self.message_entities() == before.message_entities()
        &&& before.host().contains_key(entity) ==> {
            &&& self.host() == before.host()
            &&& self.host_order() == before.host_order()
            &&& self.same_links(before)
            }
        &&& !before.host().contains_key(entity) ==> {
            &&& self.host() == before.host().insert(entity, Set::empty())
            &&& self.host_order() == before.host_order().insert(entity, Seq::empty())
            }
        &&& !before.host().contains_key(entity) && before.channels().contains_key(entity)
            ==> self.same_links(before)
        &&& !before.channels().contains_key(entity) ==> {
            &&& self.channels() == before.channels().insert(entity, ChannelView::Spawning)
            &&& self.outgoing() == before.outgoing().push(EntityActionEvent::SpawnEntity(entity))
            &&& self.to_net() == before.to_net().insert(entity, before.next_net_key())
            &&& self.from_net() == before.from_net().insert(before.next_net_key(), entity)
            }
    }

    /// What `host_despawn_entity` leaves behind, starting from `before`.
    pub open spec fn host_despawn_step(self, before: Self, entity: E) -> bool {
        &&& self.host() == before.host().remove(entity)
        &&& self.host_order() == before.host_order().remove(entity)
        &&& self.remote() == before.remote()
        &&& self.to_net() == before.to_net()
        &&& self.from_net() == before.from_net()
        &&& before.channels().contains_key(entity) && before.channels()[entity] is Spawned ==> {
            &&& self.channels() == before.channels().insert(entity, ChannelView::Despawning)
            &&& self.outgoing() == before.outgoing().push(EntityActionEvent::DespawnEntity(entity))
            &&& self.message_entities() == before.message_entities().remove(entity)
            &&& self.watched() == before.watched().difference(
                pairs(entity, inserted_kinds(before.channels()[entity]->Spawned_0)))
            }
        &&& !(before.channels().contains_key(entity) && before.channels()[entity] is Spawned) ==> {
            &&& self.channels() == before.channels()
            &&& self.outgoing() == before.outgoing()
            &&& self.message_entities() == before.message_entities()
            &&& self.watched() == before.watched()
            }
    }

    /// What `host_insert_component` leaves behind, starting from `before`.
    pub open spec fn host_insert_step(self, before: Self, entity: E, component: ComponentKind) -> bool {
        &&& self.remote() == before.remote()
        &&& self.watched() == before.watched()
        &&& self.message_entities() == before.message_entities()
        &&& self.to_net() == before.to_net()
        &&& self.from_net() == before.from_net()
        &&& before.host()[entity].contains(component) ==> {
            &&& self.host() == before.host()
            &&& self.host_order() == before.host_order()
            &&& self.same_links(before)
            }
        &&& !before.host()[entity].contains(component) ==> {
            &&& self.host() == before.host().insert(entity, before.host()[entity].insert(component))
            &&& self.host_order() == before.host_order().insert(entity, before.host_order()[entity].push(component))
            &&& opens_component(before.channels(), entity, component) ==> {
                &&& self.channels() == before.channels().insert(entity,
                    ChannelView::Spawned(before.channels()[entity]->Spawned_0.insert(component.0, ComponentChannel::Inserting)))
                &&& self.outgoing() == before.outgoing().push(EntityActionEvent::InsertComponent(entity, component))
            }
            &&& !opens_component(before.channels(), entity, component) ==> {
                &&& self.channels() == before.channels()
                &&& self.outgoing() == before.outgoing()
            }
            }
    }

    /// What `host_remove_component` leaves behind, starting from `before`.
    pub open spec fn host_remove_step(self, before: Self, entity: E, component: ComponentKind) -> bool {
        &&& self.remote() == before.remote()
        &&& self.message_entities() == before.message_entities()
        &&& self.to_net() == before.to_net()
        &&& self.from_net() == before.from_net()
        &&& !before.host()[entity].contains(component) ==> {
            &&& self.host() == before.host()
            &&& self.host_order() == before.host_order()
            &&& self.same_links(before)
            &&& self.watched() == before.watched()
            }
        &&& before.host()[entity].contains(component) ==> {
            &&& self.host() == before.host().insert(entity, before.host()[entity].remove(component))
            &&& self.host_order() == before.host_order().insert(entity,
                before.host_order()[entity].filter(other_kind(component)))
            &&& closes_component(before.channels(), entity, component) ==> {
                &&& self.channels() == before.channels().insert(entity,
                    ChannelView::Spawned(before.channels()[entity]->Spawned_0.insert(component.0, ComponentChannel::Removing)))
                &&& self.outgoing() == before.outgoing().push(EntityActionEvent::RemoveComponent(entity, component))
                &&& self.watched() == before.watched().remove((entity, component))
            }
            &&& !closes_component(before.channels(), entity, component) ==> {
                &&& self.channels() == before.channels()
                &&& self.outgoing() == before.outgoing()
                &&& self.watched() == before.watched()
            }
            }
    }

    /// What `remote_spawn_entity` leaves behind, starting from `before`.
    pub open spec fn remote_spawn_step(self, before: Self, entity: E, inserted: Seq<ComponentKind>) -> bool {
        &&& self.host() == before.host()
        &&& self.host_order() == before.host_order()
        &&& self.remote() == before.remote().insert(entity, inserted.to_set())
        &&& self.to_net() == before.to_net()
        &&& self.from_net() == before.from_net()
        &&& before.host().contains_key(entity) ==> {
            let h = before.host()[entity];
            &&& self.channels() == before.channels().insert(entity,
                ChannelView::Spawned(spawned_components(h, inserted.to_set())))
            &&& self.outgoing() == before.outgoing()
                + missing_inserts(entity, before.host_order()[entity], inserted)
                + unwanted_removals(entity, h, inserted)
            &&& self.message_entities() == before.message_entities().insert(entity)
            &&& self.watched() == before.watched()
                .union(pairs(entity, inserted.to_set().intersect(h)))
                .difference(pairs(entity, inserted.to_set().difference(h)))
            }
        &&& !before.host().contains_key(entity) ==> {
            &&& self.channels() == before.channels().insert(entity, ChannelView::Despawning)
            &&& self.outgoing() == before.outgoing().push(EntityActionEvent::DespawnEntity(entity))
            &&& self.message_entities() == before.message_entities().remove(entity)
            &&& self.watched() == before.watched()
            }
    }

    /// What `remote_despawn_entity` leaves behind, starting from `before`.
    pub open spec fn remote_despawn_step(self, before: Self, entity: E) -> bool {
        &&& self.host() == before.host()
        &&& self.host_order() == before.host_order()
        &&& self.remote() == before.remote().remove(entity)
        &&& self.watched() == before.watched()
        &&& self.message_entities() == before.message_entities()
        &&& !before.host().contains_key(entity) ==> {
            &&& self.channels() == before.channels().remove(entity)
            &&& self.outgoing() == before.outgoing()
            &&& self.to_net() == before.to_net().remove(entity)
            &&& self.from_net() == before.from_net().remove(before.to_net()[entity])
            }
        &&& before.host().contains_key(entity) ==> {
            let n = before.to_net()[entity];
            let m = before.key_after_return(n);
            &&& self.channels() == before.channels().insert(entity, ChannelView::Spawning)
            &&& self.outgoing() == before.outgoing().push(EntityActionEvent::SpawnEntity(entity))
            &&& self.to_net() == before.to_net().insert(entity, m)
            &&& self.from_net() == before.from_net().remove(n).insert(m, entity)
            }
    }

    /// What `remote_insert_component` leaves behind, starting from `before`.
    pub open spec fn remote_insert_step(self, before: Self, entity: E, component: ComponentKind) -> bool {
        &&& self.host() == before.host()
        &&& self.host_order() == before.host_order()
        &&& self.remote() == before.remote().insert(entity, before.remote()[entity].insert(component))
        &&& self.message_entities() == before.message_entities()
        &&& self.to_net() == before.to_net()
        &&& self.from_net() == before.from_net()
        &&& is_spawned(before.channels(), entity) && before.host()[entity].contains(component) ==> {
            &&& self.channels() == before.channels().insert(entity,
                ChannelView::Spawned(before.channels()[entity]->Spawned_0.insert(component.0, ComponentChannel::Inserted)))
            &&& self.outgoing() == before.outgoing()
            &&& self.watched() == before.watched().insert((entity, component))
            }
        &&& is_spawned(before.channels(), entity) && !before.host()[entity].contains(component) ==> {
            &&& self.channels() == before.channels().insert(entity,
                ChannelView::Spawned(before.channels()[entity]->Spawned_0.insert(component.0, ComponentChannel::Removing)))
            &&& self.outgoing() == before.outgoing().push(EntityActionEvent::RemoveComponent(entity, component))
            &&& self.watched() == before.watched().remove((entity, component))
            }
        &&& !is_spawned(before.channels(), entity) ==> {
            &&& self.channels() == before.channels()
            &&& self.outgoing() == before.outgoing()
            &&& self.watched() == before.watched()
            }
    }

    /// What `remote_remove_component` leaves behind, starting from `before`.
    pub open spec fn remote_remove_step(self, before: Self, entity: E, component: ComponentKind) -> bool {
        &&& self.host() == before.host()
        &&& self.host_order() == before.host_order()
        &&& self.remote() == before.remote().insert(entity, before.remote()[entity].remove(component))
        &&& self.watched() == before.watched()
        &&& self.message_entities() == before.message_entities()
        &&& self.to_net() == before.to_net()
        &&& self.from_net() == before.from_net()
        &&& is_spawned(before.channels(), entity) && before.host()[entity].contains(component) ==> {
            &&& self.channels() == before.channels().insert(entity,
                ChannelView::Spawned(before.channels()[entity]->Spawned_0.insert(component.0, ComponentChannel::Inserting)))
            &&& self.outgoing() == before.outgoing().push(EntityActionEvent::InsertComponent(entity, component))
            }
        &&& is_spawned(before.channels(), entity) && !before.host()[entity].contains(component) ==> {
            &&& self.channels() == before.channels().insert(entity,
                ChannelView::Spawned(before.channels()[entity]->Spawned_0.remove(component.0)))
            &&& self.outgoing() == before.outgoing()
            }
        &&& !is_spawned(before.channels(), entity) ==> {
            &&& self.channels() == before.channels()
            &&& self.outgoing() == before.outgoing()
            }
    }

    // Change tracking

    /// Starts watching changes of component `k` of `e`.
    fn watch(&mut self, e: E, k: ComponentKind)
        requires
            obeys_key_model::<E>(),
            forall|x: E| #[trigger] old(self).diff_handler@.contains_key(x) ==> old(self).diff_handler@[x].wf(),
        ensures
            forall|x: E| #[trigger] final(self).diff_handler@.contains_key(x) ==> final(self).diff_handler@[x].wf(),
            final(self).watched() == old(self).watched().insert((e, k)),
            final(self).host_world == old(self).host_world,
            final(self).remote_world == old(self).remote_world,
            final(self).entity_channels == old(self).entity_channels,
            final(self).outgoing_actions == old(self).outgoing_actions,
            final(self).message_entities == old(self).message_entities,
            final(self).net_entity_generator == old(self).net_entity_generator,
            final(self).entity_to_net_entity_map == old(self).entity_to_net_entity_map,
            final(self).net_entity_to_entity_map == old(self).net_entity_to_entity_map,
    {
        match self.diff_handler.remove(&e) {
            Some(mut s) => {
                s.insert(k);
                self.diff_handler.insert(e, s);
            },
            None => {
                let mut s = KindSet::new();
                s.insert(k);
                self.diff_handler.insert(e, s);
            },
        }
        proof {
            assert(self.watched() =~= old(self).watched().insert((e, k)));
        }
    }

    /// Stops watching changes of component `k` of `e`.
    fn unwatch(&mut self, e: E, k: ComponentKind)
        requires
            obeys_key_model::<E>(),
            forall|x: E| #[trigger] old(self).diff_handler@.contains_key(x) ==> old(self).diff_handler@[x].wf(),
        ensures
            forall|x: E| #[trigger] final(self).diff_handler@.contains_key(x) ==> final(self).diff_handler@[x].wf(),
            final(self).watched() == old(self).watched().remove((e, k)),
            final(self).host_world == old(self).host_world,
            final(self).remote_world == old(self).remote_world,
            final(self).entity_channels == old(self).entity_channels,
            final(self).outgoing_actions == old(self).outgoing_actions,
            final(self).message_entities == old(self).message_entities,
            final(self).net_entity_generator == old(self).net_entity_generator,
            final(self).entity_to_net_entity_map == old(self).entity_to_net_entity_map,
            final(self).net_entity_to_entity_map == old(self).net_entity_to_entity_map,
    {
        match self.diff_handler.remove(&e) {
            Some(mut s) => {
                s.remove(&k);
                self.diff_handler.insert(e, s);
            },
            None => {},
        }
        proof {
            assert(self.watched() =~= old(self).watched().remove((e, k)));
        }
    }

    // Host updates

    /// The host starts holding `entity`. If it has no channel, a spawn is
    /// sent and the entity is given the next net entity key.
    pub fn host_spawn_entity(&mut self, entity: &E)
        requires
            old(self).wf(),
            !old(self).channels().contains_key(*entity) ==> old(self).can_open(),
        ensures
            final(self).wf(),
            final(self).host_spawn_step(*old(self), *entity),
    {
        proof {
            self.lemma_views();
            self.lemma_wf_agrees(*entity);
        }
        if self.host_world.contains_key(entity) {
            return;
        }
        let opening = !self.entity_channels.contains_key(entity);
        if opening {
            self.open_key(entity);
        }
        self.host_world.insert(*entity, KindSet::new());
        if opening {
            self.entity_channels.insert(*entity, EntityChannel::Spawning);
            self.outgoing_actions.push(EntityActionEvent::SpawnEntity(*entity));
        }
        proof {
            let h2 = old(self).host().insert(*entity, Set::empty());
            assert(self.host() =~= h2);
            assert(self.host_order() =~= old(self).host_order().insert(*entity, Seq::empty()));
            assert(self.remote() =~= old(self).remote());
            if opening {
                assert(self.channels() =~= old(self).channels().insert(*entity, ChannelView::Spawning));
                assert(self.channels().dom() =~= old(self).channels().dom().insert(*entity));
            } else {
                assert(self.channels() =~= old(self).channels());
            }
            lemma_worlds_step(old(self).host(), old(self).remote(), old(self).channels(), self.host(), self.remote(), self.channels(), *entity);
        }
    }

    /// The host stops holding `entity`. A spawned channel starts despawning:
    /// a despawn is sent, the entity leaves the message entities and its
    /// inserted components are no longer watched.
    pub fn host_despawn_entity(&mut self, entity: &E)
        requires
            old(self).wf(),
        ensures
            final(self).wf(),
            final(self).host_despawn_step(*old(self), *entity),
    {
        proof {
            self.lemma_views();
            self.lemma_wf_agrees(*entity);
        }
        if !self.host_world.contains_key(entity) {
            proof {
                assert(old(self).host().remove(*entity) =~= old(self).host());
                assert(old(self).host_order().remove(*entity) =~= old(self).host_order());
            }
            return;
        }
        self.host_world.remove(entity);
        let ch = self.entity_channels.remove(entity);
        match ch {
            Some(EntityChannel::Spawned(cc)) => {
                self.entity_channels.insert(*entity, EntityChannel::Despawning);
                self.outgoing_actions.push(EntityActionEvent::DespawnEntity(*entity));
                self.message_entities.remove(entity);
                let ks = keys_of(&cc);
                let ghost before = *self;
                let mut i: usize = 0;
                while i < ks.len()
                    invariant
                        obeys_key_model::<E>(),
                        i <= ks@.len(),
                        ks@.to_set() == cc@.dom(),
                        forall|x: E| #[trigger] self.diff_handler@.contains_key(x) ==> self.diff_handler@[x].wf(),
                        self.watched() == before.watched().difference(pairs(*entity, inserted_among(ks@.take(i as int), cc@))),
                        self.host_world == before.host_world,
                        self.remote_world == before.remote_world,
                        self.entity_channels == before.entity_channels,
                        self.outgoing_actions == before.outgoing_actions,
                        self.message_entities == before.message_entities,
                        self.net_entity_generator == before.net_entity_generator,
                        self.entity_to_net_entity_map == before.entity_to_net_entity_map,
                        self.net_entity_to_entity_map == before.net_entity_to_entity_map,
                    decreases ks@.len() - i,
                {
                    let c = ks[i];
                    let ghost w0 = self.watched();
                    let inserted = match cc.get(&c) {
                        Some(ComponentChannel::Inserted) => true,
                        _ => false,
                    };
                    if inserted {
                        self.unwatch(*entity, ComponentKind(c));
                    }
                    proof {
                        let s0 = inserted_among(ks@.take(i as int), cc@);
                        let s1 = inserted_among(ks@.take(i + 1), cc@);
                        assert(ks@.take(i + 1) =~= ks@.take(i as int).push(c));
                        assert forall|k: ComponentKind| #[trigger] ks@.take(i + 1).contains(k.0) <==> (ks@.take(i as int).contains(k.0) || k.0 == c) by {
                            lemma_push_contains(ks@.take(i as int), c, k.0);
                        }
                        if inserted {
                            assert(s1 =~= s0.insert(ComponentKind(c)));
                            assert(self.watched() =~= before.watched().difference(pairs(*entity, s1)));
                        } else {
                            assert(s1 =~= s0);
                        }
                    }
                    i += 1;
                }
                proof {
                    assert(ks@.take(ks@.len() as int) =~= ks@);
                    assert(inserted_among(ks@, cc@) =~= inserted_kinds(cc@)) by {
                        assert forall|k: ComponentKind| #[trigger] inserted_kinds(cc@).contains(k) implies ks@.contains(k.0) by {
                            assert(ks@.to_set().contains(k.0));
                        }
                    }
                }
            },
            Some(other) => {
                self.entity_channels.insert(*entity, other);
            },
            None => {},
        }
        proof {
            assert(self.host() =~= old(self).host().remove(*entity));
            assert(self.host_order() =~= old(self).host_order().remove(*entity));
            assert(self.remote() =~= old(self).remote());
            if old(self).channels()[*entity] is Spawned {
                assert(self.channels() =~= old(self).channels().insert(*entity, ChannelView::Despawning));
            } else {
                assert(self.channels() =~= old(self).channels());
            }
            assert(self.channels().dom() =~= old(self).channels().dom());
            lemma_worlds_step(old(self).host(), old(self).remote(), old(self).channels(), self.host(), self.remote(), self.channels(), *entity);
        }
    }

    /// The host adds component `component` to `entity`, which it holds. On a
    /// spawned channel with no channel for the component, an insert is sent.
    pub fn host_insert_component(&mut self, entity: &E, component: &ComponentKind)
        requires
            old(self).wf(),
            old(self).host().contains_key(*entity),
        ensures
            final(self).wf(),
            final(self).host_insert_step(*old(self), *entity, *component),
    {
        proof {
            self.lemma_views();
            self.lemma_wf_agrees(*entity);
        }
        let mut ks = self.host_world.remove(entity).unwrap();
        if ks.contains(component) {
            self.host_world.insert(*entity, ks);
            proof {
                assert(self.host_world@ =~= old(self).host_world@);
            }
            return;
        }
        ks.insert(*component);
        self.host_world.insert(*entity, ks);
        let ch = self.entity_channels.remove(entity);
        match ch {
            Some(EntityChannel::Spawned(mut cc)) => {
                if !cc.contains_key(&component.0) {
                    cc.insert(component.0, ComponentChannel::Inserting);
                    self.outgoing_actions.push(EntityActionEvent::InsertComponent(*entity, *component));
                }
                self.entity_channels.insert(*entity, EntityChannel::Spawned(cc));
            },
            Some(other) => {
                self.entity_channels.insert(*entity, other);
            },
            None => {},
        }
        proof {
            let k = *component;
            let h0 = old(self).host();
            assert(self.host() =~= h0.insert(*entity, h0[*entity].insert(k)));
            assert(self.host_order() =~= old(self).host_order().insert(*entity, old(self).host_order()[*entity].push(k)));
            assert(self.remote() =~= old(self).remote());
            let ch0 = old(self).channels();
            if opens_component(ch0, *entity, k) {
                let cc2 = ch0[*entity]->Spawned_0.insert(k.0, ComponentChannel::Inserting);
                assert(self.channels() =~= ch0.insert(*entity, ChannelView::Spawned(cc2)));
                lemma_component_opened(h0[*entity], old(self).remote()[*entity], ch0[*entity]->Spawned_0, k);
            } else {
                assert(self.channels() =~= ch0);
                if ch0[*entity] is Spawned {
                    lemma_component_held(h0[*entity], old(self).remote()[*entity], ch0[*entity]->Spawned_0, k);
                }
            }
            assert(self.channels().dom() =~= ch0.dom());
            lemma_worlds_step(h0, old(self).remote(), ch0, self.host(), self.remote(), self.channels(), *entity);
        }
    }

    /// The host removes component `component` from `entity`, which it holds.
    /// An `Inserted` component channel starts removing: a removal is sent and
    /// the component is no longer watched.
    pub fn host_remove_component(&mut self, entity: &E, component: &ComponentKind)
        requires
            old(self).wf(),
            old(self).host().contains_key(*entity),
        ensures
            final(self).wf(),
            final(self).host_remove_step(*old(self), *entity, *component),
    {
        proof {
            self.lemma_views();
            self.lemma_wf_agrees(*entity);
        }
        let mut ks = self.host_world.remove(entity).unwrap();
        if !ks.contains(component) {
            self.host_world.insert(*entity, ks);
            proof {
                assert(self.host_world@ =~= old(self).host_world@);
            }
            return;
        }
        ks.remove(component);
        self.host_world.insert(*entity, ks);
        let ch = self.entity_channels.remove(entity);
        match ch {
            Some(EntityChannel::Spawned(mut cc)) => {
                let inserted = match cc.get(&component.0) {
                    Some(ComponentChannel::Inserted) => true,
                    _ => false,
                };
                if inserted {
                    cc.insert(component.0, ComponentChannel::Removing);
                    self.outgoing_actions.push(EntityActionEvent::RemoveComponent(*entity, *component));
                }
                self.entity_channels.insert(*entity, EntityChannel::Spawned(cc));
                if inserted {
                    self.unwatch(*entity, *component);
                }
            },
            Some(other) => {
                self.entity_channels.insert(*entity, other);
            },
            None => {},
        }
        proof {
            let k = *component;
            let h0 = old(self).host();
            assert(self.host() =~= h0.insert(*entity, h0[*entity].remove(k)));
            assert(self.host_order() =~= old(self).host_order().insert(*entity, old(self).host_order()[*entity].filter(other_kind(k))));
            assert(self.remote() =~= old(self).remote());
            let ch0 = old(self).channels();
            if closes_component(ch0, *entity, k) {
                let cc2 = ch0[*entity]->Spawned_0.insert(k.0, ComponentChannel::Removing);
                assert(self.channels() =~= ch0.insert(*entity, ChannelView::Spawned(cc2)));
                lemma_component_closed(h0[*entity], old(self).remote()[*entity], ch0[*entity]->Spawned_0, k);
            } else {
                assert(self.channels() =~= ch0);
                if ch0[*entity] is Spawned {
                    lemma_component_dropped(h0[*entity], old(self).remote()[*entity], ch0[*entity]->Spawned_0, k);
                }
            }
            assert(self.channels().dom() =~= ch0.dom());
            lemma_worlds_step(h0, old(self).remote(), ch0, self.host(), self.remote(), self.channels(), *entity);
        }
    }
    // Remote updates: what the client acknowledged

    /// The key a channel re-opened right after key `n` was returned gets.
    pub open spec fn key_after_return(&self, n: u16) -> u16 {
        if self.keys().next_fresh() < NET_KEY_SPACE {
            self.keys().next_fresh() as u16
        } else {
            self.keys().recycled_keys().push(n)[0]
        }
    }

    /// The client acknowledged the despawn of `entity`, whose channel is
    /// despawning. The channel closes and its net entity key is returned; if
    /// the host holds the entity again, a new channel opens with a spawn.
    pub fn remote_despawn_entity(&mut self, entity: &E)
        requires
            old(self).wf(),
            old(self).remote().contains_key(*entity),
            old(self).channels()[*entity] is Despawning,
        ensures
            final(self).wf(),
            final(self).remote_despawn_step(*old(self), *entity),
    {
        proof {
            self.lemma_views();
            self.lemma_wf_agrees(*entity);
        }
        self.remote_world.remove(entity);
        self.close_key(entity);
        self.entity_channels.remove(entity);
        proof {
            assert(self.channels() =~= old(self).channels().remove(*entity));
            assert(self.channels().dom() =~= old(self).channels().dom().remove(*entity));
        }
        let ghost mid = *self;
        if self.host_world.contains_key(entity) {
            self.open_key(entity);
            self.entity_channels.insert(*entity, EntityChannel::Spawning);
            self.outgoing_actions.push(EntityActionEvent::SpawnEntity(*entity));
            proof {
                let n = old(self).to_net()[*entity];
                assert(mid.next_net_key() == old(self).key_after_return(n));
                assert(self.to_net() =~= old(self).to_net().insert(*entity, old(self).key_after_return(n)));
                assert(self.from_net() =~= old(self).from_net().remove(n).insert(old(self).key_after_return(n), *entity));
                assert(self.channels() =~= old(self).channels().insert(*entity, ChannelView::Spawning));
                assert(self.channels().dom() =~= old(self).channels().dom().remove(*entity).insert(*entity));
            }
        }
        proof {
            assert(self.remote() =~= old(self).remote().remove(*entity));
            lemma_worlds_step(old(self).host(), old(self).remote(), old(self).channels(), self.host(), self.remote(), self.channels(), *entity);
        }
    }

    /// The client acknowledged inserting `component` on `entity`. On a
    /// spawned channel the component channel, which was inserting, becomes
    /// `Inserted` and watched if the host still holds the component, else
    /// starts removing with a removal sent.
    pub fn remote_insert_component(&mut self, entity: &E, component: &ComponentKind)
        requires
            old(self).wf(),
            old(self).remote().contains_key(*entity),
            !old(self).remote()[*entity].contains(*component),
            is_spawned(old(self).channels(), *entity) ==> old(self).channels()[*entity]->Spawned_0.contains_key(component.0),
        ensures
            final(self).wf(),
            final(self).remote_insert_step(*old(self), *entity, *component),
    {
        proof {
            self.lemma_views();
            self.lemma_wf_agrees(*entity);
        }
        let mut rs = self.remote_world.remove(entity).unwrap();
        rs.insert(*component);
        self.remote_world.insert(*entity, rs);
        let ch = self.entity_channels.remove(entity);
        match ch {
            Some(EntityChannel::Spawned(mut cc)) => {
                let host_has = self.host_world.get(entity).unwrap().contains(component);
                if host_has {
                    cc.insert(component.0, ComponentChannel::Inserted);
                    self.entity_channels.insert(*entity, EntityChannel::Spawned(cc));
                    self.watch(*entity, *component);
                } else {
                    cc.insert(component.0, ComponentChannel::Removing);
                    self.entity_channels.insert(*entity, EntityChannel::Spawned(cc));
                    self.outgoing_actions.push(EntityActionEvent::RemoveComponent(*entity, *component));
                    self.unwatch(*entity, *component);
                }
            },
            Some(other) => {
                self.entity_channels.insert(*entity, other);
            },
            None => {},
        }
        proof {
            let k = *component;
            let r0 = old(self).remote();
            let ch0 = old(self).channels();
            assert(self.remote() =~= r0.insert(*entity, r0[*entity].insert(k)));
            assert(self.host() =~= old(self).host());
            if is_spawned(ch0, *entity) {
                let cc0 = ch0[*entity]->Spawned_0;
                let v = if old(self).host()[*entity].contains(k) { ComponentChannel::Inserted } else { ComponentChannel::Removing };
                assert(self.channels() =~= ch0.insert(*entity, ChannelView::Spawned(cc0.insert(k.0, v))));
                lemma_component_acknowledged(old(self).host()[*entity], r0[*entity], cc0, k, v);
            } else {
                assert(self.channels() =~= ch0);
            }
            assert(self.channels().dom() =~= ch0.dom());
            lemma_worlds_step(old(self).host(), r0, ch0, self.host(), self.remote(), self.channels(), *entity);
        }
    }

    /// The client acknowledged removing `component` from `entity`. On a
    /// spawned channel the component channel, which was removing, closes; if
    /// the host holds the component again, an insert is sent.
    pub fn remote_remove_component(&mut self, entity: &E, component: &ComponentKind)
        requires
            old(self).wf(),
            old(self).remote().contains_key(*entity),
            old(self).remote()[*entity].contains(*component),
            is_spawned(old(self).channels(), *entity) ==>
                old(self).channels()[*entity]->Spawned_0[component.0] == ComponentChannel::Removing,
        ensures
            final(self).wf(),
            final(self).remote_remove_step(*old(self), *entity, *component),
    {
        proof {
            self.lemma_views();
            self.lemma_wf_agrees(*entity);
        }
        let mut rs = self.remote_world.remove(entity).unwrap();
        rs.remove(component);
        self.remote_world.insert(*entity, rs);
        let ch = self.entity_channels.remove(entity);
        match ch {
            Some(EntityChannel::Spawned(mut cc)) => {
                cc.remove(&component.0);
                let host_has = self.host_world.get(entity).unwrap().contains(component);
                if host_has {
                    cc.insert(component.0, ComponentChannel::Inserting);
                    self.outgoing_actions.push(EntityActionEvent::InsertComponent(*entity, *component));
                }
                self.entity_channels.insert(*entity, EntityChannel::Spawned(cc));
            },
            Some(other) => {
                self.entity_channels.insert(*entity, other);
            },
            None => {},
        }
        proof {
            let k = *component;
            let r0 = old(self).remote();
            let ch0 = old(self).channels();
            assert(self.remote() =~= r0.insert(*entity, r0[*entity].remove(k)));
            assert(self.host() =~= old(self).host());
            if is_spawned(ch0, *entity) {
                let cc0 = ch0[*entity]->Spawned_0;
                if old(self).host()[*entity].contains(k) {
                    assert(cc0.remove(k.0).insert(k.0, ComponentChannel::Inserting) =~= cc0.insert(k.0, ComponentChannel::Inserting));
                    assert(self.channels() =~= ch0.insert(*entity, ChannelView::Spawned(cc0.insert(k.0, ComponentChannel::Inserting))));
                } else {
                    assert(self.channels() =~= ch0.insert(*entity, ChannelView::Spawned(cc0.remove(k.0))));
                }
                lemma_component_removal_acknowledged(old(self).host()[*entity], r0[*entity], cc0, k);
            } else {
                assert(self.channels() =~= ch0);
            }
            assert(self.channels().dom() =~= ch0.dom());
            lemma_worlds_step(old(self).host(), r0, ch0, self.host(), self.remote(), self.channels(), *entity);
        }
    }

    /// The client acknowledged spawning `entity`, whose channel is spawning,
    /// and reported holding the components `inserted`. If the host still
    /// holds the entity the channel is spawned: each host component the
    /// client lacks gets an insert (in host order); each reported component
    /// the host holds is `Inserted` and watched; each reported component the
    /// host no longer holds starts removing, with a removal sent (in the
    /// reported order); the entity becomes a message entity. Otherwise the
    /// channel starts despawning with a despawn sent.
    pub fn remote_spawn_entity(&mut self, entity: &E, inserted: &Vec<ComponentKind>)
        requires
            old(self).wf(),
            !old(self).remote().contains_key(*entity),
            old(self).channels().contains_key(*entity),
            old(self).channels()[*entity] is Spawning,
        ensures
            final(self).wf(),
            final(self).remote_spawn_step(*old(self), *entity, inserted@),
    {
        proof {
            self.lemma_views();
            self.lemma_wf_agrees(*entity);
        }
        let mut rs = KindSet::new();
        let mut j: usize = 0;
        while j < inserted.len()
            invariant
                j <= inserted@.len(),
                rs.wf(),
                rs@ == inserted@.take(j as int).to_set(),
            decreases inserted@.len() - j,
        {
            rs.insert(inserted[j]);
            proof {
                assert(inserted@.take(j + 1) =~= inserted@.take(j as int).push(inserted@[j as int]));
                inserted@.take(j as int).lemma_push_to_set_commute(inserted@[j as int]);
            }
            j += 1;
        }
        proof {
            assert(inserted@.take(inserted@.len() as int) =~= inserted@);
        }
        self.entity_channels.remove(entity);
        if self.host_world.contains_key(entity) {
            let host_ks = self.host_world.get(entity).unwrap().to_vec();
            let ghost before = *self;
            let ghost h = old(self).host()[*entity];
            proof {
                self.host_world@[*entity].lemma_order_matches();
                assert(host_ks@.to_set() == h);
            }
            let mut cc: HashMap<u16, ComponentChannel> = HashMap::new();
            let mut i: usize = 0;
            while i < host_ks.len()
                invariant
                    i <= host_ks@.len(),
                    rs@ == inserted@.to_set(),
                    cc@ == spawned_components(host_ks@.take(i as int).to_set(), Set::empty()),
                    self.outgoing_actions@ == before.outgoing_actions@ + missing_inserts(*entity, host_ks@.take(i as int), inserted@),
                    self.host_world == before.host_world,
                    self.remote_world == before.remote_world,
                    self.entity_channels == before.entity_channels,
                    self.diff_handler == before.diff_handler,
                    self.message_entities == before.message_entities,
                    self.net_entity_generator == before.net_entity_generator,
                    self.entity_to_net_entity_map == before.entity_to_net_entity_map,
                    self.net_entity_to_entity_map == before.net_entity_to_entity_map,
                decreases host_ks@.len() - i,
            {
                let k = host_ks[i];
                let ghost c0 = cc@;
                let ghost o0 = self.outgoing_actions@;
                cc.insert(k.0, ComponentChannel::Inserting);
                let reported = rs.contains(&k);
                if !reported {
                    self.outgoing_actions.push(EntityActionEvent::InsertComponent(*entity, k));
                }
                proof {
                    let s0 = host_ks@.take(i as int);
                    assert(host_ks@.take(i + 1) =~= s0.push(k));
                    s0.lemma_push_to_set_commute(k);
                    assert(ComponentKind(k.0) == k);
                    assert(cc@ =~= spawned_components(host_ks@.take(i + 1).to_set(), Set::empty()));
                    let p = |x: ComponentKind| !inserted@.contains(x);
                    let f = |x: ComponentKind| EntityActionEvent::InsertComponent(*entity, x);
                    s0.lemma_filter_push(k, p);
                    s0.filter(p).lemma_push_map_commute(f, k);
                    assert(inserted@.to_set().contains(k) == inserted@.contains(k));
                    if !reported {
                        assert(self.outgoing_actions@ =~= before.outgoing_actions@ + missing_inserts(*entity, host_ks@.take(i + 1), inserted@));
                    } else {
                        assert(missing_inserts(*entity, host_ks@.take(i + 1), inserted@) =~= missing_inserts(*entity, s0, inserted@));
                    }
                }
                i += 1;
            }
            proof {
                assert(host_ks@.take(host_ks@.len() as int) =~= host_ks@);
                assert(inserted@.take(0).to_set() =~= Set::<ComponentKind>::empty());
                assert(self.host_world@[*entity]@ == h);
            }
            let mut j: usize = 0;
            while j < inserted.len()
                invariant
                    obeys_key_model::<E>(),
                    j <= inserted@.len(),
                    self.host_world@.contains_key(*entity),
                    self.host_world@[*entity]@ == h,
                    cc@ == spawned_components(h, inserted@.take(j as int).to_set()),
                    self.outgoing_actions@ == before.outgoing_actions@ + missing_inserts(*entity, host_ks@, inserted@)
                        + unwanted_removals(*entity, h, inserted@.take(j as int)),
                    forall|x: E| #[trigger] self.diff_handler@.contains_key(x) ==> self.diff_handler@[x].wf(),
                    self.watched() == before.watched().union(pairs(*entity, inserted@.take(j as int).to_set().intersect(h)))
                        .difference(pairs(*entity, inserted@.take(j as int).to_set().difference(h))),
                    self.host_world == before.host_world,
                    self.remote_world == before.remote_world,
                    self.entity_channels == before.entity_channels,
                    self.message_entities == before.message_entities,
                    self.net_entity_generator == before.net_entity_generator,
                    self.entity_to_net_entity_map == before.entity_to_net_entity_map,
                    self.net_entity_to_entity_map == before.net_entity_to_entity_map,
                decreases inserted@.len() - j,
            {
                let k = inserted[j];
                let ghost w0 = self.watched();
                let ghost o0 = self.outgoing_actions@;
                let host_has = self.host_world.get(entity).unwrap().contains(&k);
                if host_has {
                    cc.insert(k.0, ComponentChannel::Inserted);
                    self.watch(*entity, k);
                } else {
                    cc.insert(k.0, ComponentChannel::Removing);
                    self.outgoing_actions.push(EntityActionEvent::RemoveComponent(*entity, k));
                    self.unwatch(*entity, k);
                }
                proof {
                    let s0 = inserted@.take(j as int);
                    assert(inserted@.take(j + 1) =~= s0.push(k));
                    s0.lemma_push_to_set_commute(k);
                    assert(ComponentKind(k.0) == k);
                    assert(cc@ =~= spawned_components(h, inserted@.take(j + 1).to_set()));
                    let p = |x: ComponentKind| !h.contains(x);
                    let f = |x: ComponentKind| EntityActionEvent::RemoveComponent(*entity, x);
                    s0.lemma_filter_push(k, p);
                    s0.filter(p).lemma_push_map_commute(f, k);
                    let a1 = pairs(*entity, inserted@.take(j + 1).to_set().intersect(h));
                    let b1 = pairs(*entity, inserted@.take(j + 1).to_set().difference(h));
                    assert(self.watched() =~= before.watched().union(a1).difference(b1));
                    if !host_has {
                        assert(self.outgoing_actions@ =~= before.outgoing_actions@ + missing_inserts(*entity, host_ks@, inserted@)
                            + unwanted_removals(*entity, h, inserted@.take(j + 1)));
                    } else {
                        assert(unwanted_removals(*entity, h, inserted@.take(j + 1)) =~= unwanted_removals(*entity, h, s0));
                    }
                }
                j += 1;
            }
            self.entity_channels.insert(*entity, EntityChannel::Spawned(cc));
            self.message_entities.insert(*entity);
            proof {
                assert(inserted@.take(inserted@.len() as int) =~= inserted@);
                assert(host_ks@ == old(self).host_order()[*entity]);
            }
        } else {
            self.entity_channels.insert(*entity, EntityChannel::Despawning);
            self.outgoing_actions.push(EntityActionEvent::DespawnEntity(*entity));
            self.message_entities.remove(entity);
        }
        self.remote_world.insert(*entity, rs);
        proof {
            let ch0 = old(self).channels();
            assert(self.remote() =~= old(self).remote().insert(*entity, inserted@.to_set()));
            assert(self.host() =~= old(self).host());
            assert(self.host_order() =~= old(self).host_order());
            if old(self).host().contains_key(*entity) {
                let h = old(self).host()[*entity];
                assert(self.channels() =~= ch0.insert(*entity, ChannelView::Spawned(spawned_components(h, inserted@.to_set()))));
                lemma_spawned_components_agree(h, inserted@.to_set());
            } else {
                assert(self.channels() =~= ch0.insert(*entity, ChannelView::Despawning));
            }
            assert(self.channels().dom() =~= ch0.dom());
            lemma_worlds_step(old(self).host(), old(self).remote(), ch0, self.host(), self.remote(), self.channels(), *entity);
        }
    }

    /// Whether a delivered action can be applied: it acknowledges a step
    /// that is in flight on its entity's or component's channel.
    pub open spec fn can_apply(self, action: ActionView<E>) -> bool {
        match action {
            ActionView::SpawnEntity(e, _) => {
                &&& !self.remote().contains_key(e)
                &&& self.channels().contains_key(e)
                &&& self.channels()[e] is Spawning
            },
            ActionView::DespawnEntity(e) => {
                &&& self.remote().contains_key(e)
                &&& self.channels()[e] is Despawning
            },
            ActionView::InsertComponent(e, k) => {
                &&& self.remote().contains_key(e)
                &&& !self.remote()[e].contains(k)
                &&& is_spawned(self.channels(), e) ==> self.channels()[e]->Spawned_0.contains_key(k.0)
            },
            ActionView::RemoveComponent(e, k) => {
                &&& self.remote().contains_key(e)
                &&& self.remote()[e].contains(k)
                &&& is_spawned(self.channels(), e) ==> self.channels()[e]->Spawned_0[k.0] == ComponentChannel::Removing
            },
            ActionView::Noop => true,
        }
    }

    /// What applying a delivered action leaves behind, starting from `before`.
    pub open spec fn apply_step(self, before: Self, action: ActionView<E>) -> bool {
        match action {
            ActionView::SpawnEntity(e, ks) => self.remote_spawn_step(before, e, ks),
            ActionView::DespawnEntity(e) => self.remote_despawn_step(before, e),
            ActionView::InsertComponent(e, k) => self.remote_insert_step(before, e, k),
            ActionView::RemoveComponent(e, k) => self.remote_remove_step(before, e, k),
            ActionView::Noop => self == before,
        }
    }

    /// Whether an acknowledged action fits the channel's current state, so
    /// that [`Self::apply_delivered_action`] can apply it.
    pub fn action_applies(&self, action: &ActionRecord<E>) -> (r: bool)
        requires
            self.wf(),
        ensures
            r == self.can_apply(action@),
    {
        proof {
            self.lemma_views();
        }
        match action {
            ActionRecord::SpawnEntity(e, _) => {
                proof {
                    self.lemma_wf_agrees(*e);
                }
                !self.remote_world.contains_key(e) && match self.entity_channels.get(e) {
                    Some(EntityChannel::Spawning) => true,
                    _ => false,
                }
            },
            ActionRecord::DespawnEntity(e) => {
                proof {
                    self.lemma_wf_agrees(*e);
                }
                self.remote_world.contains_key(e) && match self.entity_channels.get(e) {
                    Some(EntityChannel::Despawning) => true,
                    _ => false,
                }
            },
            ActionRecord::InsertComponent(e, k) => {
                proof {
                    self.lemma_wf_agrees(*e);
                }
                match self.remote_world.get(e) {
                    None => false,
                    Some(kinds) => {
                        !kinds.contains(k) && match self.entity_channels.get(e) {
                            Some(EntityChannel::Spawned(cc)) => cc.contains_key(&k.0),
                            _ => true,
                        }
                    },
                }
            },
            ActionRecord::RemoveComponent(e, k) => {
                proof {
                    self.lemma_wf_agrees(*e);
                }
                match self.remote_world.get(e) {
                    None => false,
                    Some(kinds) => {
                        kinds.contains(k) && match self.entity_channels.get(e) {
                            Some(EntityChannel::Spawned(cc)) => match cc.get(&k.0) {
                                Some(ComponentChannel::Removing) => true,
                                _ => false,
                            },
                            _ => true,
                        }
                    },
                }
            },
            ActionRecord::Noop => true,
        }
    }

    /// Applies an action the client acknowledged.
    pub fn apply_delivered_action(&mut self, action: &ActionRecord<E>)
        requires
            old(self).wf(),
            old(self).can_apply(action@),
        ensures
            final(self).wf(),
            final(self).apply_step(*old(self), action@),
    {
        match action {
            ActionRecord::SpawnEntity(e, ks) => self.remote_spawn_entity(e, ks),
            ActionRecord::DespawnEntity(e) => self.remote_despawn_entity(e),
            ActionRecord::InsertComponent(e, k) => self.remote_insert_component(e, k),
            ActionRecord::RemoveComponent(e, k) => self.remote_remove_component(e, k),
            ActionRecord::Noop => {},
        }
    }

}

pub proof fn lemma_push_contains<A>(s: Seq<A>, v: A, x: A)
    ensures
        s.push(v).contains(x) <==> (s.contains(x) || x == v),
{
    if s.push(v).contains(x) {
        let j = choose|j: int| 0 <= j < s.push(v).len() && s.push(v)[j] == x;
        if j < s.len() {
            assert(s[j] == x);
        }
    }
    if s.contains(x) {
        let j = choose|j: int| 0 <= j < s.len() && s[j] == x;
        assert(s.push(v)[j] == x);
    }
    assert(s.push(v)[s.len() as int] == v);
}

/// The kinds among `ks` whose component channel is `Inserted`.
pub open spec fn inserted_among(ks: Seq<u16>, cc: Map<u16, ComponentChannel>) -> Set<ComponentKind> {
    Set::new(|k: ComponentKind| ks.contains(k.0) && cc.contains_key(k.0) && cc[k.0] == ComponentChannel::Inserted)
}

/// Adding `k` on the host opens a component channel: `e`'s channel is
/// spawned and has none for `k`.
pub open spec fn opens_component<E>(channels: Map<E, ChannelView>, e: E, k: ComponentKind) -> bool {
    &&& channels.contains_key(e)
    &&& channels[e] is Spawned
    &&& !channels[e]->Spawned_0.contains_key(k.0)
}

/// Removing `k` on the host closes a component channel: `e`'s channel is
/// spawned and `k`'s is `Inserted`.
pub open spec fn closes_component<E>(channels: Map<E, ChannelView>, e: E, k: ComponentKind) -> bool {
    &&& channels.contains_key(e)
    &&& channels[e] is Spawned
    &&& channels[e]->Spawned_0.contains_key(k.0)
    &&& channels[e]->Spawned_0[k.0] == ComponentChannel::Inserted
}

/// Changing one entity keeps every channel in agreement when that entity
/// agrees afterwards.
proof fn lemma_worlds_step<E>(
    h: Map<E, Set<ComponentKind>>,
    r: Map<E, Set<ComponentKind>>,
    ch: Map<E, ChannelView>,
    h2: Map<E, Set<ComponentKind>>,
    r2: Map<E, Set<ComponentKind>>,
    ch2: Map<E, ChannelView>,
    e: E,
)
    requires
        worlds_agree(h, r, ch),
        forall|x: E| #![trigger h2.contains_key(x)] x != e ==> h2.contains_key(x) == h.contains_key(x)
            && (h.contains_key(x) ==> h2[x] == h[x]),
        forall|x: E| #![trigger r2.contains_key(x)] x != e ==> r2.contains_key(x) == r.contains_key(x)
            && (r.contains_key(x) ==> r2[x] == r[x]),
        forall|x: E| #![trigger ch2.contains_key(x)] x != e ==> ch2.contains_key(x) == ch.contains_key(x)
            && (ch.contains_key(x) ==> ch2[x] == ch[x]),
        entity_agrees(h2, r2, ch2, e),
    ensures
        worlds_agree(h2, r2, ch2),
{
    assert forall|x: E| #[trigger] entity_agrees(h2, r2, ch2, x) by {
        if x != e {
            assert(entity_agrees(h, r, ch, x));
            assert(h2.contains_key(x) == h.contains_key(x));
            assert(r2.contains_key(x) == r.contains_key(x));
            assert(ch2.contains_key(x) == ch.contains_key(x));
        }
    }
}

proof fn lemma_component_opened(h: Set<ComponentKind>, r: Set<ComponentKind>, cc: Map<u16, ComponentChannel>, k: ComponentKind)
    requires
        components_agree(h, r, cc),
        !cc.contains_key(k.0),
    ensures
        components_agree(h.insert(k), r, cc.insert(k.0, ComponentChannel::Inserting)),
{
    let cc2 = cc.insert(k.0, ComponentChannel::Inserting);
    assert forall|c: u16| #![trigger cc2.contains_key(c)] {
        &&& (r.contains(ComponentKind(c)) <==> (cc2.contains_key(c) && cc2[c] != ComponentChannel::Inserting))
        &&& (h.insert(k).contains(ComponentKind(c)) ==> cc2.contains_key(c))
        &&& (cc2.contains_key(c) && cc2[c] == ComponentChannel::Inserted ==> h.insert(k).contains(ComponentKind(c)))
    } by {
        assert(cc.contains_key(c) ==> cc[c] == cc[c]);
        assert(r.contains(ComponentKind(c)) <==> (cc.contains_key(c) && cc[c] != ComponentChannel::Inserting));
        assert(h.contains(ComponentKind(c)) ==> cc.contains_key(c));
    }
}

proof fn lemma_component_held(h: Set<ComponentKind>, r: Set<ComponentKind>, cc: Map<u16, ComponentChannel>, k: ComponentKind)
    requires
        components_agree(h, r, cc),
        cc.contains_key(k.0),
    ensures
        components_agree(h.insert(k), r, cc),
{
    assert forall|c: u16| #![trigger cc.contains_key(c)] {
        &&& (r.contains(ComponentKind(c)) <==> (cc.contains_key(c) && cc[c] != ComponentChannel::Inserting))
        &&& (h.insert(k).contains(ComponentKind(c)) ==> cc.contains_key(c))
        &&& (cc.contains_key(c) && cc[c] == ComponentChannel::Inserted ==> h.insert(k).contains(ComponentKind(c)))
    } by {
        assert(r.contains(ComponentKind(c)) <==> (cc.contains_key(c) && cc[c] != ComponentChannel::Inserting));
        assert(h.contains(ComponentKind(c)) ==> cc.contains_key(c));
    }
}

proof fn lemma_component_closed(h: Set<ComponentKind>, r: Set<ComponentKind>, cc: Map<u16, ComponentChannel>, k: ComponentKind)
    requires
        components_agree(h, r, cc),
        cc.contains_key(k.0),
        cc[k.0] == ComponentChannel::Inserted,
    ensures
        components_agree(h.remove(k), r, cc.insert(k.0, ComponentChannel::Removing)),
{
    let cc2 = cc.insert(k.0, ComponentChannel::Removing);
    assert forall|c: u16| #![trigger cc2.contains_key(c)] {
        &&& (r.contains(ComponentKind(c)) <==> (cc2.contains_key(c) && cc2[c] != ComponentChannel::Inserting))
        &&& (h.remove(k).contains(ComponentKind(c)) ==> cc2.contains_key(c))
        &&& (cc2.contains_key(c) && cc2[c] == ComponentChannel::Inserted ==> h.remove(k).contains(ComponentKind(c)))
    } by {
        assert(r.contains(ComponentKind(c)) <==> (cc.contains_key(c) && cc[c] != ComponentChannel::Inserting));
        assert(h.contains(ComponentKind(c)) ==> cc.contains_key(c));
        assert(cc.contains_key(c) && cc[c] == ComponentChannel::Inserted ==> h.contains(ComponentKind(c)));
    }
}

proof fn lemma_component_dropped(h: Set<ComponentKind>, r: Set<ComponentKind>, cc: Map<u16, ComponentChannel>, k: ComponentKind)
    requires
        components_agree(h, r, cc),
        !(cc.contains_key(k.0) && cc[k.0] == ComponentChannel::Inserted),
    ensures
        components_agree(h.remove(k), r, cc),
{
    assert forall|c: u16| #![trigger cc.contains_key(c)] {
        &&& (r.contains(ComponentKind(c)) <==> (cc.contains_key(c) && cc[c] != ComponentChannel::Inserting))
        &&& (h.remove(k).contains(ComponentKind(c)) ==> cc.contains_key(c))
        &&& (cc.contains_key(c) && cc[c] == ComponentChannel::Inserted ==> h.remove(k).contains(ComponentKind(c)))
    } by {
        assert(r.contains(ComponentKind(c)) <==> (cc.contains_key(c) && cc[c] != ComponentChannel::Inserting));
        assert(h.contains(ComponentKind(c)) ==> cc.contains_key(c));
        assert(cc.contains_key(c) && cc[c] == ComponentChannel::Inserted ==> h.contains(ComponentKind(c)));
    }
}

/// `e` has a spawned channel.
pub open spec fn is_spawned<E>(channels: Map<E, ChannelView>, e: E) -> bool {
    channels.contains_key(e) && channels[e] is Spawned
}

proof fn lemma_component_acknowledged(
    h: Set<ComponentKind>,
    r: Set<ComponentKind>,
    cc: Map<u16, ComponentChannel>,
    k: ComponentKind,
    v: ComponentChannel,
)
    requires
        components_agree(h, r, cc),
        !r.contains(k),
        cc.contains_key(k.0),
        v == (if h.contains(k) { ComponentChannel::Inserted } else { ComponentChannel::Removing }),
    ensures
        components_agree(h, r.insert(k), cc.insert(k.0, v)),
{
    let cc2 = cc.insert(k.0, v);
    assert forall|c: u16| #![trigger cc2.contains_key(c)] {
        &&& (r.insert(k).contains(ComponentKind(c)) <==> (cc2.contains_key(c) && cc2[c] != ComponentChannel::Inserting))
        &&& (h.contains(ComponentKind(c)) ==> cc2.contains_key(c))
        &&& (cc2.contains_key(c) && cc2[c] == ComponentChannel::Inserted ==> h.contains(ComponentKind(c)))
    } by {
        assert(r.contains(ComponentKind(c)) <==> (cc.contains_key(c) && cc[c] != ComponentChannel::Inserting));
        assert(h.contains(ComponentKind(c)) ==> cc.contains_key(c));
        assert(cc.contains_key(c) && cc[c] == ComponentChannel::Inserted ==> h.contains(ComponentKind(c)));
        if c == k.0 {
            assert(ComponentKind(c) == k);
        }
    }
}

proof fn lemma_component_removal_acknowledged(
    h: Set<ComponentKind>,
    r: Set<ComponentKind>,
    cc: Map<u16, ComponentChannel>,
    k: ComponentKind,
)
    requires
        components_agree(h, r, cc),
        r.contains(k),
        cc.contains_key(k.0) ==> cc[k.0] == ComponentChannel::Removing,
    ensures
        h.contains(k) ==> components_agree(h, r.remove(k), cc.insert(k.0, ComponentChannel::Inserting)),
        !h.contains(k) ==> components_agree(h, r.remove(k), cc.remove(k.0)),
{
    let cc2 = if h.contains(k) { cc.insert(k.0, ComponentChannel::Inserting) } else { cc.remove(k.0) };
    assert forall|c: u16| #![trigger cc2.contains_key(c)] {
        &&& (r.remove(k).contains(ComponentKind(c)) <==> (cc2.contains_key(c) && cc2[c] != ComponentChannel::Inserting))
        &&& (h.contains(ComponentKind(c)) ==> cc2.contains_key(c))
        &&& (cc2.contains_key(c) && cc2[c] == ComponentChannel::Inserted ==> h.contains(ComponentKind(c)))
    } by {
        assert(r.contains(ComponentKind(c)) <==> (cc.contains_key(c) && cc[c] != ComponentChannel::Inserting));
        assert(h.contains(ComponentKind(c)) ==> cc.contains_key(c));
        assert(cc.contains_key(c) && cc[c] == ComponentChannel::Inserted ==> h.contains(ComponentKind(c)));
        if c == k.0 {
            assert(ComponentKind(c) == k);
        }
    }
    assert(r.contains(ComponentKind(k.0)));
}

/// The component channels of an entity just acknowledged as spawned, with
/// host components `host` and reported components `inserted`: a reported
/// component is `Inserted` if the host holds it and `Removing` otherwise; a
/// host component not reported is `Inserting`.
pub open spec fn spawned_components(host: Set<ComponentKind>, inserted: Set<ComponentKind>) -> Map<u16, ComponentChannel> {
    Map::new(
        |c: u16| host.contains(ComponentKind(c)) || inserted.contains(ComponentKind(c)),
        |c: u16|
            if inserted.contains(ComponentKind(c)) {
                if host.contains(ComponentKind(c)) {
                    ComponentChannel::Inserted
                } else {
                    ComponentChannel::Removing
                }
            } else {
                ComponentChannel::Inserting
            },
    )
}

proof fn lemma_spawned_components_agree(h: Set<ComponentKind>, ins: Set<ComponentKind>)
    ensures
        components_agree(h, ins, spawned_components(h, ins)),
{
    let cc = spawned_components(h, ins);
    assert forall|c: u16| #![trigger cc.contains_key(c)] {
        &&& (ins.contains(ComponentKind(c)) <==> (cc.contains_key(c) && cc[c] != ComponentChannel::Inserting))
        &&& (h.contains(ComponentKind(c)) ==> cc.contains_key(c))
        &&& (cc.contains_key(c) && cc[c] == ComponentChannel::Inserted ==> h.contains(ComponentKind(c)))
    } by {}
}

} // verus!
