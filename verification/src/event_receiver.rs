//! Fan-out of one tick's received events into per-type buffers that the
//! simulation drains by type.

use std::hash::Hash;

use vstd::prelude::*;

use crate::coord::{CoordHandle, DisconnectReason};
use crate::keys::{Address, ChannelKind, GlobalEntity, MessageKind, UserKey};
use crate::world_manager::EntityOwner;

verus! {

/// A server tick number.
pub type Tick = u16;

/// A user finished connecting.
#[derive(Clone, Copy, PartialEq, Eq, Debug, Structural)]
pub struct RecvConnectEvent {
    pub user_key: UserKey,
}

/// A user disconnected.
#[derive(Clone, Copy, PartialEq, Eq, Debug, Structural)]
pub struct RecvDisconnectEvent {
    pub user_key: UserKey,
    pub address: Address,
    pub reason: DisconnectReason,
}

/// A receive error, as text.
#[derive(Clone, PartialEq, Eq, Debug)]
pub struct RecvErrorEvent {
    pub error: String,
}

/// A tick elapsed.
#[derive(Clone, Copy, PartialEq, Eq, Debug, Structural)]
pub struct RecvTickEvent(pub Tick);

/// A client spawned an entity it owns.
#[derive(Clone, Copy, PartialEq, Eq, Debug, Structural)]
pub struct RecvSpawnEntityEvent<E> {
    pub user_key: UserKey,
    pub entity: E,
}

/// An entity was despawned on a client's behalf.
#[derive(Clone, Copy, PartialEq, Eq, Debug, Structural)]
pub struct RecvDespawnEntityEvent<E> {
    pub user_key: UserKey,
    pub entity: E,
}

/// A client published an entity.
#[derive(Clone, Copy, PartialEq, Eq, Debug, Structural)]
pub struct RecvPublishEntityEvent<E> {
    pub user_key: UserKey,
    pub entity: E,
}

/// A client unpublished an entity.
#[derive(Clone, Copy, PartialEq, Eq, Debug, Structural)]
pub struct RecvUnpublishEntityEvent<E> {
    pub user_key: UserKey,
    pub entity: E,
}

/// A connection-lifecycle event taken out of a receive pass's output.
#[derive(Clone, PartialEq, Eq, Debug)]
pub enum RecvLifecycleEvent {
    /// The handshake completed and the user key is valid.
    Connected { user_key: UserKey },
    /// The user disconnected.
    Disconnected { user_key: UserKey, address: Address, reason: DisconnectReason },
    /// A receive error.
    RecvError { error: String },
}

/// The lifecycle events of `connects`, `disconnects` and `errors`, in that
/// order, each list in arrival order.
pub open spec fn lifecycle_events(
    connects: Seq<UserKey>,
    disconnects: Seq<(UserKey, Address, DisconnectReason)>,
    errors: Seq<String>,
) -> Seq<RecvLifecycleEvent> {
    connects.map_values(|u: UserKey| RecvLifecycleEvent::Connected { user_key: u })
        + disconnects.map_values(
        |d: (UserKey, Address, DisconnectReason)|
            RecvLifecycleEvent::Disconnected { user_key: d.0, address: d.1, reason: d.2 },
    ) + errors.map_values(|e: String| RecvLifecycleEvent::RecvError { error: e })
}

/// Moves the connect, disconnect and error events out of `output` into one
/// list: connects first, then disconnects, then errors. The other event
/// lists are left as they are.
pub fn drain_lifecycle<E>(output: &mut ReceiveOutput<E>) -> (r: Vec<RecvLifecycleEvent>)
    ensures
        r@ == lifecycle_events(old(output).connects@, old(output).disconnects@, old(output).errors@),
        final(output).connects@.len() == 0,
        final(output).disconnects@.len() == 0,
        final(output).errors@.len() == 0,
        final(output).pending_ticks == old(output).pending_ticks,
        final(output).spawns == old(output).spawns,
        final(output).despawns == old(output).despawns,
        final(output).publishes == old(output).publishes,
        final(output).unpublishes == old(output).unpublishes,
        final(output).messages == old(output).messages,
{
    let mut connects: Vec<UserKey> = Vec::new();
    let mut disconnects: Vec<(UserKey, Address, DisconnectReason)> = Vec::new();
    let mut errors: Vec<String> = Vec::new();
    std::mem::swap(&mut connects, &mut output.connects);
    std::mem::swap(&mut disconnects, &mut output.disconnects);
    std::mem::swap(&mut errors, &mut output.errors);
    let mut events: Vec<RecvLifecycleEvent> = Vec::new();
    let mut i: usize = 0;
    while i < connects.len()
        invariant
            i <= connects@.len(),
            events@ == connects@.take(i as int).map_values(|u: UserKey| RecvLifecycleEvent::Connected { user_key: u }),
        decreases connects@.len() - i,
    {
        events.push(RecvLifecycleEvent::Connected { user_key: connects[i] });
        proof {
            assert(connects@.take(i + 1) =~= connects@.take(i as int).push(connects@[i as int]));
            connects@.take(i as int).lemma_push_map_commute(|u: UserKey| RecvLifecycleEvent::Connected { user_key: u }, connects@[i as int]);
        }
        i += 1;
    }
    proof {
        assert(connects@.take(connects@.len() as int) =~= connects@);
    }
    let ghost first = events@;
    let mut j: usize = 0;
    while j < disconnects.len()
        invariant
            j <= disconnects@.len(),
            events@ == first + disconnects@.take(j as int).map_values(
                |d: (UserKey, Address, DisconnectReason)|
                    RecvLifecycleEvent::Disconnected { user_key: d.0, address: d.1, reason: d.2 },
            ),
        decreases disconnects@.len() - j,
    {
        let d = disconnects[j];
        events.push(RecvLifecycleEvent::Disconnected { user_key: d.0, address: d.1, reason: d.2 });
        proof {
            let f = |d: (UserKey, Address, DisconnectReason)|
                RecvLifecycleEvent::Disconnected { user_key: d.0, address: d.1, reason: d.2 };
            assert(disconnects@.take(j + 1) =~= disconnects@.take(j as int).push(disconnects@[j as int]));
            disconnects@.take(j as int).lemma_push_map_commute(f, disconnects@[j as int]);
            assert(events@ =~= first + disconnects@.take(j + 1).map_values(f));
        }
        j += 1;
    }
    proof {
        assert(disconnects@.take(disconnects@.len() as int) =~= disconnects@);
    }
    let ghost second = events@;
    let mut k: usize = 0;
    while k < errors.len()
        invariant
            k <= errors@.len(),
            events@ == second + errors@.take(k as int).map_values(|e: String| RecvLifecycleEvent::RecvError { error: e }),
        decreases errors@.len() - k,
    {
        let e = errors[k].clone();
        events.push(RecvLifecycleEvent::RecvError { error: e });
        proof {
            let f = |e: String| RecvLifecycleEvent::RecvError { error: e };
            assert(errors@.take(k + 1) =~= errors@.take(k as int).push(errors@[k as int]));
            errors@.take(k as int).lemma_push_map_commute(f, errors@[k as int]);
            assert(events@ =~= second + errors@.take(k + 1).map_values(f));
        }
        k += 1;
    }
    proof {
        assert(errors@.take(errors@.len() as int) =~= errors@);
    }
    events
}

/// A message as received: its channel, its type, its sender and its bytes.
pub type ReceivedMessage = (ChannelKind, MessageKind, UserKey, Vec<u8>);

/// Everything one receive pass produced, by event type, each in arrival order.
pub struct ReceiveOutput<E> {
    pub pending_ticks: Vec<Tick>,
    pub connects: Vec<UserKey>,
    pub disconnects: Vec<(UserKey, Address, DisconnectReason)>,
    pub errors: Vec<String>,
    pub spawns: Vec<(UserKey, E)>,
    pub despawns: Vec<(UserKey, E)>,
    pub publishes: Vec<(UserKey, E)>,
    pub unpublishes: Vec<(UserKey, E)>,
    pub messages: Vec<ReceivedMessage>,
}

impl<E> ReceiveOutput<E> {
    /// An output with no events.
    pub fn new() -> (r: Self)
        ensures
            r.pending_ticks@.len() == 0,
            r.connects@.len() == 0,
            r.disconnects@.len() == 0,
            r.errors@.len() == 0,
            r.spawns@.len() == 0,
            r.despawns@.len() == 0,
            r.publishes@.len() == 0,
            r.unpublishes@.len() == 0,
            r.messages@.len() == 0,
    {
        ReceiveOutput {
            pending_ticks: Vec::new(),
            connects: Vec::new(),
            disconnects: Vec::new(),
            errors: Vec::new(),
            spawns: Vec::new(),
            despawns: Vec::new(),
            publishes: Vec::new(),
            unpublishes: Vec::new(),
            messages: Vec::new(),
        }
    }
}

/// Whether `e` is a registered entity carrying a resource in `coord`.
pub open spec fn spec_is_resource<E: Copy + Eq + Hash>(coord: &CoordHandle<E>, e: E) -> bool {
    coord.to_global().contains_key(e) && exists|i: int|
        0 <= i < coord.state.resource_registry.entries().len()
            && #[trigger] coord.state.resource_registry.entries()[i].1 == GlobalEntity(coord.to_global()[e])
}

/// The owner `coord` records for `e`, `Local` when it has none.
pub open spec fn spec_owner<E: Copy + Eq + Hash>(coord: &CoordHandle<E>, e: E) -> EntityOwner {
    if coord.to_global().contains_key(e) && coord.records().contains_key(coord.to_global()[e]) {
        coord.records()[coord.to_global()[e]].owner
    } else {
        EntityOwner::Local
    }
}

/// The spawn events passed on: resource entities are hidden, and only
/// entities a client owns are reported, under their owner.
pub open spec fn spawn_events<E: Copy + Eq + Hash>(coord: &CoordHandle<E>, spawns: Seq<(UserKey, E)>) -> Seq<RecvSpawnEntityEvent<E>>
    decreases spawns.len(),
{
    if spawns.len() == 0 {
        Seq::empty()
    } else {
        let rest = spawn_events(coord, spawns.drop_last());
        let e = spawns.last().1;
        if !spec_is_resource(coord, e) && spec_owner(coord, e) is Client {
            rest.push(RecvSpawnEntityEvent { user_key: spec_owner(coord, e)->Client_0, entity: e })
        } else {
            rest
        }
    }
}

/// A received spawn of `e` is passed on, with `e` and under the client
/// that owns it, exactly when `e` is registered, its record says a client
/// owns it (and not yet publicly), and it is no resource entity; every other
/// spawn is passed over. Nothing is passed on for no spawns.
pub proof fn lemma_spawns_reported_for_client_owners<E: Copy + Eq + Hash>(
    coord: &CoordHandle<E>,
    spawns: Seq<(UserKey, E)>,
    spawn: (UserKey, E),
)
    ensures
        spawn_events(coord, Seq::empty()) == Seq::<RecvSpawnEntityEvent<E>>::empty(),
        ({
            let e = spawn.1;
            let g = coord.to_global()[e];
            let entries = coord.state.resource_registry.entries();
            let reported = coord.to_global().contains_key(e) && coord.records().contains_key(g)
                && coord.records()[g].owner is Client && !(exists|i: int|
                0 <= i < entries.len() && #[trigger] entries[i].1 == GlobalEntity(g));
            &&& reported ==> spawn_events(coord, spawns.push(spawn)) == spawn_events(coord, spawns).push(
                RecvSpawnEntityEvent { user_key: coord.records()[g].owner->Client_0, entity: e },
            )
            &&& !reported ==> spawn_events(coord, spawns.push(spawn)) == spawn_events(coord, spawns)
        }),
{
    assert(spawns.push(spawn).drop_last() =~= spawns);
}

/// A received despawn of `e` by `u` is passed on as it came exactly when
/// `e` is no resource entity; a resource entity's despawn is hidden.
/// Nothing is passed on for no despawns.
pub proof fn lemma_despawns_reported_unless_resource<E: Copy + Eq + Hash>(
    coord: &CoordHandle<E>,
    despawns: Seq<(UserKey, E)>,
    despawn: (UserKey, E),
)
    ensures
        despawn_events(coord, Seq::empty()) == Seq::<RecvDespawnEntityEvent<E>>::empty(),
        ({
            let e = despawn.1;
            let entries = coord.state.resource_registry.entries();
            let resource = coord.to_global().contains_key(e) && exists|i: int|
                0 <= i < entries.len() && #[trigger] entries[i].1 == GlobalEntity(coord.to_global()[e]);
            &&& !resource ==> despawn_events(coord, despawns.push(despawn)) == despawn_events(coord, despawns).push(
                RecvDespawnEntityEvent { user_key: despawn.0, entity: e },
            )
            &&& resource ==> despawn_events(coord, despawns.push(despawn)) == despawn_events(coord, despawns)
        }),
{
    assert(despawns.push(despawn).drop_last() =~= despawns);
}

/// The despawn events passed on: those of resource entities are hidden.
pub open spec fn despawn_events<E: Copy + Eq + Hash>(coord: &CoordHandle<E>, despawns: Seq<(UserKey, E)>) -> Seq<RecvDespawnEntityEvent<E>>
    decreases despawns.len(),
{
    if despawns.len() == 0 {
        Seq::empty()
    } else {
        let rest = despawn_events(coord, despawns.drop_last());
        let (u, e) = despawns.last();
        if !spec_is_resource(coord, e) {
            rest.push(RecvDespawnEntityEvent { user_key: u, entity: e })
        } else {
            rest
        }
    }
}

/// Per-type buffers of received events, drained by the simulation.
pub struct EventReceiver<E> {
    connects: Vec<RecvConnectEvent>,
    disconnects: Vec<RecvDisconnectEvent>,
    errors: Vec<RecvErrorEvent>,
    ticks: Vec<RecvTickEvent>,
    spawns: Vec<RecvSpawnEntityEvent<E>>,
    despawns: Vec<RecvDespawnEntityEvent<E>>,
    publishes: Vec<RecvPublishEntityEvent<E>>,
    unpublishes: Vec<RecvUnpublishEntityEvent<E>>,
    messages: Vec<ReceivedMessage>,
}

impl<E> EventReceiver<E> {
    pub closed spec fn connect_seq(&self) -> Seq<RecvConnectEvent> {
        self.connects@
    }

    pub closed spec fn disconnect_seq(&self) -> Seq<RecvDisconnectEvent> {
        self.disconnects@
    }

    pub closed spec fn error_seq(&self) -> Seq<RecvErrorEvent> {
        self.errors@
    }

    pub closed spec fn tick_seq(&self) -> Seq<RecvTickEvent> {
        self.ticks@
    }

    pub closed spec fn spawn_seq(&self) -> Seq<RecvSpawnEntityEvent<E>> {
        self.spawns@
    }

    pub closed spec fn despawn_seq(&self) -> Seq<RecvDespawnEntityEvent<E>> {
        self.despawns@
    }

    pub closed spec fn publish_seq(&self) -> Seq<RecvPublishEntityEvent<E>> {
        self.publishes@
    }

    pub closed spec fn unpublish_seq(&self) -> Seq<RecvUnpublishEntityEvent<E>> {
        self.unpublishes@
    }

    pub closed spec fn message_seq(&self) -> Seq<ReceivedMessage> {
        self.messages@
    }

    /// A receiver with every buffer empty.
    pub fn new() -> (r: Self)
        ensures
            r.connect_seq().len() == 0,
            r.disconnect_seq().len() == 0,
            r.error_seq().len() == 0,
            r.tick_seq().len() == 0,
            r.spawn_seq().len() == 0,
            r.despawn_seq().len() == 0,
            r.publish_seq().len() == 0,
            r.unpublish_seq().len() == 0,
            r.message_seq().len() == 0,
    {
        EventReceiver {
            connects: Vec::new(),
            disconnects: Vec::new(),
            errors: Vec::new(),
            ticks: Vec::new(),
            spawns: Vec::new(),
            despawns: Vec::new(),
            publishes: Vec::new(),
            unpublishes: Vec::new(),
            messages: Vec::new(),
        }
    }

    /// Takes every queued connect event.
    pub fn drain_connect_events(&mut self) -> (r: Vec<RecvConnectEvent>)
        ensures
            r@ == old(self).connect_seq(),
            final(self).connect_seq().len() == 0,
    {
        let mut out = Vec::new();
        std::mem::swap(&mut out, &mut self.connects);
        out
    }

    /// Takes every queued disconnect event.
    pub fn drain_disconnect_events(&mut self) -> (r: Vec<RecvDisconnectEvent>)
        ensures
            r@ == old(self).disconnect_seq(),
            final(self).disconnect_seq().len() == 0,
    {
        let mut out = Vec::new();
        std::mem::swap(&mut out, &mut self.disconnects);
        out
    }

    /// Takes every queued error event.
    pub fn drain_error_events(&mut self) -> (r: Vec<RecvErrorEvent>)
        ensures
            r@ == old(self).error_seq(),
            final(self).error_seq().len() == 0,
    {
        let mut out = Vec::new();
        std::mem::swap(&mut out, &mut self.errors);
        out
    }

    /// Takes every queued tick event.
    pub fn drain_tick_events(&mut self) -> (r: Vec<RecvTickEvent>)
        ensures
            r@ == old(self).tick_seq(),
            final(self).tick_seq().len() == 0,
    {
        let mut out = Vec::new();
        std::mem::swap(&mut out, &mut self.ticks);
        out
    }

    /// Takes every queued client-owned entity-spawn event.
    pub fn drain_spawn_entity_events(&mut self) -> (r: Vec<RecvSpawnEntityEvent<E>>)
        ensures
            r@ == old(self).spawn_seq(),
            final(self).spawn_seq().len() == 0,
    {
        let mut out = Vec::new();
        std::mem::swap(&mut out, &mut self.spawns);
        out
    }

    /// Takes every queued entity-despawn event.
    pub fn drain_despawn_entity_events(&mut self) -> (r: Vec<RecvDespawnEntityEvent<E>>)
        ensures
            r@ == old(self).despawn_seq(),
            final(self).despawn_seq().len() == 0,
    {
        let mut out = Vec::new();
        std::mem::swap(&mut out, &mut self.despawns);
        out
    }

    /// Takes every queued entity-publish event.
    pub fn drain_publish_entity_events(&mut self) -> (r: Vec<RecvPublishEntityEvent<E>>)
        ensures
            r@ == old(self).publish_seq(),
            final(self).publish_seq().len() == 0,
    {
        let mut out = Vec::new();
        std::mem::swap(&mut out, &mut self.publishes);
        out
    }

    /// Takes every queued entity-unpublish event.
    pub fn drain_unpublish_entity_events(&mut self) -> (r: Vec<RecvUnpublishEntityEvent<E>>)
        ensures
            r@ == old(self).unpublish_seq(),
            final(self).unpublish_seq().len() == 0,
    {
        let mut out = Vec::new();
        std::mem::swap(&mut out, &mut self.unpublishes);
        out
    }

    // Single events, pushed one at a time

    /// Adds a tick event.
    pub fn push_tick(&mut self, tick: Tick)
        ensures
            final(self).tick_seq() == old(self).tick_seq().push(RecvTickEvent(tick)),
            final(self).connect_seq() == old(self).connect_seq(),
            final(self).disconnect_seq() == old(self).disconnect_seq(),
            final(self).error_seq() == old(self).error_seq(),
            final(self).spawn_seq() == old(self).spawn_seq(),
            final(self).despawn_seq() == old(self).despawn_seq(),
            final(self).publish_seq() == old(self).publish_seq(),
            final(self).unpublish_seq() == old(self).unpublish_seq(),
            final(self).message_seq() == old(self).message_seq(),
    {
        self.ticks.push(RecvTickEvent(tick));
    }

    /// Adds a connect event.
    pub fn push_connect(&mut self, user_key: UserKey)
        ensures
            final(self).connect_seq() == old(self).connect_seq().push(RecvConnectEvent { user_key }),
            final(self).tick_seq() == old(self).tick_seq(),
            final(self).disconnect_seq() == old(self).disconnect_seq(),
            final(self).error_seq() == old(self).error_seq(),
            final(self).spawn_seq() == old(self).spawn_seq(),
            final(self).despawn_seq() == old(self).despawn_seq(),
            final(self).publish_seq() == old(self).publish_seq(),
            final(self).unpublish_seq() == old(self).unpublish_seq(),
            final(self).message_seq() == old(self).message_seq(),
    {
        self.connects.push(RecvConnectEvent { user_key });
    }

    /// Adds a disconnect event.
    pub fn push_disconnect(&mut self, user_key: UserKey, address: Address, reason: DisconnectReason)
        ensures
            final(self).disconnect_seq() == old(self).disconnect_seq().push(RecvDisconnectEvent { user_key, address, reason }),
            final(self).tick_seq() == old(self).tick_seq(),
            final(self).connect_seq() == old(self).connect_seq(),
            final(self).error_seq() == old(self).error_seq(),
            final(self).spawn_seq() == old(self).spawn_seq(),
            final(self).despawn_seq() == old(self).despawn_seq(),
            final(self).publish_seq() == old(self).publish_seq(),
            final(self).unpublish_seq() == old(self).unpublish_seq(),
            final(self).message_seq() == old(self).message_seq(),
    {
        self.disconnects.push(RecvDisconnectEvent { user_key, address, reason });
    }

    /// Adds an error event, its message already formatted.
    pub fn push_error(&mut self, error: String)
        ensures
            final(self).error_seq() == old(self).error_seq().push(RecvErrorEvent { error }),
            final(self).tick_seq() == old(self).tick_seq(),
            final(self).connect_seq() == old(self).connect_seq(),
            final(self).disconnect_seq() == old(self).disconnect_seq(),
            final(self).spawn_seq() == old(self).spawn_seq(),
            final(self).despawn_seq() == old(self).despawn_seq(),
            final(self).publish_seq() == old(self).publish_seq(),
            final(self).unpublish_seq() == old(self).unpublish_seq(),
            final(self).message_seq() == old(self).message_seq(),
    {
        self.errors.push(RecvErrorEvent { error });
    }

    /// Adds the spawn of a client-owned entity; the caller leaves out
    /// resource entities and entities the server owns.
    pub fn push_spawn_client_owned(&mut self, user_key: UserKey, entity: E)
        ensures
            final(self).spawn_seq() == old(self).spawn_seq().push(RecvSpawnEntityEvent { user_key, entity }),
            final(self).tick_seq() == old(self).tick_seq(),
            final(self).connect_seq() == old(self).connect_seq(),
            final(self).disconnect_seq() == old(self).disconnect_seq(),
            final(self).error_seq() == old(self).error_seq(),
            final(self).despawn_seq() == old(self).despawn_seq(),
            final(self).publish_seq() == old(self).publish_seq(),
            final(self).unpublish_seq() == old(self).unpublish_seq(),
            final(self).message_seq() == old(self).message_seq(),
    {
        self.spawns.push(RecvSpawnEntityEvent { user_key, entity });
    }

    /// Adds a despawn event; the caller leaves out resource entities.
    pub fn push_despawn(&mut self, user_key: UserKey, entity: E)
        ensures
            final(self).despawn_seq() == old(self).despawn_seq().push(RecvDespawnEntityEvent { user_key, entity }),
            final(self).tick_seq() == old(self).tick_seq(),
            final(self).connect_seq() == old(self).connect_seq(),
            final(self).disconnect_seq() == old(self).disconnect_seq(),
            final(self).error_seq() == old(self).error_seq(),
            final(self).spawn_seq() == old(self).spawn_seq(),
            final(self).publish_seq() == old(self).publish_seq(),
            final(self).unpublish_seq() == old(self).unpublish_seq(),
            final(self).message_seq() == old(self).message_seq(),
    {
        self.despawns.push(RecvDespawnEntityEvent { user_key, entity });
    }

    /// Adds a publish event.
    pub fn push_publish(&mut self, user_key: UserKey, entity: E)
        ensures
            final(self).publish_seq() == old(self).publish_seq().push(RecvPublishEntityEvent { user_key, entity }),
            final(self).tick_seq() == old(self).tick_seq(),
            final(self).connect_seq() == old(self).connect_seq(),
            final(self).disconnect_seq() == old(self).disconnect_seq(),
            final(self).error_seq() == old(self).error_seq(),
            final(self).spawn_seq() == old(self).spawn_seq(),
            final(self).despawn_seq() == old(self).despawn_seq(),
            final(self).unpublish_seq() == old(self).unpublish_seq(),
            final(self).message_seq() == old(self).message_seq(),
    {
        self.publishes.push(RecvPublishEntityEvent { user_key, entity });
    }

    /// Adds an unpublish event.
    pub fn push_unpublish(&mut self, user_key: UserKey, entity: E)
        ensures
            final(self).unpublish_seq() == old(self).unpublish_seq().push(RecvUnpublishEntityEvent { user_key, entity }),
            final(self).tick_seq() == old(self).tick_seq(),
            final(self).connect_seq() == old(self).connect_seq(),
            final(self).disconnect_seq() == old(self).disconnect_seq(),
            final(self).error_seq() == old(self).error_seq(),
            final(self).spawn_seq() == old(self).spawn_seq(),
            final(self).despawn_seq() == old(self).despawn_seq(),
            final(self).publish_seq() == old(self).publish_seq(),
            final(self).message_seq() == old(self).message_seq(),
    {
        self.unpublishes.push(RecvUnpublishEntityEvent { user_key, entity });
    }

    /// Adds a received message.
    pub fn push_message(&mut self, channel_kind: ChannelKind, message_kind: MessageKind, user_key: UserKey, payload: Vec<u8>)
        ensures
            final(self).message_seq() == old(self).message_seq().push((channel_kind, message_kind, user_key, payload)),
            final(self).tick_seq() == old(self).tick_seq(),
            final(self).connect_seq() == old(self).connect_seq(),
            final(self).disconnect_seq() == old(self).disconnect_seq(),
            final(self).error_seq() == old(self).error_seq(),
            final(self).spawn_seq() == old(self).spawn_seq(),
            final(self).despawn_seq() == old(self).despawn_seq(),
            final(self).publish_seq() == old(self).publish_seq(),
            final(self).unpublish_seq() == old(self).unpublish_seq(),
    {
        self.messages.push((channel_kind, message_kind, user_key, payload));
    }

    /// Takes every queued message of channel `channel` and type `kind`, in
    /// arrival order, with its sender; other messages stay queued in order.
    pub fn drain_messages(&mut self, channel: ChannelKind, kind: MessageKind) -> (r: Vec<(UserKey, Vec<u8>)>)
        ensures
            final(self).message_seq() == old(self).message_seq().filter(other_messages(channel, kind)),
            r@ == old(self).message_seq().filter(messages_of(channel, kind)).map_values(sender_and_payload()),
    {
        let mut all: Vec<ReceivedMessage> = Vec::new();
        std::mem::swap(&mut all, &mut self.messages);
        let ghost src = all@;
        assert(src.len() == all.len());
        let mut out: Vec<(UserKey, Vec<u8>)> = Vec::new();
        let mut rest: Vec<ReceivedMessage> = Vec::new();
        let mut i: usize = 0;
        while all.len() > 0
            invariant
                i <= src.len(),
                all@ == src.skip(i as int),
                i + all@.len() == src.len(),
                src.len() <= usize::MAX,
                rest@ == src.take(i as int).filter(other_messages(channel, kind)),
                out@ == src.take(i as int).filter(messages_of(channel, kind)).map_values(sender_and_payload()),
            decreases all@.len(),
        {
            let m = all.remove(0);
            proof {
                assert(m == src[i as int]);
                assert(src.take(i + 1) =~= src.take(i as int).push(m));
                src.take(i as int).lemma_filter_push(m, other_messages(channel, kind));
                src.take(i as int).lemma_filter_push(m, messages_of(channel, kind));
                assert(all@ =~= src.skip(i + 1));
            }
            if m.0 == channel && m.1 == kind {
                let ghost before = out@;
                out.push((m.2, m.3));
                proof {
                    assert(out@ =~= src.take(i + 1).filter(messages_of(channel, kind)).map_values(sender_and_payload()));
                }
            } else {
                rest.push(m);
            }
            i += 1;
        }
        proof {
            assert(src.take(i as int) =~= src);
        }
        self.messages = rest;
        out
    }
}

impl<E: Copy + Eq + Hash> EventReceiver<E> {
    /// Fans every event of `output` out into its buffer, in arrival order.
    /// Spawns and despawns of resource entities are hidden, and a spawn is
    /// passed on only for an entity a client owns, under that owner.
    pub fn push_from_receive_output(&mut self, sim_handle: &CoordHandle<E>, output: ReceiveOutput<E>)
        requires
            sim_handle.wf(),
        ensures
            final(self).tick_seq() == old(self).tick_seq() + output.pending_ticks@.map_values(|t: Tick| RecvTickEvent(t)),
            final(self).connect_seq() == old(self).connect_seq() + output.connects@.map_values(
                |u: UserKey| RecvConnectEvent { user_key: u },
            ),
            final(self).disconnect_seq() == old(self).disconnect_seq() + output.disconnects@.map_values(
                |d: (UserKey, Address, DisconnectReason)| RecvDisconnectEvent { user_key: d.0, address: d.1, reason: d.2 },
            ),
            final(self).error_seq() == old(self).error_seq() + output.errors@.map_values(
                |e: String| RecvErrorEvent { error: e },
            ),
            final(self).spawn_seq() == old(self).spawn_seq() + spawn_events(sim_handle, output.spawns@),
            forall|i: int| 0 <= i < output.spawns@.len() ==> ({
                let e = (#[trigger] output.spawns@[i]).1;
                let g = sim_handle.to_global()[e];
                (sim_handle.to_global().contains_key(e) && sim_handle.records().contains_key(g)
                    && !spec_is_resource(sim_handle, e))
                    ==> (sim_handle.records()[g].owner is Client <==> spawn_events(sim_handle, output.spawns@.take(i + 1))
                    == spawn_events(sim_handle, output.spawns@.take(i)).push(
                    RecvSpawnEntityEvent { user_key: sim_handle.records()[g].owner->Client_0, entity: e },
                ))
            }),
            final(self).despawn_seq() == old(self).despawn_seq() + despawn_events(sim_handle, output.despawns@),
            final(self).publish_seq() == old(self).publish_seq() + output.publishes@.map_values(
                |p: (UserKey, E)| RecvPublishEntityEvent { user_key: p.0, entity: p.1 },
            ),
            final(self).unpublish_seq() == old(self).unpublish_seq() + output.unpublishes@.map_values(
                |p: (UserKey, E)| RecvUnpublishEntityEvent { user_key: p.0, entity: p.1 },
            ),
            final(self).message_seq() == old(self).message_seq() + output.messages@,
    {
        proof {
            let sp = output.spawns@;
            assert forall|i: int| 0 <= i < sp.len() implies ({
                let e = (#[trigger] sp[i]).1;
                let g = sim_handle.to_global()[e];
                (sim_handle.to_global().contains_key(e) && sim_handle.records().contains_key(g)
                    && !spec_is_resource(sim_handle, e))
                    ==> (sim_handle.records()[g].owner is Client <==> spawn_events(sim_handle, sp.take(i + 1))
                    == spawn_events(sim_handle, sp.take(i)).push(
                    RecvSpawnEntityEvent { user_key: sim_handle.records()[g].owner->Client_0, entity: e },
                ))
            }) by {
                assert(sp.take(i + 1) =~= sp.take(i).push(sp[i]));
                lemma_spawns_reported_for_client_owners(sim_handle, sp.take(i), sp[i]);
                let a = spawn_events(sim_handle, sp.take(i));
                let x = RecvSpawnEntityEvent { user_key: sim_handle.records()[sim_handle.to_global()[sp[i].1]].owner->Client_0, entity: sp[i].1 };
                assert(a.push(x).len() == a.len() + 1);
            }
        }
        let mut output = output;
        let ghost out0 = output;
        // ticks
        let mut i: usize = 0;
        while i < output.pending_ticks.len()
            invariant
                i <= output.pending_ticks@.len(),
                output.pending_ticks@ == out0.pending_ticks@,
                self.connects@ == old(self).connects@,
                self.disconnects@ == old(self).disconnects@,
                self.errors@ == old(self).errors@,
                self.spawns@ == old(self).spawns@,
                self.despawns@ == old(self).despawns@,
                self.publishes@ == old(self).publishes@,
                self.unpublishes@ == old(self).unpublishes@,
                self.messages@ == old(self).messages@,
                self.ticks@ == old(self).ticks@ + out0.pending_ticks@.take(i as int).map_values(|t: Tick| RecvTickEvent(t)),
            decreases output.pending_ticks@.len() - i,
        {
            self.ticks.push(RecvTickEvent(output.pending_ticks[i]));
            proof {
                assert(out0.pending_ticks@.take(i + 1) =~= out0.pending_ticks@.take(i as int).push(out0.pending_ticks@[i as int]));
                assert(self.ticks@ =~= old(self).ticks@ + out0.pending_ticks@.take(i + 1).map_values(|t: Tick| RecvTickEvent(t)));
            }
            i += 1;
        }
        proof {
            assert(out0.pending_ticks@.take(out0.pending_ticks@.len() as int) =~= out0.pending_ticks@);
        }
        let ghost snap_ticks = self.ticks@;
        // connects
        let mut i: usize = 0;
        while i < output.connects.len()
            invariant
                i <= output.connects@.len(),
                output.connects@ == out0.connects@,
                self.disconnects@ == old(self).disconnects@,
                self.errors@ == old(self).errors@,
                self.spawns@ == old(self).spawns@,
                self.despawns@ == old(self).despawns@,
                self.publishes@ == old(self).publishes@,
                self.unpublishes@ == old(self).unpublishes@,
                self.messages@ == old(self).messages@,
                self.ticks@ == snap_ticks,
                self.connects@ == old(self).connects@ + out0.connects@.take(i as int).map_values(|u: UserKey| RecvConnectEvent { user_key: u }),
            decreases output.connects@.len() - i,
        {
            self.connects.push(RecvConnectEvent { user_key: output.connects[i] });
            proof {
                assert(out0.connects@.take(i + 1) =~= out0.connects@.take(i as int).push(out0.connects@[i as int]));
                assert(self.connects@ =~= old(self).connects@ + out0.connects@.take(i + 1).map_values(|u: UserKey| RecvConnectEvent { user_key: u }));
            }
            i += 1;
        }
        proof {
            assert(out0.connects@.take(out0.connects@.len() as int) =~= out0.connects@);
        }
        let ghost snap_connects = self.connects@;
        // disconnects
        let mut i: usize = 0;
        while i < output.disconnects.len()
            invariant
                i <= output.disconnects@.len(),
                output.disconnects@ == out0.disconnects@,
                self.errors@ == old(self).errors@,
                self.spawns@ == old(self).spawns@,
                self.despawns@ == old(self).despawns@,
                self.publishes@ == old(self).publishes@,
                self.unpublishes@ == old(self).unpublishes@,
                self.messages@ == old(self).messages@,
                self.ticks@ == snap_ticks,
                self.connects@ == snap_connects,
                self.disconnects@ == old(self).disconnects@ + out0.disconnects@.take(i as int).map_values(
                    |d: (UserKey, Address, DisconnectReason)| RecvDisconnectEvent { user_key: d.0, address: d.1, reason: d.2 },
                ),
            decreases output.disconnects@.len() - i,
        {
            let d = output.disconnects[i];
            self.disconnects.push(RecvDisconnectEvent { user_key: d.0, address: d.1, reason: d.2 });
            proof {
                assert(out0.disconnects@.take(i + 1) =~= out0.disconnects@.take(i as int).push(out0.disconnects@[i as int]));
                assert(self.disconnects@ =~= old(self).disconnects@ + out0.disconnects@.take(i + 1).map_values(
                    |d: (UserKey, Address, DisconnectReason)| RecvDisconnectEvent { user_key: d.0, address: d.1, reason: d.2 },
                ));
            }
            i += 1;
        }
        proof {
            assert(out0.disconnects@.take(out0.disconnects@.len() as int) =~= out0.disconnects@);
        }
        let ghost snap_disconnects = self.disconnects@;
        // errors
        proof {
            assert(out0.errors@.len() == output.errors.len());
        }
        let mut i: usize = 0;
        while output.errors.len() > 0
            invariant
                i <= out0.errors@.len(),
                i + output.errors@.len() == out0.errors@.len(),
                out0.errors@.len() <= usize::MAX,
                output.spawns@ == out0.spawns@,
                output.despawns@ == out0.despawns@,
                output.publishes@ == out0.publishes@,
                output.unpublishes@ == out0.unpublishes@,
                output.messages@ == out0.messages@,
                output.errors@ == out0.errors@.skip(i as int),
                self.spawns@ == old(self).spawns@,
                self.despawns@ == old(self).despawns@,
                self.publishes@ == old(self).publishes@,
                self.unpublishes@ == old(self).unpublishes@,
                self.messages@ == old(self).messages@,
                self.ticks@ == snap_ticks,
                self.connects@ == snap_connects,
                self.disconnects@ == snap_disconnects,
                self.errors@ == old(self).errors@ + out0.errors@.take(i as int).map_values(|e: String| RecvErrorEvent { error: e }),
            decreases output.errors@.len(),
        {
            let e = output.errors.remove(0);
            self.errors.push(RecvErrorEvent { error: e });
            proof {
                assert(e == out0.errors@[i as int]);
                assert(out0.errors@.take(i + 1) =~= out0.errors@.take(i as int).push(e));
                assert(output.errors@ =~= out0.errors@.skip(i + 1));
                assert(self.errors@ =~= old(self).errors@ + out0.errors@.take(i + 1).map_values(|e: String| RecvErrorEvent { error: e }));
            }
            i += 1;
        }
        proof {
            assert(out0.errors@.take(i as int) =~= out0.errors@);
        }
        let ghost snap_errors = self.errors@;
        // spawns: client-owned, non-resource entities only
        let mut i: usize = 0;
        while i < output.spawns.len()
            invariant
                sim_handle.wf(),
                i <= output.spawns@.len(),
                output.spawns@ == out0.spawns@,
                self.despawns@ == old(self).despawns@,
                self.publishes@ == old(self).publishes@,
                self.unpublishes@ == old(self).unpublishes@,
                self.messages@ == old(self).messages@,
                self.ticks@ == snap_ticks,
                self.connects@ == snap_connects,
                self.disconnects@ == snap_disconnects,
                self.errors@ == snap_errors,
                self.spawns@ == old(self).spawns@ + spawn_events(sim_handle, out0.spawns@.take(i as int)),
            decreases output.spawns@.len() - i,
        {
            let entity = output.spawns[i].1;
            proof {
                assert(out0.spawns@.take(i + 1).drop_last() =~= out0.spawns@.take(i as int));
            }
            if !sim_handle.is_resource_entity(&entity) {
                match sim_handle.entity_owner(&entity) {
                    EntityOwner::Client(user_key) => {
                        self.spawns.push(RecvSpawnEntityEvent { user_key, entity });
                    },
                    _ => {},
                }
            }
            proof {
                assert(self.spawns@ =~= old(self).spawns@ + spawn_events(sim_handle, out0.spawns@.take(i + 1)));
            }
            i += 1;
        }
        proof {
            assert(out0.spawns@.take(out0.spawns@.len() as int) =~= out0.spawns@);
        }
        let ghost snap_spawns = self.spawns@;
        // despawns: non-resource entities only
        let mut i: usize = 0;
        while i < output.despawns.len()
            invariant
                sim_handle.wf(),
                i <= output.despawns@.len(),
                output.despawns@ == out0.despawns@,
                self.publishes@ == old(self).publishes@,
                self.unpublishes@ == old(self).unpublishes@,
                self.messages@ == old(self).messages@,
                self.ticks@ == snap_ticks,
                self.connects@ == snap_connects,
                self.disconnects@ == snap_disconnects,
                self.errors@ == snap_errors,
                self.spawns@ == snap_spawns,
                self.despawns@ == old(self).despawns@ + despawn_events(sim_handle, out0.despawns@.take(i as int)),
            decreases output.despawns@.len() - i,
        {
            let (user_key, entity) = output.despawns[i];
            proof {
                assert(out0.despawns@.take(i + 1).drop_last() =~= out0.despawns@.take(i as int));
            }
            if !sim_handle.is_resource_entity(&entity) {
                self.despawns.push(RecvDespawnEntityEvent { user_key, entity });
            }
            proof {
                assert(self.despawns@ =~= old(self).despawns@ + despawn_events(sim_handle, out0.despawns@.take(i + 1)));
            }
            i += 1;
        }
        proof {
            assert(out0.despawns@.take(out0.despawns@.len() as int) =~= out0.despawns@);
        }
        let ghost snap_despawns = self.despawns@;
        // publishes
        let mut i: usize = 0;
        while i < output.publishes.len()
            invariant
                i <= output.publishes@.len(),
                output.publishes@ == out0.publishes@,
                self.unpublishes@ == old(self).unpublishes@,
                self.messages@ == old(self).messages@,
                self.ticks@ == snap_ticks,
                self.connects@ == snap_connects,
                self.disconnects@ == snap_disconnects,
                self.errors@ == snap_errors,
                self.spawns@ == snap_spawns,
                self.despawns@ == snap_despawns,
                self.publishes@ == old(self).publishes@ + out0.publishes@.take(i as int).map_values(
                    |p: (UserKey, E)| RecvPublishEntityEvent { user_key: p.0, entity: p.1 },
                ),
            decreases output.publishes@.len() - i,
        {
            let p = output.publishes[i];
            self.publishes.push(RecvPublishEntityEvent { user_key: p.0, entity: p.1 });
            proof {
                assert(out0.publishes@.take(i + 1) =~= out0.publishes@.take(i as int).push(out0.publishes@[i as int]));
                assert(self.publishes@ =~= old(self).publishes@ + out0.publishes@.take(i + 1).map_values(
                    |p: (UserKey, E)| RecvPublishEntityEvent { user_key: p.0, entity: p.1 },
                ));
            }
            i += 1;
        }
        proof {
            assert(out0.publishes@.take(out0.publishes@.len() as int) =~= out0.publishes@);
        }
        let ghost snap_publishes = self.publishes@;
        // unpublishes
        let mut i: usize = 0;
        while i < output.unpublishes.len()
            invariant
                i <= output.unpublishes@.len(),
                output.unpublishes@ == out0.unpublishes@,
                self.messages@ == old(self).messages@,
                self.ticks@ == snap_ticks,
                self.connects@ == snap_connects,
                self.disconnects@ == snap_disconnects,
                self.errors@ == snap_errors,
                self.spawns@ == snap_spawns,
                self.despawns@ == snap_despawns,
                self.publishes@ == snap_publishes,
                self.unpublishes@ == old(self).unpublishes@ + out0.unpublishes@.take(i as int).map_values(
                    |p: (UserKey, E)| RecvUnpublishEntityEvent { user_key: p.0, entity: p.1 },
                ),
            decreases output.unpublishes@.len() - i,
        {
            let p = output.unpublishes[i];
            self.unpublishes.push(RecvUnpublishEntityEvent { user_key: p.0, entity: p.1 });
            proof {
                assert(out0.unpublishes@.take(i + 1) =~= out0.unpublishes@.take(i as int).push(out0.unpublishes@[i as int]));
                assert(self.unpublishes@ =~= old(self).unpublishes@ + out0.unpublishes@.take(i + 1).map_values(
                    |p: (UserKey, E)| RecvUnpublishEntityEvent { user_key: p.0, entity: p.1 },
                ));
            }
            i += 1;
        }
        proof {
            assert(out0.unpublishes@.take(out0.unpublishes@.len() as int) =~= out0.unpublishes@);
        }
        let ghost snap_unpublishes = self.unpublishes@;
        // messages, in arrival order
        self.messages.append(&mut output.messages);
    }
}

/// Messages of channel `channel` and type `kind`.
pub open spec fn messages_of(channel: ChannelKind, kind: MessageKind) -> spec_fn(ReceivedMessage) -> bool {
    |m: ReceivedMessage| m.0 == channel && m.1 == kind
}

/// Messages of any other channel or type.
pub open spec fn other_messages(channel: ChannelKind, kind: MessageKind) -> spec_fn(ReceivedMessage) -> bool {
    |m: ReceivedMessage| !(m.0 == channel && m.1 == kind)
}

/// A message's sender and bytes.
pub open spec fn sender_and_payload() -> spec_fn(ReceivedMessage) -> (UserKey, Vec<u8>) {
    |m: ReceivedMessage| (m.2, m.3)
}

} // verus!
