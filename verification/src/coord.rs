//! The coordination side of the server: users, rooms and the entity
//! registries, with room and replication changes queued for the send side.

use std::collections::VecDeque;
use std::hash::Hash;

use vstd::prelude::*;
use vstd::std_specs::hash::obeys_key_model;

use crate::keys::{Address, ComponentKind, GlobalEntity, RoomKey, UserKey};
use crate::room::{removals_for_entity, removals_for_user, without, Room};
use crate::stores::{ResourceRegistry, RoomStore, UserStore, UserView, WorldUser, seq_add, other_rooms};
use crate::world_manager::{
    EntityDoesNotExistError,
    initial_config, other_kinds, EntityOwner, GlobalEntityMap, GlobalWorldManager, Publicity,
    RecordView, ReplicationConfig,
};

verus! {

broadcast use vstd::std_specs::hash::group_hash_axioms;

/// Why a user is being disconnected.
#[derive(Clone, Copy, PartialEq, Eq, Hash, Debug, Structural)]
pub enum DisconnectReason {
    ClientDisconnected,
    Kicked,
    TimedOut,
}

/// Send-side work that a replication reconfiguration leaves behind, with
/// every per-connection parameter resolved when it was captured.
#[derive(Clone, Copy, PartialEq, Eq, Debug, Structural)]
pub enum ConfigureSendOp<E> {
    /// Tell the owning client its entity went public.
    Publish { global_entity: GlobalEntity, owner_addr: Address },
    /// Re-evaluate who has the newly public entity in scope.
    PublishScopeReeval { global_entity: GlobalEntity },
    /// Tell the owning client (if still known) its entity went private.
    Unpublish { global_entity: GlobalEntity, owner_addr: Option<Address> },
    /// Tell every connection the entity is now delegated.
    EnableDelegationFanout { global_entity: GlobalEntity, client_origin: Option<UserKey> },
    /// Move a client-owned entity to the server before delegating it.
    DelegationMigrate { global_entity: GlobalEntity, world_entity: E, client_key: UserKey },
    /// Tell every connection the entity is no longer delegated.
    DisableDelegationFanout { global_entity: GlobalEntity },
}

/// World-side hook work that a replication reconfiguration leaves behind.
#[derive(Clone, Copy, PartialEq, Eq, Debug, Structural)]
pub enum ConfigureWorldOp<E> {
    Publish { world_entity: E },
    Unpublish { world_entity: E },
    EnableDelegation { world_entity: E },
    DisableDelegation { world_entity: E },
}

/// A change of who may see what, queued for the send side.
///
/// A membership change of a room is queued twice: first as a bare
/// membership record (`UserAdded`, `UserRemoved`, `EntityAdded`,
/// `EntityRemoved`), read by the per-user scope tables, then as the room
/// change carrying the room's other members, read by the room index.
pub enum ScopeChange<E> {
    /// A user was added to a room.
    UserAdded { room: RoomKey, user: UserKey },
    /// A user was removed from a room.
    UserRemoved { room: RoomKey, user: UserKey },
    /// An entity was added to a room.
    EntityAdded { room: RoomKey, entity: GlobalEntity },
    /// An entity was removed from a room.
    EntityRemoved { room: RoomKey, entity: GlobalEntity },
    /// A room was destroyed, with the members it had.
    RoomDestroyed { room: RoomKey, users: Vec<UserKey>, entities: Vec<GlobalEntity> },
    /// A user joined a room holding these entities, in the order they were added.
    UserJoinedRoom { room: RoomKey, user: UserKey, entities: Vec<GlobalEntity> },
    /// A user left a room holding these entities.
    UserLeftRoom { room: RoomKey, user: UserKey, entities: Vec<GlobalEntity> },
    /// An entity joined a room holding these users.
    EntityJoinedRoom { room: RoomKey, entity: GlobalEntity, users: Vec<UserKey> },
    /// An entity left a room holding these users.
    EntityLeftRoom { room: RoomKey, entity: GlobalEntity, users: Vec<UserKey> },
    /// Send-side work of one replication reconfiguration, in order.
    ConfigureReplication(Vec<ConfigureSendOp<E>>),
}

/// The mathematical value of a [`ScopeChange`].
pub enum ScopeChangeView<E> {
    UserAdded { room: RoomKey, user: UserKey },
    UserRemoved { room: RoomKey, user: UserKey },
    EntityAdded { room: RoomKey, entity: GlobalEntity },
    EntityRemoved { room: RoomKey, entity: GlobalEntity },
    RoomDestroyed { room: RoomKey, users: Seq<UserKey>, entities: Seq<GlobalEntity> },
    UserJoinedRoom { room: RoomKey, user: UserKey, entities: Seq<GlobalEntity> },
    UserLeftRoom { room: RoomKey, user: UserKey, entities: Seq<GlobalEntity> },
    EntityJoinedRoom { room: RoomKey, entity: GlobalEntity, users: Seq<UserKey> },
    EntityLeftRoom { room: RoomKey, entity: GlobalEntity, users: Seq<UserKey> },
    ConfigureReplication(Seq<ConfigureSendOp<E>>),
}

impl<E> View for ScopeChange<E> {
    type V = ScopeChangeView<E>;

    open spec fn view(&self) -> ScopeChangeView<E> {
        match self {
            ScopeChange::UserAdded { room, user } => ScopeChangeView::UserAdded { room: *room, user: *user },
            ScopeChange::UserRemoved { room, user } => ScopeChangeView::UserRemoved { room: *room, user: *user },
            ScopeChange::EntityAdded { room, entity } => ScopeChangeView::EntityAdded {
                room: *room,
                entity: *entity,
            },
            ScopeChange::EntityRemoved { room, entity } => ScopeChangeView::EntityRemoved {
                room: *room,
                entity: *entity,
            },
            ScopeChange::RoomDestroyed { room, users, entities } => ScopeChangeView::RoomDestroyed {
                room: *room,
                users: users@,
                entities: entities@,
            },
            ScopeChange::UserJoinedRoom { room, user, entities } => ScopeChangeView::UserJoinedRoom {
                room: *room,
                user: *user,
                entities: entities@,
            },
            ScopeChange::UserLeftRoom { room, user, entities } => ScopeChangeView::UserLeftRoom {
                room: *room,
                user: *user,
                entities: entities@,
            },
            ScopeChange::EntityJoinedRoom { room, entity, users } => ScopeChangeView::EntityJoinedRoom {
                room: *room,
                entity: *entity,
                users: users@,
            },
            ScopeChange::EntityLeftRoom { room, entity, users } => ScopeChangeView::EntityLeftRoom {
                room: *room,
                entity: *entity,
                users: users@,
            },
            ScopeChange::ConfigureReplication(ops) => ScopeChangeView::ConfigureReplication(ops@),
        }
    }
}

/// The world entities of `globals`, in order, leaving out those `to_world`
/// no longer resolves.
pub open spec fn resolve_entities<E>(globals: Seq<GlobalEntity>, to_world: Map<u64, E>) -> Seq<E>
    decreases globals.len(),
{
    if globals.len() == 0 {
        Seq::empty()
    } else {
        let rest = resolve_entities(globals.drop_last(), to_world);
        if to_world.contains_key(globals.last().0) {
            rest.push(to_world[globals.last().0])
        } else {
            rest
        }
    }
}

/// What `resolve_entities` keeps of `globals`: at most as many entities,
/// exactly as many when every global entity resolves, and each one an
/// entity whose global entity is among `globals`.
proof fn lemma_resolve_entities<E>(globals: Seq<GlobalEntity>, to_world: Map<u64, E>, to_global: Map<E, u64>)
    requires
        forall|g: u64| #[trigger] to_world.contains_key(g) ==> to_global.contains_key(to_world[g])
            && to_global[to_world[g]] == g,
    ensures
        resolve_entities(globals, to_world).len() <= globals.len(),
        (forall|j: int| 0 <= j < globals.len() ==> to_world.contains_key(#[trigger] globals[j].0))
            ==> resolve_entities(globals, to_world).len() == globals.len(),
        forall|i: int| 0 <= i < resolve_entities(globals, to_world).len()
            ==> to_global.contains_key(#[trigger] resolve_entities(globals, to_world)[i])
                && globals.contains(GlobalEntity(to_global[resolve_entities(globals, to_world)[i]])),
    decreases globals.len(),
{
    if globals.len() > 0 {
        let init = globals.drop_last();
        lemma_resolve_entities(init, to_world, to_global);
        let rest = resolve_entities(init, to_world);
        let listed = resolve_entities(globals, to_world);
        if forall|j: int| 0 <= j < globals.len() ==> to_world.contains_key(#[trigger] globals[j].0) {
            assert forall|j: int| 0 <= j < init.len() implies to_world.contains_key(#[trigger] init[j].0) by {
                assert(init[j] == globals[j]);
            }
            assert(to_world.contains_key(globals[globals.len() - 1].0));
        }
        assert forall|i: int| 0 <= i < listed.len() implies to_global.contains_key(#[trigger] listed[i])
            && globals.contains(GlobalEntity(to_global[listed[i]])) by {
            if i < rest.len() {
                assert(listed[i] == rest[i]);
                let x = GlobalEntity(to_global[rest[i]]);
                let j = choose|j: int| 0 <= j < init.len() && init[j] == x;
                assert(globals[j] == x);
            } else {
                let last = globals.last();
                assert(listed[i] == to_world[last.0]);
                assert(globals[globals.len() - 1] == last);
                assert(GlobalEntity(to_global[listed[i]]) == last);
            }
        }
    }
}

/// `users` after each of `members` (if tracked) has left room `room`.
pub open spec fn users_leaving_room(users: Map<u64, UserView>, members: Seq<UserKey>, room: RoomKey) -> Map<u64, UserView>
    decreases members.len(),
{
    if members.len() == 0 {
        users
    } else {
        let before = users_leaving_room(users, members.drop_last(), room);
        let u = members.last().0;
        if before.contains_key(u) {
            before.insert(u, UserView { address: before[u].address, rooms: before[u].rooms.filter(other_rooms(room)) })
        } else {
            before
        }
    }
}

/// `users` after `user` (if tracked) joined room `room`.
pub open spec fn user_joining_room(users: Map<u64, UserView>, user: UserKey, room: RoomKey) -> Map<u64, UserView> {
    if users.contains_key(user.0) {
        users.insert(user.0, UserView { address: users[user.0].address, rooms: seq_add(users[user.0].rooms, room) })
    } else {
        users
    }
}

/// `users` after `user` (if tracked) left room `room`.
pub open spec fn user_leaving_room(users: Map<u64, UserView>, user: UserKey, room: RoomKey) -> Map<u64, UserView> {
    if users.contains_key(user.0) {
        users.insert(user.0, UserView { address: users[user.0].address, rooms: users[user.0].rooms.filter(other_rooms(room)) })
    } else {
        users
    }
}

/// The user a client-owned entity came from, if a client owns it.
pub open spec fn client_origin_of(owner: EntityOwner) -> Option<UserKey> {
    match owner {
        EntityOwner::Client(k) => Some(k),
        EntityOwner::ClientPublic(k) => Some(k),
        EntityOwner::ClientWaiting(k) => Some(k),
        _ => None,
    }
}

/// `diffed` after the change tracking of each kind in `kinds` is dropped.
pub open spec fn strip_kinds(diffed: Seq<ComponentKind>, kinds: Seq<ComponentKind>) -> Seq<ComponentKind>
    decreases kinds.len(),
{
    if kinds.len() == 0 {
        diffed
    } else {
        strip_kinds(diffed, kinds.drop_last()).filter(other_kinds(kinds.last()))
    }
}

/// The record of a client-owned entity after it is published.
pub open spec fn published(rec: RecordView) -> RecordView {
    RecordView {
        owner: EntityOwner::ClientPublic(rec.owner->Client_0),
        config: ReplicationConfig { publicity: Publicity::Public, ..rec.config },
        ..rec
    }
}

/// The record of an entity after it is unpublished: private, back with its
/// client if a client had published it, and no component changes tracked.
pub open spec fn unpublished(rec: RecordView) -> RecordView {
    RecordView {
        owner: match rec.owner {
            EntityOwner::ClientPublic(k) => EntityOwner::Client(k),
            o => o,
        },
        config: ReplicationConfig { publicity: Publicity::Private, ..rec.config },
        diffed: strip_kinds(rec.diffed, rec.components),
        ..rec
    }
}

/// `rec` with publicity `p`.
pub open spec fn with_publicity(rec: RecordView, p: Publicity) -> RecordView {
    RecordView { config: ReplicationConfig { publicity: p, ..rec.config }, ..rec }
}

/// Send-side work of publishing a client-owned entity: tell its owner,
/// when the owner's address is known, then re-evaluate scopes.
pub open spec fn publish_send_ops<E>(rec: RecordView, ge: GlobalEntity, users: Map<u64, UserView>) -> Seq<ConfigureSendOp<E>> {
    let k = rec.owner->Client_0;
    if users.contains_key(k.0) {
        seq![
            ConfigureSendOp::Publish { global_entity: ge, owner_addr: users[k.0].address },
            ConfigureSendOp::PublishScopeReeval { global_entity: ge },
        ]
    } else {
        seq![ConfigureSendOp::PublishScopeReeval { global_entity: ge }]
    }
}

/// The address of the client that published the entity, captured before
/// the unpublish hands the entity back.
pub open spec fn unpublish_owner_addr(rec: RecordView, users: Map<u64, UserView>) -> Option<Address> {
    match rec.owner {
        EntityOwner::ClientPublic(k) => if users.contains_key(k.0) {
            Some(users[k.0].address)
        } else {
            None
        },
        _ => None,
    }
}

/// Send-side work of enabling delegation: the fan-out, and for a
/// client-owned entity the migration to the server.
pub open spec fn enable_delegation_send_ops<E>(ge: GlobalEntity, e: E, origin: Option<UserKey>) -> Seq<ConfigureSendOp<E>> {
    match origin {
        Some(k) => seq![
            ConfigureSendOp::EnableDelegationFanout { global_entity: ge, client_origin: origin },
            ConfigureSendOp::DelegationMigrate { global_entity: ge, world_entity: e, client_key: k },
        ],
        None => seq![ConfigureSendOp::EnableDelegationFanout { global_entity: ge, client_origin: origin }],
    }
}

/// World hooks of enabling delegation: immediate for a server-origin
/// entity; for a client-origin one the migration queues them later.
pub open spec fn enable_delegation_world_ops<E>(e: E, origin: Option<UserKey>) -> Seq<ConfigureWorldOp<E>> {
    match origin {
        Some(_) => Seq::empty(),
        None => seq![ConfigureWorldOp::EnableDelegation { world_entity: e }],
    }
}

/// The record after enabling delegation: delegated at once for a
/// server-origin entity; unchanged for a client-origin one, whose
/// migration does it later.
pub open spec fn enable_delegation_record(rec: RecordView, origin: Option<UserKey>) -> RecordView {
    match origin {
        Some(_) => rec,
        None => with_publicity(rec, Publicity::Delegated),
    }
}

/// Whether reconfiguring an entity owned by `owner` from publicity `prev`
/// to `next` is refused: a private entity can only be published by its
/// client owner; a server-owned entity cannot be made private; a delegated
/// entity cannot be client-owned.
pub open spec fn configure_refused(owner: EntityOwner, prev: Publicity, next: Publicity) -> bool {
    &&& prev != next
    &&& {
        ||| (prev == Publicity::Private && !(owner is Client))
        ||| (prev == Publicity::Public && next == Publicity::Private && owner is Server)
        ||| (prev == Publicity::Delegated && (owner.spec_is_client() || (next == Publicity::Private && owner is Server)))
    }
}

/// What reconfiguring an entity with record `rec` to `next` does, as the
/// send-side work, the world hooks, and the new record (before its scope
/// exit is set). Each publicity transition is a fixed sequence of steps.
pub open spec fn configure_transition<E>(
    rec: RecordView,
    next: Publicity,
    ge: GlobalEntity,
    e: E,
    users: Map<u64, UserView>,
) -> (Seq<ConfigureSendOp<E>>, Seq<ConfigureWorldOp<E>>, RecordView) {
    let prev = rec.config.publicity;
    let origin = client_origin_of(rec.owner);
    if prev == next {
        (Seq::empty(), Seq::empty(), rec)
    } else if prev == Publicity::Private && next == Publicity::Public {
        (publish_send_ops(rec, ge, users), seq![ConfigureWorldOp::Publish { world_entity: e }], published(rec))
    } else if prev == Publicity::Private {
        // private -> delegated: publish, then enable delegation
        (
            publish_send_ops(rec, ge, users) + enable_delegation_send_ops(ge, e, origin),
            seq![ConfigureWorldOp::Publish { world_entity: e }] + enable_delegation_world_ops(e, origin),
            enable_delegation_record(published(rec), origin),
        )
    } else if prev == Publicity::Public && next == Publicity::Private {
        (
            seq![ConfigureSendOp::Unpublish { global_entity: ge, owner_addr: unpublish_owner_addr(rec, users) }],
            seq![ConfigureWorldOp::Unpublish { world_entity: e }],
            unpublished(rec),
        )
    } else if prev == Publicity::Public {
        // public -> delegated
        (
            enable_delegation_send_ops(ge, e, origin),
            enable_delegation_world_ops(e, origin),
            enable_delegation_record(rec, origin),
        )
    } else if next == Publicity::Private {
        // delegated -> private: disable delegation, then unpublish
        let rec1 = with_publicity(rec, Publicity::Public);
        (
            seq![
                ConfigureSendOp::DisableDelegationFanout { global_entity: ge },
                ConfigureSendOp::Unpublish { global_entity: ge, owner_addr: unpublish_owner_addr(rec1, users) },
            ],
            seq![
                ConfigureWorldOp::DisableDelegation { world_entity: e },
                ConfigureWorldOp::Unpublish { world_entity: e },
            ],
            unpublished(rec1),
        )
    } else {
        // delegated -> public
        (
            seq![ConfigureSendOp::DisableDelegationFanout { global_entity: ge }],
            seq![ConfigureWorldOp::DisableDelegation { world_entity: e }],
            with_publicity(rec, Publicity::Public),
        )
    }
}

/// The coordination side's own state.
pub struct CoordinatorState {
    pub user_store: UserStore,
    pub room_store: RoomStore,
    pub resource_registry: ResourceRegistry,
}

/// State shared between the coordination side and the send side: the
/// entity registries and the queues of work the send side drains.
pub struct ServerShared<E: Copy + Eq + Hash> {
    pub global_entity_map: GlobalEntityMap<E>,
    pub global_world_manager: GlobalWorldManager,
    pub scope_change_queue: VecDeque<ScopeChange<E>>,
    pub pending_world_hooks: VecDeque<ConfigureWorldOp<E>>,
    pub pending_disconnect_requests: Vec<(UserKey, DisconnectReason)>,
}

/// Coordination-side handle of a pipelined server: the coordination state
/// and the shared registries.
pub struct CoordHandle<E: Copy + Eq + Hash> {
    pub state: CoordinatorState,
    pub shared: ServerShared<E>,
}

impl<E: Copy + Eq + Hash> CoordHandle<E> {
    /// Tracked users by key number.
    pub open spec fn users(&self) -> Map<u64, UserView> {
        self.state.user_store.users()
    }

    /// Rooms by key number.
    pub open spec fn rooms(&self) -> Map<u64, Room> {
        self.state.room_store.rooms()
    }

    /// Registered world entities and their global entity numbers.
    pub open spec fn to_global(&self) -> Map<E, u64> {
        self.shared.global_entity_map.world_to_global()
    }

    /// Global entity numbers and their world entities.
    pub open spec fn to_world(&self) -> Map<u64, E> {
        self.shared.global_entity_map.global_to_world()
    }

    /// Replication records by global entity number.
    pub open spec fn records(&self) -> Map<u64, RecordView> {
        self.shared.global_world_manager.records()
    }

    /// Queued scope changes, oldest first.
    pub open spec fn scope_changes(&self) -> Seq<ScopeChangeView<E>> {
        self.shared.scope_change_queue@.map_values(|c: ScopeChange<E>| c@)
    }

    /// Queued world-hook work, oldest first.
    pub open spec fn world_hooks(&self) -> Seq<ConfigureWorldOp<E>> {
        self.shared.pending_world_hooks@
    }

    /// Queued disconnect requests, oldest first.
    pub open spec fn disconnect_requests(&self) -> Seq<(UserKey, DisconnectReason)> {
        self.shared.pending_disconnect_requests@
    }

    /// The registries are consistent.
    pub open spec fn wf(&self) -> bool {
        &&& self.shared.global_entity_map.wf()
        &&& self.shared.global_world_manager.wf()
        &&& self.state.room_store.wf()
    }

    /// Everything but the scope-change queue is as in `other`.
    pub open spec fn same_but_scope_changes(&self, other: &Self) -> bool {
        &&& self.users() == other.users()
        &&& self.state.user_store.disconnected() == other.state.user_store.disconnected()
        &&& self.state.room_store.next_room_key() == other.state.room_store.next_room_key()
        &&& self.state.resource_registry.entries() == other.state.resource_registry.entries()
        &&& self.shared.global_entity_map == other.shared.global_entity_map
        &&& self.records() == other.records()
        &&& self.world_hooks() == other.world_hooks()
        &&& self.disconnect_requests() == other.disconnect_requests()
    }

    /// A handle with no users, rooms, entities or queued work.
    pub fn new() -> (r: Self)
        requires
            obeys_key_model::<E>(),
        ensures
            r.wf(),
            r.users() == Map::<u64, UserView>::empty(),
            r.rooms() == Map::<u64, Room>::empty(),
            r.to_global() == Map::<E, u64>::empty(),
            r.records() == Map::<u64, RecordView>::empty(),
            r.scope_changes() == Seq::<ScopeChangeView<E>>::empty(),
            r.world_hooks() == Seq::<ConfigureWorldOp<E>>::empty(),
            r.disconnect_requests() == Seq::<(UserKey, DisconnectReason)>::empty(),
            r.state.user_store.disconnected() == Seq::<(Address, UserKey)>::empty(),
            r.state.room_store.next_room_key() == 0,
            r.shared.global_entity_map.next_global() == 0,
    {
        let r = CoordHandle {
            state: CoordinatorState {
                user_store: UserStore::new(),
                room_store: RoomStore::new(),
                resource_registry: ResourceRegistry::new(),
            },
            shared: ServerShared {
                global_entity_map: GlobalEntityMap::new(),
                global_world_manager: GlobalWorldManager::new(),
                scope_change_queue: VecDeque::new(),
                pending_world_hooks: VecDeque::new(),
                pending_disconnect_requests: Vec::new(),
            },
        };
        proof {
            assert(r.scope_changes() =~= Seq::<ScopeChangeView<E>>::empty());
        }
        r
    }

    fn push_scope_change(&mut self, change: ScopeChange<E>)
        ensures
            final(self).scope_changes() == old(self).scope_changes().push(change@),
            final(self).state == old(self).state,
            final(self).shared.global_entity_map == old(self).shared.global_entity_map,
            final(self).shared.global_world_manager == old(self).shared.global_world_manager,
            final(self).world_hooks() == old(self).world_hooks(),
            final(self).disconnect_requests() == old(self).disconnect_requests(),
    {
        let ghost c = change@;
        self.shared.scope_change_queue.push_back(change);
        proof {
            assert(self.scope_changes() =~= old(self).scope_changes().push(c));
        }
    }


    // Room operations: each pushes its scope change; the send side drains.

    /// Creates an empty room and returns its key.
    pub fn create_room(&mut self) -> (r: RoomKey)
        requires
            old(self).wf(),
            old(self).state.room_store.next_room_key() < u64::MAX,
        ensures
            final(self).wf(),
            !old(self).rooms().contains_key(r.0),
            final(self).rooms() == old(self).rooms().insert(r.0, final(self).rooms()[r.0]),
            final(self).rooms()[r.0].user_seq() == Seq::<UserKey>::empty(),
            final(self).rooms()[r.0].entity_seq() == Seq::<GlobalEntity>::empty(),
            final(self).rooms()[r.0].removal_queue() == Seq::<(UserKey, GlobalEntity)>::empty(),
            final(self).users() == old(self).users(),
            final(self).to_global() == old(self).to_global(),
            final(self).records() == old(self).records(),
            final(self).scope_changes() == old(self).scope_changes(),
            final(self).state.room_store.next_room_key() == old(self).state.room_store.next_room_key() + 1,
            final(self).shared.global_entity_map.next_global() == old(self).shared.global_entity_map.next_global(),
    {
        self.state.room_store.insert(Room::new())
    }

    /// Destroys room `room_key`: its members leave it, and the room's users
    /// and entities are queued as a scope change. Returns whether it existed;
    /// an unknown key changes nothing.
    pub fn room_destroy(&mut self, room_key: &RoomKey) -> (r: bool)
        requires
            old(self).wf(),
        ensures
            final(self).wf(),
            r == old(self).rooms().contains_key(room_key.0),
            r ==> {
                &&& final(self).rooms() == old(self).rooms().remove(room_key.0)
                &&& final(self).users() == users_leaving_room(
                    old(self).users(),
                    old(self).rooms()[room_key.0].user_seq(),
                    *room_key,
                )
                &&& final(self).scope_changes() == old(self).scope_changes().push(
                    ScopeChangeView::RoomDestroyed {
                        room: *room_key,
                        users: old(self).rooms()[room_key.0].user_seq(),
                        entities: old(self).rooms()[room_key.0].entity_seq(),
                    },
                )
            },
            !r ==> final(self).rooms() == old(self).rooms() && final(self).users() == old(self).users()
                && final(self).scope_changes() == old(self).scope_changes(),
            final(self).to_global() == old(self).to_global(),
            final(self).records() == old(self).records(),
            final(self).world_hooks() == old(self).world_hooks(),
    {
        match self.state.room_store.take(room_key) {
            Some(room) => {
                let users = room.user_keys();
                let entities = room.entities();
                let ghost users0 = self.users();
                let ghost shared0 = self.shared;
                let ghost store0 = self.state.room_store;
                let ghost registry0 = self.state.resource_registry;
                let ghost disconnected0 = self.state.user_store.disconnected();
                let mut i: usize = 0;
                while i < users.len()
                    invariant
                        i <= users@.len(),
                        users0 == old(self).users(),
                        self.users() == users_leaving_room(users0, users@.take(i as int), *room_key),
                        self.shared == shared0,
                        self.state.room_store == store0,
                        self.state.resource_registry == registry0,
                        self.state.user_store.disconnected() == disconnected0,
                    decreases users@.len() - i,
                {
                    proof {
                        assert(users@.take(i + 1).drop_last() =~= users@.take(i as int));
                    }
                    self.state.user_store.remove_room(&users[i], room_key);
                    i += 1;
                }
                proof {
                    assert(users@.take(users@.len() as int) =~= users@);
                }
                self.push_scope_change(ScopeChange::RoomDestroyed { room: *room_key, users, entities });
                true
            },
            None => {
                false
            },
        }
    }

    /// Adds `user_key` to room `room_key`, which must exist, and queues the
    /// join with the room's entities in the order they were added.
    pub fn room_add_user(&mut self, room_key: &RoomKey, user_key: &UserKey)
        requires
            old(self).wf(),
            old(self).rooms().contains_key(room_key.0),
        ensures
            final(self).wf(),
            final(self).rooms() == old(self).rooms().insert(room_key.0, final(self).rooms()[room_key.0]),
            final(self).rooms()[room_key.0].user_seq() == seq_add(old(self).rooms()[room_key.0].user_seq(), *user_key),
            final(self).rooms()[room_key.0].entity_seq() == old(self).rooms()[room_key.0].entity_seq(),
            final(self).rooms()[room_key.0].removal_queue() == old(self).rooms()[room_key.0].removal_queue(),
            final(self).users() == user_joining_room(old(self).users(), *user_key, *room_key),
            final(self).scope_changes() == old(self).scope_changes().push(
                ScopeChangeView::UserAdded { room: *room_key, user: *user_key },
            ).push(
                ScopeChangeView::UserJoinedRoom {
                    room: *room_key,
                    user: *user_key,
                    entities: old(self).rooms()[room_key.0].entity_seq(),
                },
            ),
            final(self).to_global() == old(self).to_global(),
            final(self).records() == old(self).records(),
            final(self).world_hooks() == old(self).world_hooks(),
    {
        let mut room = self.state.room_store.take(room_key).unwrap();
        room.subscribe_user(user_key);
        let entities = room.entities();
        self.state.room_store.put_back(room_key, room);
        self.state.user_store.add_room(user_key, room_key);
        self.push_scope_change(ScopeChange::UserAdded { room: *room_key, user: *user_key });
        self.push_scope_change(ScopeChange::UserJoinedRoom { room: *room_key, user: *user_key, entities });
        proof {
            assert(self.rooms() =~= old(self).rooms().insert(room_key.0, self.rooms()[room_key.0]));
        }
    }

    /// Takes `user_key` out of room `room_key`, which must exist: the room
    /// queues one scope exit per entity, and the leave is queued as a scope
    /// change.
    pub fn room_remove_user(&mut self, room_key: &RoomKey, user_key: &UserKey)
        requires
            old(self).wf(),
            old(self).rooms().contains_key(room_key.0),
        ensures
            final(self).wf(),
            final(self).rooms() == old(self).rooms().insert(room_key.0, final(self).rooms()[room_key.0]),
            final(self).rooms()[room_key.0].user_seq() == without(old(self).rooms()[room_key.0].user_seq(), *user_key),
            final(self).rooms()[room_key.0].entity_seq() == old(self).rooms()[room_key.0].entity_seq(),
            final(self).rooms()[room_key.0].removal_queue() == old(self).rooms()[room_key.0].removal_queue()
                + removals_for_user(*user_key, old(self).rooms()[room_key.0].entity_seq()),
            final(self).users() == user_leaving_room(old(self).users(), *user_key, *room_key),
            final(self).scope_changes() == old(self).scope_changes().push(
                ScopeChangeView::UserRemoved { room: *room_key, user: *user_key },
            ).push(
                ScopeChangeView::UserLeftRoom {
                    room: *room_key,
                    user: *user_key,
                    entities: old(self).rooms()[room_key.0].entity_seq(),
                },
            ),
            final(self).to_global() == old(self).to_global(),
            final(self).records() == old(self).records(),
            final(self).world_hooks() == old(self).world_hooks(),
    {
        let mut room = self.state.room_store.take(room_key).unwrap();
        room.unsubscribe_user(user_key);
        let entities = room.entities();
        self.state.room_store.put_back(room_key, room);
        self.state.user_store.remove_room(user_key, room_key);
        self.push_scope_change(ScopeChange::UserRemoved { room: *room_key, user: *user_key });
        self.push_scope_change(ScopeChange::UserLeftRoom { room: *room_key, user: *user_key, entities });
        proof {
            assert(self.rooms() =~= old(self).rooms().insert(room_key.0, self.rooms()[room_key.0]));
        }
    }

    /// Adds the registered entity `world_entity` to room `room_key` and
    /// queues the join with the room's users. An unknown room or an
    /// unregistered entity changes nothing.
    pub fn room_add_entity(&mut self, room_key: &RoomKey, world_entity: &E)
        requires
            old(self).wf(),
        ensures
            final(self).wf(),
            final(self).users() == old(self).users(),
            final(self).to_global() == old(self).to_global(),
            final(self).records() == old(self).records(),
            final(self).world_hooks() == old(self).world_hooks(),
            (old(self).rooms().contains_key(room_key.0) && old(self).to_global().contains_key(*world_entity))
                ==> ({
                let ge = GlobalEntity(old(self).to_global()[*world_entity]);
                let room = old(self).rooms()[room_key.0];
                &&& final(self).rooms() == old(self).rooms().insert(room_key.0, final(self).rooms()[room_key.0])
                &&& final(self).rooms()[room_key.0].entity_seq() == seq_add(room.entity_seq(), ge)
                &&& final(self).rooms()[room_key.0].user_seq() == room.user_seq()
                &&& final(self).rooms()[room_key.0].removal_queue() == room.removal_queue()
                &&& final(self).scope_changes() == old(self).scope_changes().push(
                    ScopeChangeView::EntityAdded { room: *room_key, entity: ge },
                ).push(
                    ScopeChangeView::EntityJoinedRoom { room: *room_key, entity: ge, users: room.user_seq() },
                )
            }),
            !(old(self).rooms().contains_key(room_key.0) && old(self).to_global().contains_key(*world_entity))
                ==> final(self).rooms() == old(self).rooms() && final(self).scope_changes() == old(self).scope_changes(),
    {
        let global_entity = match self.shared.global_entity_map.entity_to_global_entity(world_entity) {
            Some(ge) => ge,
            None => return,
        };
        let mut room = match self.state.room_store.take(room_key) {
            Some(room) => room,
            None => {
                proof {
                    assert(self.rooms() =~= old(self).rooms());
                }
                return;
            },
        };
        room.add_entity(&global_entity);
        let users = room.user_keys();
        self.state.room_store.put_back(room_key, room);
        self.push_scope_change(ScopeChange::EntityAdded { room: *room_key, entity: global_entity });
        self.push_scope_change(ScopeChange::EntityJoinedRoom { room: *room_key, entity: global_entity, users });
        proof {
            assert(self.rooms() =~= old(self).rooms().insert(room_key.0, self.rooms()[room_key.0]));
        }
    }

    /// Takes the registered entity `world_entity` out of room `room_key`:
    /// the room queues one scope exit per user, and the leave is queued as a
    /// scope change. An unknown room, an unregistered entity, or an entity
    /// not in the room changes nothing.
    pub fn room_remove_entity(&mut self, room_key: &RoomKey, world_entity: &E)
        requires
            old(self).wf(),
        ensures
            final(self).wf(),
            final(self).users() == old(self).users(),
            final(self).to_global() == old(self).to_global(),
            final(self).records() == old(self).records(),
            final(self).world_hooks() == old(self).world_hooks(),
            (old(self).rooms().contains_key(room_key.0) && old(self).to_global().contains_key(*world_entity)
                && old(self).rooms()[room_key.0].entity_seq().contains(GlobalEntity(old(self).to_global()[*world_entity])))
                ==> ({
                let ge = GlobalEntity(old(self).to_global()[*world_entity]);
                let room = old(self).rooms()[room_key.0];
                &&& final(self).rooms() == old(self).rooms().insert(room_key.0, final(self).rooms()[room_key.0])
                &&& final(self).rooms()[room_key.0].entity_seq() == without(room.entity_seq(), ge)
                &&& final(self).rooms()[room_key.0].user_seq() == room.user_seq()
                &&& final(self).rooms()[room_key.0].removal_queue() == room.removal_queue()
                    + removals_for_entity(room.user_seq(), ge)
                &&& final(self).scope_changes() == old(self).scope_changes().push(
                    ScopeChangeView::EntityRemoved { room: *room_key, entity: ge },
                ).push(
                    ScopeChangeView::EntityLeftRoom { room: *room_key, entity: ge, users: room.user_seq() },
                )
            }),
            !(old(self).rooms().contains_key(room_key.0) && old(self).to_global().contains_key(*world_entity)
                && old(self).rooms()[room_key.0].entity_seq().contains(GlobalEntity(old(self).to_global()[*world_entity])))
                ==> final(self).rooms() == old(self).rooms() && final(self).scope_changes() == old(self).scope_changes(),
    {
        let global_entity = match self.shared.global_entity_map.entity_to_global_entity(world_entity) {
            Some(ge) => ge,
            None => return,
        };
        let present = match self.state.room_store.get(room_key) {
            Some(room) => room.has_entity(&global_entity),
            None => false,
        };
        if !present {
            return;
        }
        let mut room = self.state.room_store.take(room_key).unwrap();
        room.remove_entity(&global_entity, false);
        let users = room.user_keys();
        self.state.room_store.put_back(room_key, room);
        self.push_scope_change(ScopeChange::EntityRemoved { room: *room_key, entity: global_entity });
        self.push_scope_change(ScopeChange::EntityLeftRoom { room: *room_key, entity: global_entity, users });
        proof {
            assert(self.rooms() =~= old(self).rooms().insert(room_key.0, self.rooms()[room_key.0]));
        }
    }

    // Entity registration

    /// Registers `world_entity` as a server-owned replicating entity under a
    /// new global entity. An entity that is already registered is left as it
    /// is: each entity may be enabled once.
    pub fn enable_entity_replication(&mut self, world_entity: &E)
        requires
            old(self).wf(),
            old(self).shared.global_entity_map.next_global() < u64::MAX,
        ensures
            final(self).wf(),
            final(self).users() == old(self).users(),
            final(self).rooms() == old(self).rooms(),
            final(self).scope_changes() == old(self).scope_changes(),
            final(self).world_hooks() == old(self).world_hooks(),
            final(self).state.room_store.next_room_key() == old(self).state.room_store.next_room_key(),
            old(self).to_global().contains_key(*world_entity) ==> final(self).to_global() == old(self).to_global()
                && final(self).records() == old(self).records()
                && final(self).shared.global_entity_map.next_global() == old(self).shared.global_entity_map.next_global(),
            !old(self).to_global().contains_key(*world_entity) ==> final(self).shared.global_entity_map.next_global()
                == old(self).shared.global_entity_map.next_global() + 1,
            !old(self).to_global().contains_key(*world_entity) ==> ({
                let g = old(self).shared.global_entity_map.next_global();
                &&& final(self).to_global() == old(self).to_global().insert(*world_entity, g)
                &&& final(self).to_world() == old(self).to_world().insert(g, *world_entity)
                &&& final(self).records() == old(self).records().insert(
                    g,
                    RecordView {
                        owner: EntityOwner::Server,
                        config: initial_config(EntityOwner::Server),
                        is_static: false,
                        components: Seq::empty(),
                        diffed: Seq::empty(),
                    },
                )
            }),
    {
        if self.shared.global_entity_map.entity_to_global_entity(world_entity).is_some() {
            return;
        }
        let global_entity = self.shared.global_entity_map.spawn(*world_entity);
        self.shared.global_world_manager.insert_entity_record(&global_entity, EntityOwner::Server);
    }

    /// Marks the registered `world_entity` as static: its component data is
    /// not re-sent after the initial spawn packet. An entity without a
    /// replication record is left as it is.
    pub fn mark_entity_as_static(&mut self, world_entity: &E)
        requires
            old(self).wf(),
            old(self).to_global().contains_key(*world_entity),
        ensures
            final(self).wf(),
            old(self).records().contains_key(old(self).to_global()[*world_entity]) ==> final(self).records()
                == old(self).records().insert(
                old(self).to_global()[*world_entity],
                RecordView { is_static: true, ..old(self).records()[old(self).to_global()[*world_entity]] },
            ),
            !old(self).records().contains_key(old(self).to_global()[*world_entity]) ==> final(self).records()
                == old(self).records(),
            final(self).to_global() == old(self).to_global(),
            final(self).users() == old(self).users(),
            final(self).rooms() == old(self).rooms(),
            final(self).scope_changes() == old(self).scope_changes(),
            final(self).world_hooks() == old(self).world_hooks(),
    {
        let global_entity = self.shared.global_entity_map.entity_to_global_entity(world_entity).unwrap();
        if self.shared.global_world_manager.has_entity(&global_entity) {
            self.shared.global_world_manager.mark_entity_as_static(&global_entity);
        }
    }

    /// The replication configuration of `world_entity`, or `None` when it is
    /// unregistered or has no record.
    pub fn entity_replication_config(&self, world_entity: &E) -> (r: Option<ReplicationConfig>)
        requires
            self.wf(),
        ensures
            (self.to_global().contains_key(*world_entity) && self.records().contains_key(self.to_global()[*world_entity]))
                ==> r == Some(self.records()[self.to_global()[*world_entity]].config),
            !(self.to_global().contains_key(*world_entity) && self.records().contains_key(self.to_global()[*world_entity]))
                ==> r is None,
    {
        match self.shared.global_entity_map.entity_to_global_entity(world_entity) {
            Some(global_entity) => self.shared.global_world_manager.entity_replication_config(&global_entity),
            None => None,
        }
    }

    /// Whether `world_entity` has been marked static; `false` when it is
    /// unregistered or has no record.
    pub fn entity_is_static(&self, world_entity: &E) -> (r: bool)
        requires
            self.wf(),
        ensures
            r == (self.to_global().contains_key(*world_entity) && self.records().contains_key(self.to_global()[*world_entity])
                && self.records()[self.to_global()[*world_entity]].is_static),
    {
        match self.shared.global_entity_map.entity_to_global_entity(world_entity) {
            Some(global_entity) => self.shared.global_world_manager.entity_is_static(&global_entity),
            None => false,
        }
    }

    // Connection lifecycle

    /// Registers a newly accepted user: a record at `user_addr` in no room
    /// (replacing any earlier one), and the address for the handshake to find.
    pub fn receive_user(&mut self, user_key: UserKey, user_addr: Address)
        ensures
            final(self).users() == old(self).users().insert(user_key.0, UserView { address: user_addr, rooms: Seq::empty() }),
            final(self).state.user_store.disconnected() == old(self).state.user_store.disconnected().push((user_addr, user_key)),
            final(self).state.room_store == old(self).state.room_store,
            final(self).shared.global_entity_map == old(self).shared.global_entity_map,
            final(self).records() == old(self).records(),
            final(self).scope_changes() == old(self).scope_changes(),
            final(self).world_hooks() == old(self).world_hooks(),
            final(self).disconnect_requests() == old(self).disconnect_requests(),
    {
        self.state.user_store.insert(user_key, WorldUser::new(user_addr));
        self.state.user_store.register_disconnected(user_addr, user_key);
    }

    /// Deletes the tracked user `user_key` once it is gone: it leaves every
    /// room it is in (each queuing the user's scope exits), its record and
    /// any handshake registration from its address are dropped, and its
    /// address is returned for the connection to be closed.
    pub fn user_delete(&mut self, user_key: &UserKey) -> (r: Address)
        requires
            old(self).wf(),
            old(self).users().contains_key(user_key.0),
        ensures
            final(self).wf(),
            r == old(self).users()[user_key.0].address,
            final(self).users() == old(self).users().remove(user_key.0),
            final(self).state.user_store.disconnected() == old(self).state.user_store.disconnected().filter(
                crate::stores::other_address(r),
            ),
            final(self).rooms().dom() == old(self).rooms().dom(),
            forall|k: u64| #[trigger]
                old(self).rooms().contains_key(k) ==> if old(self).users()[user_key.0].rooms.contains(RoomKey(k)) {
                    &&& final(self).rooms()[k].user_seq() == without(old(self).rooms()[k].user_seq(), *user_key)
                    &&& final(self).rooms()[k].entity_seq() == old(self).rooms()[k].entity_seq()
                    &&& final(self).rooms()[k].removal_queue() == old(self).rooms()[k].removal_queue()
                        + removals_for_user(*user_key, old(self).rooms()[k].entity_seq())
                } else {
                    final(self).rooms()[k] == old(self).rooms()[k]
                },
            final(self).state.room_store.next_room_key() == old(self).state.room_store.next_room_key(),
            final(self).state.resource_registry == old(self).state.resource_registry,
            final(self).shared == old(self).shared,
    {
        let user_rooms = self.state.user_store.room_keys(user_key).unwrap();
        let address = self.state.user_store.address(user_key).unwrap();
        let _ = self.state.user_store.remove(user_key);
        self.state.user_store.take_disconnected(&address);
        let keys = self.state.room_store.keys();
        let ghost ks = keys@.map_values(|k: RoomKey| k.0);
        let ghost rooms0 = self.rooms();
        let ghost listed = old(self).users()[user_key.0].rooms;
        let ghost users1 = self.users();
        let ghost disc1 = self.state.user_store.disconnected();
        let mut i: usize = 0;
        while i < keys.len()
            invariant
                i <= keys@.len(),
                self.wf(),
                rooms0 == old(self).rooms(),
                user_rooms@ == listed,
                ks == keys@.map_values(|k: RoomKey| k.0),
                ks.to_set() == rooms0.dom(),
                ks.no_duplicates(),
                self.rooms().dom() == rooms0.dom(),
                forall|k: u64| #[trigger]
                    rooms0.contains_key(k) ==> if ks.take(i as int).contains(k) && listed.contains(RoomKey(k)) {
                        &&& self.rooms()[k].user_seq() == without(rooms0[k].user_seq(), *user_key)
                        &&& self.rooms()[k].entity_seq() == rooms0[k].entity_seq()
                        &&& self.rooms()[k].removal_queue() == rooms0[k].removal_queue() + removals_for_user(
                            *user_key,
                            rooms0[k].entity_seq(),
                        )
                    } else {
                        self.rooms()[k] == rooms0[k]
                    },
                self.users() == users1,
                self.state.user_store.disconnected() == disc1,
                self.state.room_store.next_room_key() == old(self).state.room_store.next_room_key(),
                self.state.resource_registry == old(self).state.resource_registry,
                self.shared == old(self).shared,
            decreases keys@.len() - i,
        {
            let key = keys[i];
            let ghost k0 = key.0;
            proof {
                assert(ks[i as int] == k0);
                assert(ks.to_set().contains(k0));
                assert(!ks.take(i as int).contains(k0)) by {
                    if ks.take(i as int).contains(k0) {
                        let j = choose|j: int| 0 <= j < i && #[trigger] ks.take(i as int)[j] == k0;
                        assert(ks[j] == ks[i as int]);
                    }
                }
                assert(ks.take(i + 1) =~= ks.take(i as int).push(k0));
            }
            let ghost before = self.rooms();
            if crate::stores::vec_contains_room(&user_rooms, &key) {
                let mut room = self.state.room_store.take(&key).unwrap();
                room.unsubscribe_user(user_key);
                self.state.room_store.put_back(&key, room);
                proof {
                    assert(self.rooms().dom() =~= rooms0.dom());
                    assert(listed.contains(RoomKey(k0))) by {
                        assert(key == RoomKey(k0));
                    }
                }
            } else {
                proof {
                    assert(!listed.contains(RoomKey(k0))) by {
                        assert(key == RoomKey(k0));
                    }
                }
            }
            proof {
                assert forall|k: u64| #[trigger] rooms0.contains_key(k) implies (if ks.take(i + 1).contains(k) && listed.contains(RoomKey(k)) {
                    &&& self.rooms()[k].user_seq() == without(rooms0[k].user_seq(), *user_key)
                    &&& self.rooms()[k].entity_seq() == rooms0[k].entity_seq()
                    &&& self.rooms()[k].removal_queue() == rooms0[k].removal_queue() + removals_for_user(
                        *user_key,
                        rooms0[k].entity_seq(),
                    )
                } else {
                    self.rooms()[k] == rooms0[k]
                }) by {
                    assert(before.contains_key(k));
                    if k != k0 {
                        if ks.take(i + 1).contains(k) {
                            let m = choose|m: int| 0 <= m < i + 1 && #[trigger] ks.take(i + 1)[m] == k;
                            assert(ks.take(i as int)[m] == k);
                        }
                        if ks.take(i as int).contains(k) {
                            let m = choose|m: int| 0 <= m < i && #[trigger] ks.take(i as int)[m] == k;
                            assert(ks.take(i + 1)[m] == k);
                        }
                    } else {
                        assert(ks.take(i + 1)[i as int] == k);
                    }
                }
            }
            i += 1;
        }
        proof {
            assert(ks.take(keys@.len() as int) =~= ks);
            assert forall|k: u64| rooms0.contains_key(k) implies ks.contains(k) by {
                assert(ks.to_set().contains(k));
            }
        }
        address
    }

    /// Asks the receive side to disconnect `user_key`, kicked. An untracked
    /// user changes nothing.
    pub fn disconnect_user(&mut self, user_key: &UserKey)
        ensures
            old(self).users().contains_key(user_key.0) ==> final(self).disconnect_requests()
                == old(self).disconnect_requests().push((*user_key, DisconnectReason::Kicked)),
            !old(self).users().contains_key(user_key.0) ==> final(self).disconnect_requests()
                == old(self).disconnect_requests(),
            final(self).state == old(self).state,
            final(self).shared.global_entity_map == old(self).shared.global_entity_map,
            final(self).records() == old(self).records(),
            final(self).scope_changes() == old(self).scope_changes(),
            final(self).world_hooks() == old(self).world_hooks(),
    {
        if !self.state.user_store.contains(user_key) {
            return;
        }
        self.shared.pending_disconnect_requests.push((*user_key, DisconnectReason::Kicked));
    }

    // Replication configuration

    /// The parts of the handle that capturing a transition step leaves alone.
    pub open spec fn same_outside_records(&self, other: &Self) -> bool {
        &&& self.state == other.state
        &&& self.shared.global_entity_map == other.shared.global_entity_map
        &&& self.scope_changes() == other.scope_changes()
        &&& self.world_hooks() == other.world_hooks()
        &&& self.disconnect_requests() == other.disconnect_requests()
    }

    /// Publishes the client-owned `global_entity` at once and records the
    /// send-side and world-side work it leaves.
    fn capture_publish(
        &mut self,
        global_entity: &GlobalEntity,
        world_entity: &E,
        send_ops: &mut Vec<ConfigureSendOp<E>>,
        world_ops: &mut Vec<ConfigureWorldOp<E>>,
    )
        requires
            old(self).wf(),
            old(self).records().contains_key(global_entity.0),
            old(self).records()[global_entity.0].owner is Client,
        ensures
            final(self).wf(),
            final(self).same_outside_records(old(self)),
            final(self).records() == old(self).records().insert(global_entity.0, published(old(self).records()[global_entity.0])),
            final(send_ops)@ == old(send_ops)@ + publish_send_ops(old(self).records()[global_entity.0], *global_entity, old(self).users()),
            final(world_ops)@ == old(world_ops)@ + seq![ConfigureWorldOp::Publish { world_entity: *world_entity }],
    {
        let ghost rec = self.records()[global_entity.0];
        let owner = self.shared.global_world_manager.entity_owner(global_entity);
        let user_key = match owner {
            Some(EntityOwner::Client(k)) => k,
            _ => {
                proof {
                    assert(false);
                }
                return;
            },
        };
        match self.state.user_store.address(&user_key) {
            Some(addr) => send_ops.push(ConfigureSendOp::Publish { global_entity: *global_entity, owner_addr: addr }),
            None => {},
        }
        let result = self.shared.global_world_manager.entity_publish(global_entity);
        if result {
            world_ops.push(ConfigureWorldOp::Publish { world_entity: *world_entity });
            send_ops.push(ConfigureSendOp::PublishScopeReeval { global_entity: *global_entity });
        }
        proof {
            assert(final(send_ops)@ =~= old(send_ops)@ + publish_send_ops(rec, *global_entity, old(self).users()));
            assert(final(world_ops)@ =~= old(world_ops)@ + seq![ConfigureWorldOp::Publish { world_entity: *world_entity }]);
        }
    }

    /// Unpublishes `global_entity` at once, capturing the publishing
    /// client's address before the record hands the entity back.
    fn capture_unpublish(
        &mut self,
        global_entity: &GlobalEntity,
        world_entity: &E,
        send_ops: &mut Vec<ConfigureSendOp<E>>,
        world_ops: &mut Vec<ConfigureWorldOp<E>>,
    )
        requires
            old(self).wf(),
            old(self).records().contains_key(global_entity.0),
        ensures
            final(self).wf(),
            final(self).same_outside_records(old(self)),
            final(self).records() == old(self).records().insert(global_entity.0, unpublished(old(self).records()[global_entity.0])),
            final(send_ops)@ == old(send_ops)@ + seq![ConfigureSendOp::Unpublish {
                global_entity: *global_entity,
                owner_addr: unpublish_owner_addr(old(self).records()[global_entity.0], old(self).users()),
            }],
            final(world_ops)@ == old(world_ops)@ + seq![ConfigureWorldOp::Unpublish { world_entity: *world_entity }],
    {
        let ghost rec = self.records()[global_entity.0];
        let owner_addr = match self.shared.global_world_manager.entity_owner(global_entity) {
            Some(EntityOwner::ClientPublic(k)) => self.state.user_store.address(&k),
            _ => None,
        };
        send_ops.push(ConfigureSendOp::Unpublish { global_entity: *global_entity, owner_addr });
        self.shared.global_world_manager.entity_unpublish(global_entity);
        let kinds = self.shared.global_world_manager.component_kinds(global_entity).unwrap();
        let ghost rec1 = self.records()[global_entity.0];
        let ghost records1 = self.records();
        let ghost other = *self;
        let mut i: usize = 0;
        while i < kinds.len()
            invariant
                i <= kinds@.len(),
                kinds@ == rec.components,
                self.wf(),
                self.same_outside_records(&other),
                other.same_outside_records(old(self)),
                self.records() == records1.insert(
                    global_entity.0,
                    RecordView { diffed: strip_kinds(rec1.diffed, kinds@.take(i as int)), ..rec1 },
                ),
                records1.contains_key(global_entity.0),
                rec1 == records1[global_entity.0],
            decreases kinds@.len() - i,
        {
            proof {
                assert(kinds@.take(i + 1).drop_last() =~= kinds@.take(i as int));
            }
            self.shared.global_world_manager.remove_component_diff_handler(global_entity, &kinds[i]);
            proof {
                assert(self.records() =~= records1.insert(
                    global_entity.0,
                    RecordView { diffed: strip_kinds(rec1.diffed, kinds@.take(i + 1)), ..rec1 },
                ));
            }
            i += 1;
        }
        world_ops.push(ConfigureWorldOp::Unpublish { world_entity: *world_entity });
        proof {
            assert(kinds@.take(kinds@.len() as int) =~= kinds@);
            assert(self.records() =~= old(self).records().insert(global_entity.0, unpublished(rec)));
            assert(final(send_ops)@ =~= old(send_ops)@ + seq![ConfigureSendOp::Unpublish {
                global_entity: *global_entity,
                owner_addr: unpublish_owner_addr(rec, old(self).users()),
            }]);
            assert(final(world_ops)@ =~= old(world_ops)@ + seq![ConfigureWorldOp::Unpublish { world_entity: *world_entity }]);
        }
    }

    /// Enables delegation of `global_entity`: the fan-out always; for a
    /// client-origin entity the migration is left to the send side, for a
    /// server-origin one the record changes at once.
    fn capture_enable_delegation(
        &mut self,
        global_entity: &GlobalEntity,
        world_entity: &E,
        client_origin: Option<UserKey>,
        send_ops: &mut Vec<ConfigureSendOp<E>>,
        world_ops: &mut Vec<ConfigureWorldOp<E>>,
    )
        requires
            old(self).wf(),
            old(self).records().contains_key(global_entity.0),
        ensures
            final(self).wf(),
            final(self).same_outside_records(old(self)),
            final(self).records() == old(self).records().insert(
                global_entity.0,
                enable_delegation_record(old(self).records()[global_entity.0], client_origin),
            ),
            final(send_ops)@ == old(send_ops)@ + enable_delegation_send_ops(*global_entity, *world_entity, client_origin),
            final(world_ops)@ == old(world_ops)@ + enable_delegation_world_ops(*world_entity, client_origin),
    {
        send_ops.push(ConfigureSendOp::EnableDelegationFanout { global_entity: *global_entity, client_origin });
        match client_origin {
            Some(client_key) => {
                send_ops.push(ConfigureSendOp::DelegationMigrate {
                    global_entity: *global_entity,
                    world_entity: *world_entity,
                    client_key,
                });
                proof {
                    assert(self.records() =~= old(self).records().insert(global_entity.0, old(self).records()[global_entity.0]));
                }
            },
            None => {
                self.shared.global_world_manager.entity_enable_delegation(global_entity);
                world_ops.push(ConfigureWorldOp::EnableDelegation { world_entity: *world_entity });
            },
        }
        proof {
            assert(final(send_ops)@ =~= old(send_ops)@ + enable_delegation_send_ops(*global_entity, *world_entity, client_origin));
            assert(final(world_ops)@ =~= old(world_ops)@ + enable_delegation_world_ops(*world_entity, client_origin));
        }
    }

    /// Disables delegation of `global_entity` at once and records the fan-out.
    fn capture_disable_delegation(
        &mut self,
        global_entity: &GlobalEntity,
        world_entity: &E,
        send_ops: &mut Vec<ConfigureSendOp<E>>,
        world_ops: &mut Vec<ConfigureWorldOp<E>>,
    )
        requires
            old(self).wf(),
            old(self).records().contains_key(global_entity.0),
        ensures
            final(self).wf(),
            final(self).same_outside_records(old(self)),
            final(self).records() == old(self).records().insert(
                global_entity.0,
                with_publicity(old(self).records()[global_entity.0], Publicity::Public),
            ),
            final(send_ops)@ == old(send_ops)@ + seq![ConfigureSendOp::DisableDelegationFanout { global_entity: *global_entity }],
            final(world_ops)@ == old(world_ops)@ + seq![ConfigureWorldOp::DisableDelegation { world_entity: *world_entity }],
    {
        send_ops.push(ConfigureSendOp::DisableDelegationFanout { global_entity: *global_entity });
        self.shared.global_world_manager.entity_disable_delegation(global_entity);
        world_ops.push(ConfigureWorldOp::DisableDelegation { world_entity: *world_entity });
        proof {
            assert(final(send_ops)@ =~= old(send_ops)@ + seq![ConfigureSendOp::DisableDelegationFanout { global_entity: *global_entity }]);
            assert(final(world_ops)@ =~= old(world_ops)@ + seq![ConfigureWorldOp::DisableDelegation { world_entity: *world_entity }]);
        }
    }

    /// Sets the replication configuration of the registered, recorded
    /// `world_entity` to `config`.
    ///
    /// The publicity transition runs once, against the record as it stands:
    /// the record changes at once, so a later reconfiguration in the same
    /// tick sees the new state, while the send-side work is queued as one
    /// scope change and the world hooks are appended to their queue, each
    /// with every parameter resolved now. The scope exit is always stored.
    /// An identical configuration changes nothing.
    pub fn configure_entity_replication(&mut self, world_entity: &E, config: ReplicationConfig)
        requires
            old(self).wf(),
            old(self).to_global().contains_key(*world_entity),
            old(self).records().contains_key(old(self).to_global()[*world_entity]),
            !configure_refused(
                old(self).records()[old(self).to_global()[*world_entity]].owner,
                old(self).records()[old(self).to_global()[*world_entity]].config.publicity,
                config.publicity,
            ),
        ensures
            final(self).wf(),
            final(self).users() == old(self).users(),
            final(self).rooms() == old(self).rooms(),
            final(self).to_global() == old(self).to_global(),
            final(self).disconnect_requests() == old(self).disconnect_requests(),
            ({
                let ge = GlobalEntity(old(self).to_global()[*world_entity]);
                let rec = old(self).records()[ge.0];
                let t = configure_transition(rec, config.publicity, ge, *world_entity, old(self).users());
                &&& rec.config == config ==> {
                    &&& final(self).records() == old(self).records()
                    &&& final(self).scope_changes() == old(self).scope_changes()
                    &&& final(self).world_hooks() == old(self).world_hooks()
                }
                &&& rec.config != config ==> {
                    &&& final(self).records() == old(self).records().insert(
                        ge.0,
                        RecordView { config: ReplicationConfig { scope_exit: config.scope_exit, ..t.2.config }, ..t.2 },
                    )
                    &&& t.0.len() > 0 ==> final(self).scope_changes() == old(self).scope_changes().push(
                        ScopeChangeView::ConfigureReplication(t.0),
                    )
                    &&& t.0.len() == 0 ==> final(self).scope_changes() == old(self).scope_changes()
                    &&& final(self).world_hooks() == old(self).world_hooks() + t.1
                }
                // the stored configuration is the one asked for, except that a
                // client-origin entity's delegation waits for its migration
                &&& final(self).records()[ge.0].config.scope_exit == config.scope_exit
                &&& final(self).records()[ge.0].config.publicity == config.publicity || (config.publicity
                    == Publicity::Delegated && client_origin_of(rec.owner) is Some)
            }),
    {
        let global_entity = self.shared.global_entity_map.entity_to_global_entity(world_entity).unwrap();
        let ghost rec = self.records()[global_entity.0];
        let entity_owner = self.shared.global_world_manager.entity_owner(&global_entity).unwrap();
        let server_owned = entity_owner.is_server();
        let client_origin: Option<UserKey> = match entity_owner {
            EntityOwner::Client(k) | EntityOwner::ClientPublic(k) | EntityOwner::ClientWaiting(k) => Some(k),
            EntityOwner::Server | EntityOwner::Local => None,
        };
        let prev_config = self.shared.global_world_manager.entity_replication_config(&global_entity).unwrap();
        if prev_config == config {
            return;
        }
        let mut send_ops: Vec<ConfigureSendOp<E>> = Vec::new();
        let mut world_ops: Vec<ConfigureWorldOp<E>> = Vec::new();
        let ghost pre = *self;
        if prev_config.publicity != config.publicity {
            match prev_config.publicity {
                Publicity::Private => match config.publicity {
                    Publicity::Private => {},
                    Publicity::Public => {
                        self.capture_publish(&global_entity, world_entity, &mut send_ops, &mut world_ops);
                    },
                    Publicity::Delegated => {
                        self.capture_publish(&global_entity, world_entity, &mut send_ops, &mut world_ops);
                        self.capture_enable_delegation(
                            &global_entity,
                            world_entity,
                            client_origin,
                            &mut send_ops,
                            &mut world_ops,
                        );
                    },
                },
                Publicity::Public => match config.publicity {
                    Publicity::Private => {
                        self.capture_unpublish(&global_entity, world_entity, &mut send_ops, &mut world_ops);
                    },
                    Publicity::Public => {},
                    Publicity::Delegated => {
                        self.capture_enable_delegation(
                            &global_entity,
                            world_entity,
                            client_origin,
                            &mut send_ops,
                            &mut world_ops,
                        );
                    },
                },
                Publicity::Delegated => match config.publicity {
                    Publicity::Private => {
                        self.capture_disable_delegation(&global_entity, world_entity, &mut send_ops, &mut world_ops);
                        self.capture_unpublish(&global_entity, world_entity, &mut send_ops, &mut world_ops);
                    },
                    Publicity::Public => {
                        self.capture_disable_delegation(&global_entity, world_entity, &mut send_ops, &mut world_ops);
                    },
                    Publicity::Delegated => {},
                },
            }
        }
        proof {
            let t = configure_transition(rec, config.publicity, global_entity, *world_entity, old(self).users());
            assert(send_ops@ =~= t.0);
            assert(world_ops@ =~= t.1);
            assert(self.records() =~= old(self).records().insert(global_entity.0, t.2));
        }
        self.shared.global_world_manager.entity_set_scope_exit(&global_entity, config.scope_exit);
        if send_ops.len() > 0 {
            self.push_scope_change(ScopeChange::ConfigureReplication(send_ops));
        }
        let mut i: usize = 0;
        let ghost hooks0 = self.world_hooks();
        let ghost mid = *self;
        while i < world_ops.len()
            invariant
                i <= world_ops@.len(),
                self.world_hooks() == hooks0 + world_ops@.take(i as int),
                self.state == mid.state,
                self.shared.global_entity_map == mid.shared.global_entity_map,
                self.shared.global_world_manager == mid.shared.global_world_manager,
                self.scope_changes() == mid.scope_changes(),
                self.disconnect_requests() == mid.disconnect_requests(),
            decreases world_ops@.len() - i,
        {
            self.shared.pending_world_hooks.push_back(world_ops[i]);
            proof {
                assert(world_ops@.take(i + 1) =~= world_ops@.take(i as int).push(world_ops@[i as int]));
            }
            i += 1;
        }
        proof {
            assert(world_ops@.take(world_ops@.len() as int) =~= world_ops@);
        }
    }

    // Reads

    /// Whether `world_entity` is a hidden resource entity.
    pub fn is_resource_entity(&self, world_entity: &E) -> (r: bool)
        requires
            self.wf(),
        ensures
            r == (self.to_global().contains_key(*world_entity) && exists|i: int|
                0 <= i < self.state.resource_registry.entries().len()
                    && #[trigger] self.state.resource_registry.entries()[i].1 == GlobalEntity(
                    self.to_global()[*world_entity],
                )),
    {
        match self.shared.global_entity_map.entity_to_global_entity(world_entity) {
            Some(global_entity) => self.state.resource_registry.is_resource_entity(&global_entity),
            None => false,
        }
    }

    /// The global entity of `world_entity`, or an error when it is not
    /// registered.
    pub fn entity_to_global_entity(&self, world_entity: &E) -> (r: Result<GlobalEntity, EntityDoesNotExistError>)
        requires
            self.wf(),
        ensures
            self.to_global().contains_key(*world_entity) ==> r == Ok::<GlobalEntity, EntityDoesNotExistError>(
                GlobalEntity(self.to_global()[*world_entity])),
            !self.to_global().contains_key(*world_entity) ==> r == Err::<GlobalEntity, EntityDoesNotExistError>(
                EntityDoesNotExistError),
    {
        match self.shared.global_entity_map.entity_to_global_entity(world_entity) {
            Some(g) => Ok(g),
            None => Err(EntityDoesNotExistError),
        }
    }

    /// The world entity of `global_entity`, or an error when it is not
    /// registered.
    pub fn global_entity_to_entity(&self, global_entity: &GlobalEntity) -> (r: Result<E, EntityDoesNotExistError>)
        requires
            self.wf(),
        ensures
            self.to_world().contains_key(global_entity.0) ==> r == Ok::<E, EntityDoesNotExistError>(
                self.to_world()[global_entity.0]),
            !self.to_world().contains_key(global_entity.0) ==> r == Err::<E, EntityDoesNotExistError>(
                EntityDoesNotExistError),
    {
        match self.shared.global_entity_map.global_entity_to_entity(global_entity) {
            Some(e) => Ok(e),
            None => Err(EntityDoesNotExistError),
        }
    }

    /// Whether a resource of kind `kind` is inserted.
    pub fn has_resource(&self, kind: &ComponentKind) -> (r: bool)
        ensures
            r == exists|i: int| 0 <= i < self.state.resource_registry.entries().len()
                && #[trigger] self.state.resource_registry.entries()[i].0 == *kind,
    {
        let g = self.state.resource_registry.entity_for(kind);
        proof {
            if g is Some {
                let i = choose|i: int| 0 <= i < self.state.resource_registry.entries().len()
                    && #[trigger] self.state.resource_registry.entries()[i] == (*kind, g->0)
                    && forall|j: int| 0 <= j < i ==> #[trigger] self.state.resource_registry.entries()[j].0 != *kind;
                assert(self.state.resource_registry.entries()[i].0 == *kind);
            }
        }
        g.is_some()
    }

    /// The world entity carrying the resource of kind `kind`: the entity of
    /// the first registry entry of that kind, when that entity is still
    /// registered.
    pub fn resource_entity(&self, kind: &ComponentKind) -> (r: Option<E>)
        requires
            self.wf(),
        ensures
            (forall|i: int| 0 <= i < self.state.resource_registry.entries().len()
                ==> #[trigger] self.state.resource_registry.entries()[i].0 != *kind) ==> r is None,
            forall|i: int| 0 <= i < self.state.resource_registry.entries().len()
                && #[trigger] self.state.resource_registry.entries()[i].0 == *kind
                && (forall|j: int| 0 <= j < i ==> #[trigger] self.state.resource_registry.entries()[j].0 != *kind)
                ==> {
                    let n = self.state.resource_registry.entries()[i].1.0;
                    &&& self.to_world().contains_key(n) ==> r == Some(self.to_world()[n])
                    &&& !self.to_world().contains_key(n) ==> r is None
                },
    {
        match self.state.resource_registry.entity_for(kind) {
            Some(g) => {
                proof {
                    let entries = self.state.resource_registry.entries();
                    let i0 = choose|i: int| 0 <= i < entries.len() && #[trigger] entries[i] == (*kind, g)
                        && forall|j: int| 0 <= j < i ==> #[trigger] entries[j].0 != *kind;
                    assert(entries[i0].0 == *kind);
                    assert forall|i: int| 0 <= i < entries.len() && #[trigger] entries[i].0 == *kind
                        && (forall|j: int| 0 <= j < i ==> #[trigger] entries[j].0 != *kind) implies i == i0 by {
                        if i < i0 {
                            assert(entries[i].0 != *kind);
                        } else if i > i0 {
                            assert(entries[i0].0 != *kind);
                        }
                    }
                }
                self.shared.global_entity_map.global_entity_to_entity(&g)
            },
            None => None,
        }
    }

    /// Who holds authority over `world_entity`: its record's owner, or
    /// `Local` when it is not registered or has no record.
    pub fn entity_owner(&self, world_entity: &E) -> (r: EntityOwner)
        requires
            self.wf(),
        ensures
            (self.to_global().contains_key(*world_entity) && self.records().contains_key(
                self.to_global()[*world_entity],
            )) ==> r == self.records()[self.to_global()[*world_entity]].owner,
            !(self.to_global().contains_key(*world_entity) && self.records().contains_key(
                self.to_global()[*world_entity],
            )) ==> r == EntityOwner::Local,
    {
        match self.shared.global_entity_map.entity_to_global_entity(world_entity) {
            Some(global_entity) => match self.shared.global_world_manager.entity_owner(&global_entity) {
                Some(owner) => owner,
                None => EntityOwner::Local,
            },
            None => EntityOwner::Local,
        }
    }

    /// Whether `user_key` is tracked.
    pub fn user_exists(&self, user_key: &UserKey) -> (r: bool)
        ensures
            r == self.users().contains_key(user_key.0),
    {
        self.state.user_store.contains(user_key)
    }

    /// Every tracked user's key, each once, including users whose handshake
    /// has not completed.
    pub fn user_keys(&self) -> (r: Vec<UserKey>)
        ensures
            r@.map_values(|k: UserKey| k.0).to_set() == self.users().dom(),
            r@.map_values(|k: UserKey| k.0).no_duplicates(),
    {
        self.state.user_store.keys_copied()
    }

    /// The address of `user_key`, if tracked.
    pub fn user_address(&self, user_key: &UserKey) -> (r: Option<Address>)
        ensures
            self.users().contains_key(user_key.0) ==> r == Some(self.users()[user_key.0].address),
            !self.users().contains_key(user_key.0) ==> r is None,
    {
        self.state.user_store.address(user_key)
    }

    /// How many entities are registered for replication.
    pub fn entity_count(&self) -> (r: usize)
        requires
            self.wf(),
        ensures
            r == self.to_global().len(),
    {
        self.shared.global_entity_map.entity_count()
    }

    /// How many users are tracked.
    pub fn users_count(&self) -> (r: usize)
        ensures
            r == self.users().len(),
    {
        self.state.user_store.len()
    }

    /// The key numbers of the users whose handshake has completed: tracked
    /// users with no registration still waiting.
    pub open spec fn connected_users(&self) -> Set<u64> {
        self.users().dom().filter(|k: u64| !self.state.user_store.pending_keys().contains(k))
    }

    /// How many users have completed their handshake.
    pub fn user_count(&self) -> (r: usize)
        ensures
            r == self.connected_users().len(),
    {
        let keys = self.user_keys();
        let ghost ks = keys@.map_values(|k: UserKey| k.0);
        let ghost pred = |k: u64| !self.state.user_store.pending_keys().contains(k);
        let ghost mut acc: Seq<u64> = Seq::empty();
        let mut count: usize = 0;
        let mut i: usize = 0;
        while i < keys.len()
            invariant
                i <= keys@.len(),
                ks == keys@.map_values(|k: UserKey| k.0),
                ks.no_duplicates(),
                pred == (|k: u64| !self.state.user_store.pending_keys().contains(k)),
                count == acc.len(),
                count <= i,
                acc.no_duplicates(),
                forall|x: u64| acc.contains(x) <==> (ks.take(i as int).contains(x) && pred(x)),
            decreases keys@.len() - i,
        {
            proof {
                assert(ks.take(i + 1) =~= ks.take(i as int).push(ks[i as int]));
                assert(!ks.take(i as int).contains(ks[i as int])) by {
                    if ks.take(i as int).contains(ks[i as int]) {
                        let j = choose|j: int| 0 <= j < i && ks.take(i as int)[j] == ks[i as int];
                        assert(ks[j] == ks[i as int]);
                    }
                }
            }
            let pending = self.state.user_store.is_pending(&keys[i]);
            let ghost before = acc;
            proof {
                assert(ks[i as int] == keys@[i as int].0);
                assert(pending == !pred(ks[i as int]));
                assert(!before.contains(ks[i as int]));
            }
            if !pending {
                proof {
                    acc = acc.push(ks[i as int]);
                    assert forall|x: u64| acc.contains(x) <==> (ks.take(i + 1).contains(x) && pred(x)) by {
                        if x == ks[i as int] {
                            assert(acc[acc.len() - 1] == x);
                            assert(ks.take(i + 1)[i as int] == x);
                        } else {
                            if acc.contains(x) {
                                let j = choose|j: int| 0 <= j < acc.len() && acc[j] == x;
                                assert(before[j] == x);
                            }
                            if ks.take(i + 1).contains(x) {
                                let j = choose|j: int| 0 <= j < i + 1 && #[trigger] ks.take(i + 1)[j] == x;
                                assert(ks.take(i as int)[j] == x);
                            }
                            if before.contains(x) {
                                let j = choose|j: int| 0 <= j < before.len() && before[j] == x;
                                assert(acc[j] == x);
                            }
                        }
                    }
                }
                count += 1;
            } else {
                proof {
                    assert forall|x: u64| acc.contains(x) <==> (ks.take(i + 1).contains(x) && pred(x)) by {
                        if ks.take(i + 1).contains(x) && x != ks[i as int] {
                            let j = choose|j: int| 0 <= j < i + 1 && #[trigger] ks.take(i + 1)[j] == x;
                            assert(ks.take(i as int)[j] == x);
                        }
                        if ks.take(i as int).contains(x) {
                            let j = choose|j: int| 0 <= j < i && #[trigger] ks.take(i as int)[j] == x;
                            assert(ks.take(i + 1)[j] == x);
                        }
                    }
                }
            }
            i += 1;
        }
        proof {
            assert(ks.take(keys@.len() as int) =~= ks);
            assert(acc.to_set() =~= self.connected_users()) by {
                assert forall|x: u64| acc.to_set().contains(x) <==> self.connected_users().contains(x) by {
                    assert(ks.contains(x) <==> ks.to_set().contains(x));
                }
            }
            acc.unique_seq_to_set();
        }
        count
    }

    /// Whether `room_key` names a room.
    pub fn room_exists(&self, room_key: &RoomKey) -> (r: bool)
        ensures
            r == self.rooms().contains_key(room_key.0),
    {
        self.state.room_store.contains(room_key)
    }

    /// Every room key, each once.
    pub fn room_keys(&self) -> (r: Vec<RoomKey>)
        ensures
            r@.map_values(|k: RoomKey| k.0).to_set() == self.rooms().dom(),
            r@.map_values(|k: RoomKey| k.0).no_duplicates(),
    {
        self.state.room_store.keys()
    }

    /// How many rooms there are.
    pub fn rooms_count(&self) -> (r: usize)
        ensures
            r == self.rooms().len(),
    {
        self.state.room_store.len()
    }

    /// How many rooms there are, counted through their keys.
    pub fn room_count(&self) -> (r: usize)
        ensures
            r == self.rooms().len(),
    {
        let keys = self.room_keys();
        proof {
            let ks = keys@.map_values(|k: RoomKey| k.0);
            ks.unique_seq_to_set();
        }
        keys.len()
    }

    /// How many resources are inserted.
    pub fn resources_count(&self) -> (r: usize)
        ensures
            r == self.state.resource_registry.entries().len(),
    {
        self.state.resource_registry.len()
    }

    /// How many scope changes wait for the send side.
    pub fn scope_change_queue_len(&self) -> (r: usize)
        ensures
            r == self.scope_changes().len(),
    {
        self.shared.scope_change_queue.len()
    }

    /// How many world-hook operations wait to be applied.
    pub fn pending_world_hooks_len(&self) -> (r: usize)
        ensures
            r == self.world_hooks().len(),
    {
        self.shared.pending_world_hooks.len()
    }

    /// Whether `user_key` is in room `room_key`; `false` for an unknown room.
    pub fn room_has_user(&self, room_key: &RoomKey, user_key: &UserKey) -> (r: bool)
        ensures
            r == (self.rooms().contains_key(room_key.0) && self.rooms()[room_key.0].user_seq().contains(*user_key)),
    {
        match self.state.room_store.get(room_key) {
            Some(room) => room.has_user(user_key),
            None => false,
        }
    }

    /// How many users are in room `room_key`; 0 for an unknown room.
    pub fn room_users_count(&self, room_key: &RoomKey) -> (r: usize)
        ensures
            self.rooms().contains_key(room_key.0) ==> r == self.rooms()[room_key.0].user_seq().len(),
            !self.rooms().contains_key(room_key.0) ==> r == 0,
    {
        match self.state.room_store.get(room_key) {
            Some(room) => room.users_count(),
            None => 0,
        }
    }

    /// The users in room `room_key` in joining order; none for an unknown room.
    pub fn room_user_keys(&self, room_key: &RoomKey) -> (r: Vec<UserKey>)
        ensures
            self.rooms().contains_key(room_key.0) ==> r@ == self.rooms()[room_key.0].user_seq(),
            !self.rooms().contains_key(room_key.0) ==> r@ == Seq::<UserKey>::empty(),
    {
        match self.state.room_store.get(room_key) {
            Some(room) => room.user_keys(),
            None => Vec::new(),
        }
    }

    /// Whether `world_entity` is registered and in room `room_key`.
    pub fn room_has_entity(&self, room_key: &RoomKey, world_entity: &E) -> (r: bool)
        requires
            self.wf(),
        ensures
            r == (self.to_global().contains_key(*world_entity) && self.rooms().contains_key(room_key.0)
                && self.rooms()[room_key.0].entity_seq().contains(GlobalEntity(self.to_global()[*world_entity]))),
    {
        match self.shared.global_entity_map.entity_to_global_entity(world_entity) {
            Some(global_entity) => match self.state.room_store.get(room_key) {
                Some(room) => room.has_entity(&global_entity),
                None => false,
            },
            None => false,
        }
    }

    /// The world entities in room `room_key`, in the order they were added,
    /// leaving out any that no longer resolve; none for an unknown room.
    pub fn room_entities(&self, room_key: &RoomKey) -> (r: Vec<E>)
        requires
            self.wf(),
        ensures
            self.rooms().contains_key(room_key.0) ==> r@ == resolve_entities(
                self.rooms()[room_key.0].entity_seq(),
                self.to_world(),
            ),
            !self.rooms().contains_key(room_key.0) ==> r@ == Seq::<E>::empty(),
    {
        let mut output: Vec<E> = Vec::new();
        match self.state.room_store.get(room_key) {
            Some(room) => {
                let globals = room.entities();
                let mut i: usize = 0;
                while i < globals.len()
                    invariant
                        i <= globals@.len(),
                        self.wf(),
                        output@ == resolve_entities(globals@.take(i as int), self.to_world()),
                    decreases globals@.len() - i,
                {
                    proof {
                        assert(globals@.take(i + 1).drop_last() =~= globals@.take(i as int));
                    }
                    match self.shared.global_entity_map.global_entity_to_entity(&globals[i]) {
                        Some(entity) => output.push(entity),
                        None => {},
                    }
                    i += 1;
                }
                proof {
                    assert(globals@.take(globals@.len() as int) =~= globals@);
                }
            },
            None => {},
        }
        output
    }

    /// How many entities are in room `room_key`; 0 for an unknown room.
    pub fn room_entities_count(&self, room_key: &RoomKey) -> (r: usize)
        ensures
            self.rooms().contains_key(room_key.0) ==> r == self.rooms()[room_key.0].entity_seq().len(),
            !self.rooms().contains_key(room_key.0) ==> r == 0,
    {
        match self.state.room_store.get(room_key) {
            Some(room) => room.entities_count(),
            None => 0,
        }
    }

    /// Every entity `room_entities` lists for a room is one `room_has_entity`
    /// reports in that room; there are at most `room_entities_count` of
    /// them, and exactly that many when every entity in the room is still
    /// registered.
    pub proof fn lemma_room_entities_agree(&self, room_key: RoomKey)
        requires
            self.wf(),
            self.rooms().contains_key(room_key.0),
        ensures
            ({
                let globals = self.rooms()[room_key.0].entity_seq();
                let listed = resolve_entities(globals, self.to_world());
                &&& forall|i: int| 0 <= i < listed.len() ==> {
                    &&& self.to_global().contains_key(#[trigger] listed[i])
                    &&& globals.contains(GlobalEntity(self.to_global()[listed[i]]))
                }
                &&& listed.len() <= globals.len()
                &&& (forall|j: int| 0 <= j < globals.len() ==> self.to_world().contains_key(#[trigger] globals[j].0))
                    ==> listed.len() == globals.len()
            }),
    {
        lemma_resolve_entities(self.rooms()[room_key.0].entity_seq(), self.to_world(), self.to_global());
    }

    /// How many rooms `user_key` is in, or `None` for an untracked user.
    pub fn user_rooms_count(&self, user_key: &UserKey) -> (r: Option<usize>)
        ensures
            self.users().contains_key(user_key.0) ==> r == Some(self.users()[user_key.0].rooms.len() as usize),
            !self.users().contains_key(user_key.0) ==> r is None,
    {
        self.state.user_store.rooms_count(user_key)
    }

    /// The rooms `user_key` is in, in joining order, or `None` for an
    /// untracked user.
    pub fn user_room_keys(&self, user_key: &UserKey) -> (r: Option<Vec<RoomKey>>)
        ensures
            self.users().contains_key(user_key.0) ==> r is Some && r->0@ == self.users()[user_key.0].rooms,
            !self.users().contains_key(user_key.0) ==> r is None,
    {
        self.state.user_store.room_keys(user_key)
    }
}

} // verus!
