//! Server-wide registries: which world entity is which global entity, and
//! the replication record (owner, publicity, components) of each.

use std::collections::HashMap;
use std::hash::Hash;

use vstd::prelude::*;
use vstd::std_specs::hash::obeys_key_model;

use crate::keys::{ComponentKind, GlobalEntity, UserKey};
use crate::maps::keys_of;

verus! {

broadcast use vstd::std_specs::hash::group_hash_axioms;

/// Who holds authoritative control over an entity.
#[derive(Clone, Copy, PartialEq, Eq, Hash, Debug, Structural)]
pub enum EntityOwner {
    /// The server spawned it and replicates it.
    Server,
    /// A client spawned it; it is visible to that client only.
    Client(UserKey),
    /// A client spawned it and the server is still waiting on it.
    ClientWaiting(UserKey),
    /// A client spawned it and it has been published to others.
    ClientPublic(UserKey),
    /// It lives on the server only and is not replicated.
    Local,
}

impl EntityOwner {
    pub open spec fn spec_is_server(self) -> bool {
        self is Server
    }

    pub open spec fn spec_is_client(self) -> bool {
        self is Client || self is ClientWaiting || self is ClientPublic
    }

    /// Whether the server owns the entity.
    pub fn is_server(&self) -> (r: bool)
        ensures
            r == self.spec_is_server(),
    {
        match self {
            EntityOwner::Server => true,
            _ => false,
        }
    }

    /// Whether a client owns the entity, in any of the client states.
    pub fn is_client(&self) -> (r: bool)
        ensures
            r == self.spec_is_client(),
    {
        match self {
            EntityOwner::Client(_) | EntityOwner::ClientWaiting(_) | EntityOwner::ClientPublic(_) => true,
            _ => false,
        }
    }
}

/// Who an entity is replicated to.
#[derive(Clone, Copy, PartialEq, Eq, Hash, Debug, Structural)]
pub enum Publicity {
    /// Only to its owning client.
    Private,
    /// To every client that has it in scope.
    Public,
    /// To every client in scope, and clients may take authority over it.
    Delegated,
}

/// What happens to an entity on a client when it leaves that client's scope.
#[derive(Clone, Copy, PartialEq, Eq, Hash, Debug, Structural)]
pub enum ScopeExit {
    /// The client despawns it.
    Despawn,
    /// The client keeps it, frozen.
    Persist,
}

/// How an entity is replicated.
#[derive(Clone, Copy, PartialEq, Eq, Hash, Debug, Structural)]
pub struct ReplicationConfig {
    pub publicity: Publicity,
    pub scope_exit: ScopeExit,
}

/// The configuration a new entity record starts with: public when the server
/// owns the entity, private otherwise, despawning on scope exit.
pub open spec fn initial_config(owner: EntityOwner) -> ReplicationConfig {
    ReplicationConfig {
        publicity: if owner is Server {
            Publicity::Public
        } else {
            Publicity::Private
        },
        scope_exit: ScopeExit::Despawn,
    }
}

/// The replication state of one global entity.
#[derive(Debug)]
pub struct EntityRecord {
    pub owner: EntityOwner,
    pub config: ReplicationConfig,
    pub is_static: bool,
    /// Component kinds the entity carries, each once.
    pub components: Vec<ComponentKind>,
    /// Component kinds whose changes are being tracked for sending, each once.
    pub diffed: Vec<ComponentKind>,
}

/// The mathematical value of an [`EntityRecord`].
pub struct RecordView {
    pub owner: EntityOwner,
    pub config: ReplicationConfig,
    pub is_static: bool,
    pub components: Seq<ComponentKind>,
    pub diffed: Seq<ComponentKind>,
}

impl View for EntityRecord {
    type V = RecordView;

    open spec fn view(&self) -> RecordView {
        RecordView {
            owner: self.owner,
            config: self.config,
            is_static: self.is_static,
            components: self.components@,
            diffed: self.diffed@,
        }
    }
}

/// The entity asked about is not registered.
#[derive(Clone, Copy, PartialEq, Eq, Debug, Structural)]
pub struct EntityDoesNotExistError;

/// Two-way map between world entities and global entities.
pub struct GlobalEntityMap<E: Copy + Eq + Hash> {
    to_global: HashMap<E, u64>,
    to_world: HashMap<u64, E>,
    next_id: u64,
}

impl<E: Copy + Eq + Hash> GlobalEntityMap<E> {
    /// Each registered world entity's global entity number.
    pub closed spec fn world_to_global(&self) -> Map<E, u64> {
        self.to_global@
    }

    /// Each global entity number's world entity.
    pub closed spec fn global_to_world(&self) -> Map<u64, E> {
        self.to_world@
    }

    /// The number the next spawned global entity gets.
    pub closed spec fn next_global(&self) -> u64 {
        self.next_id
    }

    /// The two directions agree, and every number handed out is below the next.
    pub open spec fn wf(&self) -> bool {
        &&& obeys_key_model::<E>()
        &&& self.world_to_global().dom().finite()
        &&& self.global_to_world().dom().finite()
        &&& forall|e: E| #[trigger]
            self.world_to_global().contains_key(e) ==> self.global_to_world().contains_key(
                self.world_to_global()[e],
            ) && self.global_to_world()[self.world_to_global()[e]] == e
        &&& forall|g: u64| #[trigger]
            self.global_to_world().contains_key(g) ==> self.world_to_global().contains_key(
                self.global_to_world()[g],
            ) && self.world_to_global()[self.global_to_world()[g]] == g
        &&& forall|g: u64| #[trigger] self.global_to_world().contains_key(g) ==> g < self.next_global()
    }

    /// An empty map. The world entity type must hash and compare deterministically.
    pub fn new() -> (r: Self)
        requires
            obeys_key_model::<E>(),
        ensures
            r.wf(),
            r.world_to_global() == Map::<E, u64>::empty(),
            r.global_to_world() == Map::<u64, E>::empty(),
            r.next_global() == 0,
    {
        Self { to_global: HashMap::new(), to_world: HashMap::new(), next_id: 0 }
    }

    /// Registers `world_entity` under a newly minted global entity.
    pub fn spawn(&mut self, world_entity: E) -> (r: GlobalEntity)
        requires
            old(self).wf(),
            !old(self).world_to_global().contains_key(world_entity),
            old(self).next_global() < u64::MAX,
        ensures
            final(self).wf(),
            r.0 == old(self).next_global(),
            final(self).next_global() == old(self).next_global() + 1,
            final(self).world_to_global() == old(self).world_to_global().insert(world_entity, r.0),
            final(self).global_to_world() == old(self).global_to_world().insert(r.0, world_entity),
    {
        let id = self.next_id;
        self.next_id = self.next_id + 1;
        self.to_global.insert(world_entity, id);
        self.to_world.insert(id, world_entity);
        proof {
            assert forall|e: E| #[trigger] self.world_to_global().contains_key(e) implies self.global_to_world().contains_key(
                self.world_to_global()[e],
            ) && self.global_to_world()[self.world_to_global()[e]] == e by {
                if e != world_entity {
                    assert(old(self).global_to_world().contains_key(old(self).world_to_global()[e]));
                }
            }
            assert forall|g: u64| #[trigger] self.global_to_world().contains_key(g) implies self.world_to_global().contains_key(
                self.global_to_world()[g],
            ) && self.world_to_global()[self.global_to_world()[g]] == g by {
                if g != id {
                    assert(old(self).world_to_global().contains_key(old(self).global_to_world()[g]));
                }
            }
        }
        GlobalEntity(id)
    }

    /// Unregisters `world_entity`, returning the global entity it had.
    pub fn despawn(&mut self, world_entity: &E) -> (r: Option<GlobalEntity>)
        requires
            old(self).wf(),
        ensures
            final(self).wf(),
            final(self).next_global() == old(self).next_global(),
            old(self).world_to_global().contains_key(*world_entity) ==> {
                &&& r == Some(GlobalEntity(old(self).world_to_global()[*world_entity]))
                &&& final(self).world_to_global() == old(self).world_to_global().remove(*world_entity)
                &&& final(self).global_to_world() == old(self).global_to_world().remove(
                    old(self).world_to_global()[*world_entity],
                )
            },
            !old(self).world_to_global().contains_key(*world_entity) ==> {
                &&& r is None
                &&& final(self).world_to_global() == old(self).world_to_global()
                &&& final(self).global_to_world() == old(self).global_to_world()
            },
    {
        match self.to_global.remove(world_entity) {
            Some(id) => {
                self.to_world.remove(&id);
                proof {
                    assert forall|e: E| #[trigger] self.world_to_global().contains_key(e) implies self.global_to_world().contains_key(
                        self.world_to_global()[e],
                    ) && self.global_to_world()[self.world_to_global()[e]] == e by {
                        assert(old(self).global_to_world().contains_key(old(self).world_to_global()[e]));
                    }
                    assert forall|g: u64| #[trigger] self.global_to_world().contains_key(g) implies self.world_to_global().contains_key(
                        self.global_to_world()[g],
                    ) && self.world_to_global()[self.global_to_world()[g]] == g by {
                        assert(old(self).world_to_global().contains_key(old(self).global_to_world()[g]));
                    }
                    assert forall|g: u64| #[trigger] self.global_to_world().contains_key(g) implies g < self.next_global() by {
                        assert(old(self).global_to_world().contains_key(g));
                    }
                }
                Some(GlobalEntity(id))
            },
            None => {
                proof {
                    assert(self.to_global@ =~= old(self).to_global@);
                    assert forall|e: E| #[trigger] self.world_to_global().contains_key(e) implies self.global_to_world().contains_key(
                        self.world_to_global()[e],
                    ) && self.global_to_world()[self.world_to_global()[e]] == e by {
                        assert(old(self).world_to_global().contains_key(e));
                    }
                    assert forall|g: u64| #[trigger] self.global_to_world().contains_key(g) implies self.world_to_global().contains_key(
                        self.global_to_world()[g],
                    ) && self.world_to_global()[self.global_to_world()[g]] == g by {
                        assert(old(self).global_to_world().contains_key(g));
                    }
                    assert forall|g: u64| #[trigger] self.global_to_world().contains_key(g) implies g < self.next_global() by {
                        assert(old(self).global_to_world().contains_key(g));
                    }
                }
                None
            },
        }
    }

    /// The global entity of `world_entity`, if registered.
    pub fn entity_to_global_entity(&self, world_entity: &E) -> (r: Option<GlobalEntity>)
        requires
            self.wf(),
        ensures
            self.world_to_global().contains_key(*world_entity) ==> r == Some(
                GlobalEntity(self.world_to_global()[*world_entity]),
            ),
            !self.world_to_global().contains_key(*world_entity) ==> r is None,
    {
        match self.to_global.get(world_entity) {
            Some(id) => Some(GlobalEntity(*id)),
            None => None,
        }
    }

    /// The world entity of `global_entity`, if registered.
    pub fn global_entity_to_entity(&self, global_entity: &GlobalEntity) -> (r: Option<E>)
        requires
            self.wf(),
        ensures
            self.global_to_world().contains_key(global_entity.0) ==> r == Some(
                self.global_to_world()[global_entity.0],
            ),
            !self.global_to_world().contains_key(global_entity.0) ==> r is None,
    {
        match self.to_world.get(&global_entity.0) {
            Some(e) => Some(*e),
            None => None,
        }
    }

    /// How many entities are registered.
    pub fn entity_count(&self) -> (r: usize)
        requires
            self.wf(),
        ensures
            r == self.world_to_global().len(),
    {
        self.to_global.len()
    }
}

/// `s` with `k` appended unless it is already there.
pub open spec fn add_kind(s: Seq<ComponentKind>, k: ComponentKind) -> Seq<ComponentKind> {
    if s.contains(k) {
        s
    } else {
        s.push(k)
    }
}

/// Keeps every component kind but `kind`.
pub open spec fn other_kinds(kind: ComponentKind) -> spec_fn(ComponentKind) -> bool {
    |k: ComponentKind| k != kind
}

fn contains_kind(v: &Vec<ComponentKind>, kind: &ComponentKind) -> (r: bool)
    ensures
        r == v@.contains(*kind),
{
    let mut i: usize = 0;
    while i < v.len()
        invariant
            i <= v@.len(),
            forall|j: int| 0 <= j < i ==> v@[j] != *kind,
        decreases v@.len() - i,
    {
        if v[i] == *kind {
            return true;
        }
        i += 1;
    }
    false
}

fn kinds_without(v: &Vec<ComponentKind>, kind: &ComponentKind) -> (r: Vec<ComponentKind>)
    ensures
        r@ == v@.filter(other_kinds(*kind)),
{
    let mut out: Vec<ComponentKind> = Vec::new();
    let mut i: usize = 0;
    while i < v.len()
        invariant
            i <= v@.len(),
            out@ == v@.take(i as int).filter(other_kinds(*kind)),
        decreases v@.len() - i,
    {
        proof {
            assert(v@.take(i + 1) =~= v@.take(i as int).push(v@[i as int]));
            v@.take(i as int).lemma_filter_push(v@[i as int], other_kinds(*kind));
        }
        if v[i] != *kind {
            out.push(v[i]);
        }
        i += 1;
    }
    proof {
        assert(v@.take(v@.len() as int) =~= v@);
    }
    out
}

/// Replication records of every replicated global entity.
pub struct GlobalWorldManager {
    records: HashMap<u64, EntityRecord>,
}

impl GlobalWorldManager {
    /// Each global entity number's record.
    pub closed spec fn records(&self) -> Map<u64, RecordView> {
        self.records@.map_values(|r: EntityRecord| r@)
    }

    /// No record lists a component kind twice.
    pub open spec fn wf(&self) -> bool {
        forall|g: u64| #[trigger] self.records().contains_key(g) ==> self.records()[g].components.no_duplicates()
    }

    /// A manager without records.
    pub fn new() -> (r: Self)
        ensures
            r.records() == Map::<u64, RecordView>::empty(),
    {
        let r = Self { records: HashMap::new() };
        proof {
            assert(r.records() =~= Map::<u64, RecordView>::empty());
        }
        r
    }

    /// Whether `global_entity` has a record.
    pub fn has_entity(&self, global_entity: &GlobalEntity) -> (r: bool)
        ensures
            r == self.records().contains_key(global_entity.0),
    {
        self.records.contains_key(&global_entity.0)
    }

    /// Starts the record of `global_entity`, owned by `owner`, with no
    /// components and the initial configuration for that owner. Returns
    /// whether no record existed before (an existing one is replaced).
    pub fn insert_entity_record(&mut self, global_entity: &GlobalEntity, owner: EntityOwner) -> (r: bool)
        ensures
            r == !old(self).records().contains_key(global_entity.0),
            final(self).records() == old(self).records().insert(
                global_entity.0,
                RecordView {
                    owner,
                    config: initial_config(owner),
                    is_static: false,
                    components: Seq::empty(),
                    diffed: Seq::empty(),
                },
            ),
    {
        let publicity = match owner {
            EntityOwner::Server => Publicity::Public,
            _ => Publicity::Private,
        };
        let record = EntityRecord {
            owner,
            config: ReplicationConfig { publicity, scope_exit: ScopeExit::Despawn },
            is_static: false,
            components: Vec::new(),
            diffed: Vec::new(),
        };
        let prev = self.records.insert(global_entity.0, record);
        proof {
            assert(self.records() =~= old(self).records().insert(
                global_entity.0,
                RecordView {
                    owner,
                    config: initial_config(owner),
                    is_static: false,
                    components: Seq::empty(),
                    diffed: Seq::empty(),
                },
            ));
        }
        prev.is_none()
    }

    /// Drops the record of `global_entity`.
    pub fn remove_entity_record(&mut self, global_entity: &GlobalEntity)
        ensures
            final(self).records() == old(self).records().remove(global_entity.0),
    {
        self.records.remove(&global_entity.0);
        proof {
            assert(self.records() =~= old(self).records().remove(global_entity.0));
        }
    }

    /// The owner of `global_entity`, if it has a record.
    pub fn entity_owner(&self, global_entity: &GlobalEntity) -> (r: Option<EntityOwner>)
        ensures
            self.records().contains_key(global_entity.0) ==> r == Some(
                self.records()[global_entity.0].owner,
            ),
            !self.records().contains_key(global_entity.0) ==> r is None,
    {
        match self.records.get(&global_entity.0) {
            Some(record) => Some(record.owner),
            None => None,
        }
    }

    /// The replication configuration of `global_entity`, if it has a record.
    pub fn entity_replication_config(&self, global_entity: &GlobalEntity) -> (r: Option<
        ReplicationConfig,
    >)
        ensures
            self.records().contains_key(global_entity.0) ==> r == Some(
                self.records()[global_entity.0].config,
            ),
            !self.records().contains_key(global_entity.0) ==> r is None,
    {
        match self.records.get(&global_entity.0) {
            Some(record) => Some(record.config),
            None => None,
        }
    }

    /// Whether `global_entity` has been marked static; `false` without a record.
    pub fn entity_is_static(&self, global_entity: &GlobalEntity) -> (r: bool)
        ensures
            r == (self.records().contains_key(global_entity.0) && self.records()[global_entity.0].is_static),
    {
        match self.records.get(&global_entity.0) {
            Some(record) => record.is_static,
            None => false,
        }
    }

    /// The component kinds of `global_entity`, if it has a record.
    pub fn component_kinds(&self, global_entity: &GlobalEntity) -> (r: Option<Vec<ComponentKind>>)
        ensures
            self.records().contains_key(global_entity.0) ==> r is Some && r->0@ == self.records()[global_entity.0].components,
            !self.records().contains_key(global_entity.0) ==> r is None,
    {
        match self.records.get(&global_entity.0) {
            Some(record) => {
                let mut kinds: Vec<ComponentKind> = Vec::new();
                let mut i: usize = 0;
                while i < record.components.len()
                    invariant
                        i <= record.components@.len(),
                        kinds@ == record.components@.take(i as int),
                    decreases record.components@.len() - i,
                {
                    kinds.push(record.components[i]);
                    proof {
                        assert(record.components@.take(i + 1) =~= record.components@.take(i as int).push(record.components@[i as int]));
                    }
                    i += 1;
                }
                proof {
                    assert(record.components@.take(record.components@.len() as int) =~= record.components@);
                }
                Some(kinds)
            },
            None => None,
        }
    }


    /// Marks `global_entity`, which must have a record, as static: its
    /// component data is not re-sent after the initial spawn.
    pub fn mark_entity_as_static(&mut self, global_entity: &GlobalEntity)
        requires
            old(self).records().contains_key(global_entity.0),
        ensures
            final(self).records() == old(self).records().insert(
                global_entity.0,
                RecordView { is_static: true, ..old(self).records()[global_entity.0] },
            ),
    {
        let mut record = self.records.remove(&global_entity.0).unwrap();
        record.is_static = true;
        self.records.insert(global_entity.0, record);
        proof {
            assert(self.records() =~= old(self).records().insert(
                global_entity.0,
                RecordView { is_static: true, ..old(self).records()[global_entity.0] },
            ));
        }
    }

    fn update_owner_config(&mut self, global_entity: &GlobalEntity, owner: EntityOwner, config: ReplicationConfig)
        requires
            old(self).records().contains_key(global_entity.0),
        ensures
            final(self).records() == old(self).records().insert(
                global_entity.0,
                RecordView { owner, config, ..old(self).records()[global_entity.0] },
            ),
    {
        let mut record = self.records.remove(&global_entity.0).unwrap();
        record.owner = owner;
        record.config = config;
        self.records.insert(global_entity.0, record);
        proof {
            assert(self.records() =~= old(self).records().insert(
                global_entity.0,
                RecordView { owner, config, ..old(self).records()[global_entity.0] },
            ));
        }
    }

    /// Publishes a client-owned entity: an entity owned by `Client(k)` becomes
    /// owned by `ClientPublic(k)` and public, and the result is `true`. Any
    /// other owner leaves the record as it is, and the result is `false`.
    pub fn entity_publish(&mut self, global_entity: &GlobalEntity) -> (r: bool)
        requires
            old(self).records().contains_key(global_entity.0),
        ensures
            r == old(self).records()[global_entity.0].owner is Client,
            r ==> final(self).records() == old(self).records().insert(
                global_entity.0,
                RecordView {
                    owner: EntityOwner::ClientPublic(old(self).records()[global_entity.0].owner->Client_0),
                    config: ReplicationConfig {
                        publicity: Publicity::Public,
                        ..old(self).records()[global_entity.0].config
                    },
                    ..old(self).records()[global_entity.0]
                },
            ),
            !r ==> final(self).records() == old(self).records(),
    {
        let record = self.records.get(&global_entity.0).unwrap();
        let owner = record.owner;
        let config = record.config;
        match owner {
            EntityOwner::Client(user_key) => {
                self.update_owner_config(
                    global_entity,
                    EntityOwner::ClientPublic(user_key),
                    ReplicationConfig { publicity: Publicity::Public, scope_exit: config.scope_exit },
                );
                true
            },
            _ => false,
        }
    }

    /// Unpublishes an entity: it becomes private, and an entity owned by
    /// `ClientPublic(k)` goes back to `Client(k)`.
    pub fn entity_unpublish(&mut self, global_entity: &GlobalEntity)
        requires
            old(self).records().contains_key(global_entity.0),
        ensures
            final(self).records() == old(self).records().insert(
                global_entity.0,
                RecordView {
                    owner: match old(self).records()[global_entity.0].owner {
                        EntityOwner::ClientPublic(k) => EntityOwner::Client(k),
                        o => o,
                    },
                    config: ReplicationConfig {
                        publicity: Publicity::Private,
                        ..old(self).records()[global_entity.0].config
                    },
                    ..old(self).records()[global_entity.0]
                },
            ),
    {
        let record = self.records.get(&global_entity.0).unwrap();
        let owner = match record.owner {
            EntityOwner::ClientPublic(k) => EntityOwner::Client(k),
            o => o,
        };
        let config = ReplicationConfig { publicity: Publicity::Private, scope_exit: record.config.scope_exit };
        self.update_owner_config(global_entity, owner, config);
    }

    /// Sets the publicity of `global_entity`, keeping its owner.
    fn set_publicity(&mut self, global_entity: &GlobalEntity, publicity: Publicity)
        requires
            old(self).records().contains_key(global_entity.0),
        ensures
            final(self).records() == old(self).records().insert(
                global_entity.0,
                RecordView {
                    config: ReplicationConfig { publicity, ..old(self).records()[global_entity.0].config },
                    ..old(self).records()[global_entity.0]
                },
            ),
    {
        let record = self.records.get(&global_entity.0).unwrap();
        let owner = record.owner;
        let config = ReplicationConfig { publicity, scope_exit: record.config.scope_exit };
        self.update_owner_config(global_entity, owner, config);
    }

    /// Makes `global_entity` delegated.
    pub fn entity_enable_delegation(&mut self, global_entity: &GlobalEntity)
        requires
            old(self).records().contains_key(global_entity.0),
        ensures
            final(self).records() == old(self).records().insert(
                global_entity.0,
                RecordView {
                    config: ReplicationConfig {
                        publicity: Publicity::Delegated,
                        ..old(self).records()[global_entity.0].config
                    },
                    ..old(self).records()[global_entity.0]
                },
            ),
    {
        self.set_publicity(global_entity, Publicity::Delegated);
    }

    /// Makes a delegated `global_entity` merely public.
    pub fn entity_disable_delegation(&mut self, global_entity: &GlobalEntity)
        requires
            old(self).records().contains_key(global_entity.0),
        ensures
            final(self).records() == old(self).records().insert(
                global_entity.0,
                RecordView {
                    config: ReplicationConfig {
                        publicity: Publicity::Public,
                        ..old(self).records()[global_entity.0].config
                    },
                    ..old(self).records()[global_entity.0]
                },
            ),
    {
        self.set_publicity(global_entity, Publicity::Public);
    }

    /// Sets what clients do with `global_entity` when it leaves their scope.
    pub fn entity_set_scope_exit(&mut self, global_entity: &GlobalEntity, scope_exit: crate::world_manager::ScopeExit)
        requires
            old(self).records().contains_key(global_entity.0),
        ensures
            final(self).records() == old(self).records().insert(
                global_entity.0,
                RecordView {
                    config: ReplicationConfig { scope_exit, ..old(self).records()[global_entity.0].config },
                    ..old(self).records()[global_entity.0]
                },
            ),
    {
        let record = self.records.get(&global_entity.0).unwrap();
        let owner = record.owner;
        let config = ReplicationConfig { publicity: record.config.publicity, scope_exit };
        self.update_owner_config(global_entity, owner, config);
    }

    /// Records that `global_entity`, which must have a record, carries a
    /// component of kind `kind`; nothing changes if it already does.
    pub fn insert_component_record(&mut self, global_entity: &GlobalEntity, kind: &ComponentKind)
        requires
            old(self).records().contains_key(global_entity.0),
        ensures
            old(self).wf() ==> final(self).wf(),
            final(self).records() == old(self).records().insert(
                global_entity.0,
                RecordView {
                    components: add_kind(old(self).records()[global_entity.0].components, *kind),
                    ..old(self).records()[global_entity.0]
                },
            ),
    {
        let mut record = self.records.remove(&global_entity.0).unwrap();
        if !contains_kind(&record.components, kind) {
            record.components.push(*kind);
        }
        self.records.insert(global_entity.0, record);
        proof {
            assert(self.records() =~= old(self).records().insert(
                global_entity.0,
                RecordView {
                    components: add_kind(old(self).records()[global_entity.0].components, *kind),
                    ..old(self).records()[global_entity.0]
                },
            ));
        }
    }

    /// Starts tracking changes of `global_entity`'s component `kind` for
    /// sending; nothing changes if they are already tracked.
    pub fn insert_component_diff_handler(&mut self, global_entity: &GlobalEntity, kind: &ComponentKind)
        requires
            old(self).records().contains_key(global_entity.0),
        ensures
            final(self).records() == old(self).records().insert(
                global_entity.0,
                RecordView {
                    diffed: add_kind(old(self).records()[global_entity.0].diffed, *kind),
                    ..old(self).records()[global_entity.0]
                },
            ),
    {
        let mut record = self.records.remove(&global_entity.0).unwrap();
        if !contains_kind(&record.diffed, kind) {
            record.diffed.push(*kind);
        }
        self.records.insert(global_entity.0, record);
        proof {
            assert(self.records() =~= old(self).records().insert(
                global_entity.0,
                RecordView {
                    diffed: add_kind(old(self).records()[global_entity.0].diffed, *kind),
                    ..old(self).records()[global_entity.0]
                },
            ));
        }
    }

    /// Stops tracking changes of `global_entity`'s component `kind`.
    pub fn remove_component_diff_handler(&mut self, global_entity: &GlobalEntity, kind: &ComponentKind)
        requires
            old(self).records().contains_key(global_entity.0),
        ensures
            final(self).records() == old(self).records().insert(
                global_entity.0,
                RecordView {
                    diffed: old(self).records()[global_entity.0].diffed.filter(other_kinds(*kind)),
                    ..old(self).records()[global_entity.0]
                },
            ),
    {
        let mut record = self.records.remove(&global_entity.0).unwrap();
        let kept = kinds_without(&record.diffed, kind);
        record.diffed = kept;
        self.records.insert(global_entity.0, record);
        proof {
            assert(self.records() =~= old(self).records().insert(
                global_entity.0,
                RecordView {
                    diffed: old(self).records()[global_entity.0].diffed.filter(other_kinds(*kind)),
                    ..old(self).records()[global_entity.0]
                },
            ));
        }
    }

    /// Every global entity with a record, each once, in no particular order.
    pub fn all_global_entities(&self) -> (r: Vec<GlobalEntity>)
        ensures
            r@.map_values(|g: GlobalEntity| g.0).to_set() == self.records().dom(),
            r@.map_values(|g: GlobalEntity| g.0).no_duplicates(),
    {
        let ids = keys_of(&self.records);
        let mut out: Vec<GlobalEntity> = Vec::new();
        let mut i: usize = 0;
        while i < ids.len()
            invariant
                i <= ids@.len(),
                out@.map_values(|g: GlobalEntity| g.0) == ids@.take(i as int),
            decreases ids@.len() - i,
        {
            let ghost before = out@;
            out.push(GlobalEntity(ids[i]));
            proof {
                assert(out@.map_values(|g: GlobalEntity| g.0) =~= before.map_values(|g: GlobalEntity| g.0).push(ids@[i as int]));
                assert(out@.map_values(|g: GlobalEntity| g.0) =~= ids@.take(i + 1));
            }
            i += 1;
        }
        proof {
            assert(ids@.take(ids@.len() as int) =~= ids@);
            assert(self.records().dom() =~= self.records@.dom());
        }
        out
    }
}

} // verus!
