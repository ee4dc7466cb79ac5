//! The scope pass run before each send: the scope exits the rooms queued
//! become despawns on the connections that still hold the entities, and
//! each room member's entities are brought to where they should be.

use std::hash::Hash;

use vstd::prelude::*;

use crate::coord::CoordHandle;
use crate::keys::{GlobalEntity, RoomKey, UserKey};
use crate::room::Room;
use crate::stores::UserView;
use crate::world_manager::{EntityOwner, Publicity, RecordView};

verus! {

/// `entity` is in one of the rooms named by `user_rooms`.
pub open spec fn shares_room(rooms: Map<u64, Room>, user_rooms: Seq<RoomKey>, entity: GlobalEntity) -> bool {
    exists|i: int|
        0 <= i < user_rooms.len() && rooms.contains_key(#[trigger] user_rooms[i].0) && rooms[user_rooms[i].0].entity_seq().contains(
            entity,
        )
}

/// Some room has the scope exit `p` queued.
pub open spec fn queued_in_some_room(rooms: Map<u64, Room>, p: (UserKey, GlobalEntity)) -> bool {
    exists|k: u64| rooms.contains_key(k) && #[trigger] rooms[k].removal_queue().contains(p)
}

/// Whether the queued scope exit `p` despawns its entity from its user's
/// connection: the user is tracked and `connected`, its connection holds
/// the entity (`hosted`), and the entity is in none of the user's rooms any
/// more.
pub open spec fn exit_despawns(
    users: Map<u64, UserView>,
    rooms: Map<u64, Room>,
    connected: Seq<UserKey>,
    hosted: Seq<(UserKey, GlobalEntity)>,
    p: (UserKey, GlobalEntity),
) -> bool {
    &&& users.contains_key(p.0.0)
    &&& connected.contains(p.0)
    &&& hosted.contains(p)
    &&& !shares_room(rooms, users[p.0.0].rooms, p.1)
}

/// Whether a room is shared depends on the rooms' entities alone.
proof fn lemma_shares_room_same_entities(r1: Map<u64, Room>, r2: Map<u64, Room>, user_rooms: Seq<RoomKey>, entity: GlobalEntity)
    requires
        r1.dom() == r2.dom(),
        forall|k: u64| #[trigger] r1.contains_key(k) ==> r1[k].entity_seq() == r2[k].entity_seq(),
    ensures
        shares_room(r1, user_rooms, entity) == shares_room(r2, user_rooms, entity),
{
    if shares_room(r1, user_rooms, entity) {
        let i = choose|i: int|
            0 <= i < user_rooms.len() && r1.contains_key(#[trigger] user_rooms[i].0) && r1[user_rooms[i].0].entity_seq().contains(
                entity,
            );
        assert(r2.contains_key(user_rooms[i].0));
    }
    if shares_room(r2, user_rooms, entity) {
        let i = choose|i: int|
            0 <= i < user_rooms.len() && r2.contains_key(#[trigger] user_rooms[i].0) && r2[user_rooms[i].0].entity_seq().contains(
                entity,
            );
        assert(r1.contains_key(user_rooms[i].0));
    }
}

fn has_user(v: &Vec<UserKey>, key: &UserKey) -> (r: bool)
    ensures
        r == v@.contains(*key),
{
    let mut i: usize = 0;
    while i < v.len()
        invariant
            i <= v@.len(),
            forall|j: int| 0 <= j < i ==> v@[j] != *key,
        decreases v@.len() - i,
    {
        if v[i].0 == key.0 {
            assert(v@[i as int] == *key);
            return true;
        }
        i += 1;
    }
    false
}

fn has_pair(v: &Vec<(UserKey, GlobalEntity)>, p: &(UserKey, GlobalEntity)) -> (r: bool)
    ensures
        r == v@.contains(*p),
{
    let mut i: usize = 0;
    while i < v.len()
        invariant
            i <= v@.len(),
            forall|j: int| 0 <= j < i ==> v@[j] != *p,
        decreases v@.len() - i,
    {
        if v[i].0.0 == p.0.0 && v[i].1.0 == p.1.0 {
            assert(v@[i as int] == *p);
            return true;
        }
        i += 1;
    }
    false
}

impl<E: Copy + Eq + Hash> CoordHandle<E> {
    /// Whether `entity` is in one of the rooms of the tracked user `user_key`.
    fn user_shares_room(&self, user_key: &UserKey, entity: &GlobalEntity) -> (r: bool)
        requires
            self.users().contains_key(user_key.0),
        ensures
            r == shares_room(self.rooms(), self.users()[user_key.0].rooms, *entity),
    {
        let keys = self.state.user_store.room_keys(user_key).unwrap();
        let mut i: usize = 0;
        while i < keys.len()
            invariant
                i <= keys@.len(),
                keys@ == self.users()[user_key.0].rooms,
                forall|j: int|
                    0 <= j < i ==> !(self.rooms().contains_key(#[trigger] keys@[j].0) && self.rooms()[keys@[j].0].entity_seq().contains(
                        *entity,
                    )),
            decreases keys@.len() - i,
        {
            match self.state.room_store.get(&keys[i]) {
                Some(room) => {
                    if room.has_entity(entity) {
                        assert(self.rooms().contains_key(keys@[i as int].0));
                        return true;
                    }
                },
                None => {},
            }
            i += 1;
        }
        false
    }

    /// Drains the scope exits every room has queued and returns the
    /// `(user, entity)` pairs to despawn, each once: an exit despawns when
    /// its user is tracked and `connected`, its connection still holds the
    /// entity (`hosted`), and the entity is in none of the user's rooms.
    /// The rooms keep their users and entities; their queues end empty.
    pub fn drain_scope_exits(&mut self, connected: &Vec<UserKey>, hosted: &Vec<(UserKey, GlobalEntity)>) -> (r: Vec<
        (UserKey, GlobalEntity),
    >)
        requires
            old(self).wf(),
        ensures
            final(self).wf(),
            final(self).rooms().dom() == old(self).rooms().dom(),
            forall|k: u64| #[trigger]
                old(self).rooms().contains_key(k) ==> {
                    &&& final(self).rooms()[k].user_seq() == old(self).rooms()[k].user_seq()
                    &&& final(self).rooms()[k].entity_seq() == old(self).rooms()[k].entity_seq()
                    &&& final(self).rooms()[k].removal_queue() == Seq::<(UserKey, GlobalEntity)>::empty()
                },
            final(self).state.room_store.next_room_key() == old(self).state.room_store.next_room_key(),
            final(self).state.user_store == old(self).state.user_store,
            final(self).state.resource_registry == old(self).state.resource_registry,
            final(self).shared == old(self).shared,
            r@.no_duplicates(),
            forall|p: (UserKey, GlobalEntity)|
                #[trigger] r@.contains(p) <==> (queued_in_some_room(old(self).rooms(), p) && exit_despawns(
                    old(self).users(),
                    old(self).rooms(),
                    connected@,
                    hosted@,
                    p,
                )),
    {
        let keys = self.state.room_store.keys();
        let ghost ks = keys@.map_values(|k: RoomKey| k.0);
        let ghost rooms0 = self.rooms();
        let ghost users0 = self.users();
        let mut out: Vec<(UserKey, GlobalEntity)> = Vec::new();
        let mut i: usize = 0;
        while i < keys.len()
            invariant
                i <= keys@.len(),
                self.wf(),
                rooms0 == old(self).rooms(),
                users0 == old(self).users(),
                ks == keys@.map_values(|k: RoomKey| k.0),
                ks.to_set() == rooms0.dom(),
                ks.no_duplicates(),
                self.rooms().dom() == rooms0.dom(),
                forall|k: u64| #[trigger]
                    rooms0.contains_key(k) ==> {
                        &&& self.rooms()[k].user_seq() == rooms0[k].user_seq()
                        &&& self.rooms()[k].entity_seq() == rooms0[k].entity_seq()
                        &&& self.rooms()[k].removal_queue() == if ks.take(i as int).contains(k) {
                            Seq::<(UserKey, GlobalEntity)>::empty()
                        } else {
                            rooms0[k].removal_queue()
                        }
                    },
                self.state.room_store.next_room_key() == old(self).state.room_store.next_room_key(),
                self.state.user_store == old(self).state.user_store,
                self.state.resource_registry == old(self).state.resource_registry,
                self.shared == old(self).shared,
                out@.no_duplicates(),
                forall|p: (UserKey, GlobalEntity)|
                    #[trigger] out@.contains(p) <==> ((exists|k: u64|
                        ks.take(i as int).contains(k) && #[trigger] rooms0[k].removal_queue().contains(p)) && exit_despawns(
                        users0,
                        rooms0,
                        connected@,
                        hosted@,
                        p,
                    )),
            decreases keys@.len() - i,
        {
            let key = keys[i];
            let ghost k0 = key.0;
            proof {
                assert(ks[i as int] == k0);
                assert(ks.to_set().contains(k0));
                assert(!ks.take(i as int).contains(k0)) by {
                    if ks.take(i as int).contains(k0) {
                        let j = choose|j: int| 0 <= j < i && #[trigger] ks.take(i as int)[j] == k0;
                        assert(ks[j] == ks[i as int]);
                    }
                }
                assert(ks.take(i + 1) =~= ks.take(i as int).push(k0));
            }
            let ghost q0 = rooms0[k0].removal_queue();
            let n = self.state.room_store.get(&key).unwrap().entity_removal_queue_len();
            let mut j: usize = 0;
            while j < n
                invariant
                    j <= n,
                    n == q0.len(),
                    q0 == rooms0[k0].removal_queue(),
                    rooms0.contains_key(k0),
                    k0 == key.0,
                    !ks.take(i as int).contains(k0),
                    self.wf(),
                    rooms0 == old(self).rooms(),
                    users0 == old(self).users(),
                    self.rooms().dom() == rooms0.dom(),
                    forall|k: u64| #[trigger]
                        rooms0.contains_key(k) ==> {
                            &&& self.rooms()[k].user_seq() == rooms0[k].user_seq()
                            &&& self.rooms()[k].entity_seq() == rooms0[k].entity_seq()
                            &&& self.rooms()[k].removal_queue() == if ks.take(i as int).contains(k) {
                                Seq::<(UserKey, GlobalEntity)>::empty()
                            } else if k == k0 {
                                q0.skip(j as int)
                            } else {
                                rooms0[k].removal_queue()
                            }
                        },
                    self.state.room_store.next_room_key() == old(self).state.room_store.next_room_key(),
                    self.state.user_store == old(self).state.user_store,
                    self.state.resource_registry == old(self).state.resource_registry,
                    self.shared == old(self).shared,
                    out@.no_duplicates(),
                    forall|p: (UserKey, GlobalEntity)|
                        #[trigger] out@.contains(p) <==> (((exists|k: u64|
                            ks.take(i as int).contains(k) && #[trigger] rooms0[k].removal_queue().contains(p))
                            || q0.take(j as int).contains(p)) && exit_despawns(users0, rooms0, connected@, hosted@, p)),
                decreases n - j,
            {
                let ghost before = self.rooms();
                proof {
                    assert(before[k0].removal_queue() == q0.skip(j as int));
                    assert(q0.skip(j as int).len() > 0);
                    assert(q0.skip(j as int)[0] == q0[j as int]);
                }
                let popped = self.state.room_store.pop_removal(&key);
                let p = popped.unwrap();
                proof {
                    assert(p == q0[j as int]);
                    assert(q0.skip(j as int).drop_first() =~= q0.skip(j + 1));
                    assert(q0.take(j + 1) =~= q0.take(j as int).push(p));
                    assert forall|k: u64| #[trigger] self.rooms().contains_key(k) implies self.rooms()[k].entity_seq()
                        == rooms0[k].entity_seq() by {
                        if k != k0 {
                            assert(before.contains_key(k));
                        }
                    }
                }
                let mut despawn = false;
                if self.state.user_store.contains(&p.0) {
                    if has_user(connected, &p.0) && has_pair(hosted, &p) {
                        let shared_room = self.user_shares_room(&p.0, &p.1);
                        proof {
                            lemma_shares_room_same_entities(self.rooms(), rooms0, users0[p.0.0].rooms, p.1);
                        }
                        despawn = !shared_room;
                    }
                }
                proof {
                    assert(despawn == exit_despawns(users0, rooms0, connected@, hosted@, p));
                }
                let ghost out0 = out@;
                if despawn && !has_pair(&out, &p) {
                    out.push(p);
                    proof {
                        assert forall|a: int, b: int| 0 <= a < b < out@.len() implies out@[a] != out@[b] by {
                            if b == out0.len() {
                                assert(out0[a] == out@[a]);
                            }
                        }
                    }
                }
                proof {
                    assert forall|x: (UserKey, GlobalEntity)| out@.contains(x) <==> (out0.contains(x) || (despawn && x == p)) by {
                        if out@.contains(x) && !out0.contains(x) {
                            let m = choose|m: int| 0 <= m < out@.len() && out@[m] == x;
                            if m < out0.len() {
                                assert(out0[m] == x);
                            }
                        }
                        if out0.contains(x) {
                            let m = choose|m: int| 0 <= m < out0.len() && out0[m] == x;
                            assert(out@[m] == x);
                        }
                        if despawn && x == p && !out0.contains(x) {
                            assert(out@[out@.len() - 1] == x);
                        }
                    }
                    assert forall|x: (UserKey, GlobalEntity)|
                        #[trigger] out@.contains(x) <==> (((exists|k: u64|
                            ks.take(i as int).contains(k) && #[trigger] rooms0[k].removal_queue().contains(x))
                            || q0.take(j + 1).contains(x)) && exit_despawns(users0, rooms0, connected@, hosted@, x)) by {
                        assert(out0.contains(x) <==> (((exists|k: u64|
                            ks.take(i as int).contains(k) && #[trigger] rooms0[k].removal_queue().contains(x))
                            || q0.take(j as int).contains(x)) && exit_despawns(users0, rooms0, connected@, hosted@, x)));
                        assert(out@.contains(x) <==> (out0.contains(x) || (despawn && x == p)));
                        if q0.take(j + 1).contains(x) && !q0.take(j as int).contains(x) {
                            let m = choose|m: int| 0 <= m < j + 1 && #[trigger] q0.take(j + 1)[m] == x;
                            if m < j {
                                assert(q0.take(j as int)[m] == x);
                            }
                            assert(x == p);
                        }
                        if q0.take(j as int).contains(x) {
                            let m = choose|m: int| 0 <= m < j && #[trigger] q0.take(j as int)[m] == x;
                            assert(q0.take(j + 1)[m] == x);
                        }
                        if x == p {
                            assert(q0.take(j + 1)[j as int] == x);
                        }
                    }
                    assert forall|k: u64| #[trigger] rooms0.contains_key(k) implies {
                        &&& self.rooms()[k].user_seq() == rooms0[k].user_seq()
                        &&& self.rooms()[k].entity_seq() == rooms0[k].entity_seq()
                        &&& self.rooms()[k].removal_queue() == if ks.take(i as int).contains(k) {
                            Seq::<(UserKey, GlobalEntity)>::empty()
                        } else if k == k0 {
                            q0.skip(j + 1)
                        } else {
                            rooms0[k].removal_queue()
                        }
                    } by {
                        assert(before.contains_key(k));
                    }
                }
                j += 1;
            }
            proof {
                assert(q0.skip(n as int) =~= Seq::<(UserKey, GlobalEntity)>::empty());
                assert(q0.take(n as int) =~= q0);
                assert forall|k: u64| #[trigger] rooms0.contains_key(k) implies {
                    &&& self.rooms()[k].user_seq() == rooms0[k].user_seq()
                    &&& self.rooms()[k].entity_seq() == rooms0[k].entity_seq()
                    &&& self.rooms()[k].removal_queue() == if ks.take(i + 1).contains(k) {
                        Seq::<(UserKey, GlobalEntity)>::empty()
                    } else {
                        rooms0[k].removal_queue()
                    }
                } by {
                    if ks.take(i as int).contains(k) {
                        let m = choose|m: int| 0 <= m < i && #[trigger] ks.take(i as int)[m] == k;
                        assert(ks.take(i + 1)[m] == k);
                    }
                    if k == k0 {
                        assert(ks.take(i + 1)[i as int] == k);
                    }
                    if ks.take(i + 1).contains(k) && k != k0 {
                        let m = choose|m: int| 0 <= m < i + 1 && #[trigger] ks.take(i + 1)[m] == k;
                        assert(ks.take(i as int)[m] == k);
                    }
                }
                assert forall|x: (UserKey, GlobalEntity)|
                    #[trigger] out@.contains(x) <==> ((exists|k: u64|
                        ks.take(i + 1).contains(k) && #[trigger] rooms0[k].removal_queue().contains(x)) && exit_despawns(
                        users0,
                        rooms0,
                        connected@,
                        hosted@,
                        x,
                    )) by {
                    if exists|k: u64| ks.take(i + 1).contains(k) && #[trigger] rooms0[k].removal_queue().contains(x) {
                        let k = choose|k: u64| ks.take(i + 1).contains(k) && #[trigger] rooms0[k].removal_queue().contains(x);
                        if k != k0 {
                            let m = choose|m: int| 0 <= m < i + 1 && #[trigger] ks.take(i + 1)[m] == k;
                            assert(ks.take(i as int)[m] == k);
                        }
                    }
                    if exists|k: u64| ks.take(i as int).contains(k) && #[trigger] rooms0[k].removal_queue().contains(x) {
                        let k = choose|k: u64| ks.take(i as int).contains(k) && #[trigger] rooms0[k].removal_queue().contains(x);
                        let m = choose|m: int| 0 <= m < i && #[trigger] ks.take(i as int)[m] == k;
                        assert(ks.take(i + 1)[m] == k);
                    }
                    if q0.contains(x) {
                        assert(ks.take(i + 1)[i as int] == k0);
                        assert(rooms0[k0].removal_queue().contains(x));
                    }
                }
            }
            i += 1;
        }
        proof {
            assert(ks.take(keys@.len() as int) =~= ks);
            assert forall|k: u64| rooms0.contains_key(k) implies ks.contains(k) by {
                assert(ks.to_set().contains(k));
            }
            assert forall|x: (UserKey, GlobalEntity)|
                #[trigger] out@.contains(x) <==> (queued_in_some_room(rooms0, x) && exit_despawns(
                    users0,
                    rooms0,
                    connected@,
                    hosted@,
                    x,
                )) by {
                if queued_in_some_room(rooms0, x) {
                    let k = choose|k: u64| rooms0.contains_key(k) && #[trigger] rooms0[k].removal_queue().contains(x);
                    assert(ks.contains(k));
                }
                if exists|k: u64| ks.contains(k) && #[trigger] rooms0[k].removal_queue().contains(x) {
                    let k = choose|k: u64| ks.contains(k) && #[trigger] rooms0[k].removal_queue().contains(x);
                    assert(ks.to_set().contains(k));
                }
            }
        }
        out
    }
}

/// What the scope pass does with one entity of a room for one of the
/// room's connected users.
#[derive(Clone, Copy, PartialEq, Eq, Debug, Structural)]
pub enum ScopeStep {
    /// Leave the user's connection as it is.
    Pass,
    /// Spawn the entity, with its components, on the user's connection.
    Spawn,
    /// Spawn it, and tell the connection that the entity is delegated.
    SpawnDelegated,
    /// Despawn the entity from the user's connection.
    Despawn,
}

/// The entity's record says a client owns it and has published it, and
/// that client is `user`: the user has it already and needs no copy.
pub open spec fn public_and_owned_by(records: Map<u64, RecordView>, entity: GlobalEntity, user: UserKey) -> bool {
    records.contains_key(entity.0) && records[entity.0].owner == EntityOwner::ClientPublic(user)
}

/// The entity's record makes it delegated.
pub open spec fn is_delegated(records: Map<u64, RecordView>, entity: GlobalEntity) -> bool {
    records.contains_key(entity.0) && records[entity.0].config.publicity == Publicity::Delegated
}

/// The scope pass's step for `entity` and `user`: nothing for an entity
/// the world no longer has or one the user owns and published; otherwise
/// the connection is brought to whether the entity should be in scope,
/// a spawned delegated entity being announced as such.
pub open spec fn scope_step_spec(
    records: Map<u64, RecordView>,
    user: UserKey,
    entity: GlobalEntity,
    world_has_entity: bool,
    currently_in_scope: bool,
    should_be_in_scope: bool,
) -> ScopeStep {
    if !world_has_entity || public_and_owned_by(records, entity, user) {
        ScopeStep::Pass
    } else if should_be_in_scope {
        if currently_in_scope {
            ScopeStep::Pass
        } else if is_delegated(records, entity) {
            ScopeStep::SpawnDelegated
        } else {
            ScopeStep::Spawn
        }
    } else if currently_in_scope {
        ScopeStep::Despawn
    } else {
        ScopeStep::Pass
    }
}

/// Whether the connection holds the entity after `step`, having held it
/// (`held`) before.
pub open spec fn held_after(step: ScopeStep, held: bool) -> bool {
    match step {
        ScopeStep::Pass => held,
        ScopeStep::Spawn | ScopeStep::SpawnDelegated => true,
        ScopeStep::Despawn => false,
    }
}

/// After its step, a connection holds an entity the world has and the
/// user does not own exactly when the entity should be in its scope, and
/// a step spawns only what the connection did not hold and despawns only
/// what it did.
pub proof fn lemma_scope_step_settles(
    records: Map<u64, RecordView>,
    user: UserKey,
    entity: GlobalEntity,
    world_has_entity: bool,
    currently_in_scope: bool,
    should_be_in_scope: bool,
)
    ensures
        ({
            let step = scope_step_spec(records, user, entity, world_has_entity, currently_in_scope, should_be_in_scope);
            &&& (world_has_entity && !public_and_owned_by(records, entity, user)) ==> held_after(step, currently_in_scope)
                == should_be_in_scope
            &&& (step == ScopeStep::Spawn || step == ScopeStep::SpawnDelegated) ==> !currently_in_scope
            &&& step == ScopeStep::Despawn ==> currently_in_scope
            &&& !(world_has_entity && !public_and_owned_by(records, entity, user)) ==> step == ScopeStep::Pass
            &&& (records.contains_key(entity.0) && records[entity.0].owner == EntityOwner::ClientPublic(user)) ==> step
                == ScopeStep::Pass
            &&& step == ScopeStep::SpawnDelegated ==> (records.contains_key(entity.0) && records[entity.0].config.publicity
                == Publicity::Delegated)
            &&& step == ScopeStep::Spawn ==> !(records.contains_key(entity.0) && records[entity.0].config.publicity
                == Publicity::Delegated)
            &&& (world_has_entity && should_be_in_scope && !currently_in_scope && !(records.contains_key(entity.0)
                && records[entity.0].owner == EntityOwner::ClientPublic(user))) ==> (step == ScopeStep::Spawn || step
                == ScopeStep::SpawnDelegated)
            &&& (world_has_entity && !should_be_in_scope && currently_in_scope && !(records.contains_key(entity.0)
                && records[entity.0].owner == EntityOwner::ClientPublic(user))) ==> step == ScopeStep::Despawn
        }),
{
}

impl<E: Copy + Eq + Hash> CoordHandle<E> {
    /// Decides the scope pass's step for `entity` and `user_key`, given
    /// whether the world has the entity, whether the user's connection holds
    /// it and whether it should be in the user's scope.
    pub fn scope_step(
        &self,
        user_key: &UserKey,
        entity: &GlobalEntity,
        world_has_entity: bool,
        currently_in_scope: bool,
        should_be_in_scope: bool,
    ) -> (r: ScopeStep)
        ensures
            r == scope_step_spec(self.records(), *user_key, *entity, world_has_entity, currently_in_scope, should_be_in_scope),
    {
        if !world_has_entity {
            return ScopeStep::Pass;
        }
        let owned = match self.shared.global_world_manager.entity_owner(entity) {
            Some(EntityOwner::ClientPublic(owner)) => owner.0 == user_key.0,
            _ => false,
        };
        if owned {
            return ScopeStep::Pass;
        }
        if should_be_in_scope {
            if currently_in_scope {
                ScopeStep::Pass
            } else {
                let delegated = match self.shared.global_world_manager.entity_replication_config(entity) {
                    Some(config) => match config.publicity {
                        Publicity::Delegated => true,
                        _ => false,
                    },
                    None => false,
                };
                if delegated {
                    ScopeStep::SpawnDelegated
                } else {
                    ScopeStep::Spawn
                }
            }
        } else if currently_in_scope {
            ScopeStep::Despawn
        } else {
            ScopeStep::Pass
        }
    }
}

/// Room `room` has both the user and the entity of `p`.
pub open spec fn room_holds(room: Room, p: (UserKey, GlobalEntity)) -> bool {
    room.user_seq().contains(p.0) && room.entity_seq().contains(p.1)
}

/// Some room has both the user and the entity of `p`.
pub open spec fn together_in_a_room(rooms: Map<u64, Room>, p: (UserKey, GlobalEntity)) -> bool {
    exists|k: u64| rooms.contains_key(k) && #[trigger] room_holds(rooms[k], p)
}

/// The step the scope pass takes for the pair `p`, as `scope_step_spec`
/// decides it from the world's entities `world`, the pairs the
/// connections hold (`hosted`) and the pairs that should be in scope
/// (`in_scope`).
pub open spec fn pair_step(
    records: Map<u64, RecordView>,
    world: Seq<GlobalEntity>,
    hosted: Seq<(UserKey, GlobalEntity)>,
    in_scope: Seq<(UserKey, GlobalEntity)>,
    p: (UserKey, GlobalEntity),
) -> ScopeStep {
    scope_step_spec(records, p.0, p.1, world.contains(p.1), hosted.contains(p), in_scope.contains(p))
}

fn has_entity_in(v: &Vec<GlobalEntity>, e: &GlobalEntity) -> (r: bool)
    ensures
        r == v@.contains(*e),
{
    let mut i: usize = 0;
    while i < v.len()
        invariant
            i <= v@.len(),
            forall|j: int| 0 <= j < i ==> v@[j] != *e,
        decreases v@.len() - i,
    {
        if v[i].0 == e.0 {
            assert(v@[i as int] == *e);
            return true;
        }
        i += 1;
    }
    false
}

fn has_step_for(v: &Vec<(UserKey, GlobalEntity, ScopeStep)>, p: &(UserKey, GlobalEntity)) -> (r: bool)
    ensures
        r == exists|i: int| 0 <= i < v@.len() && (#[trigger] v@[i]).0 == p.0 && v@[i].1 == p.1,
{
    let mut i: usize = 0;
    while i < v.len()
        invariant
            i <= v@.len(),
            forall|j: int| 0 <= j < i ==> !((#[trigger] v@[j]).0 == p.0 && v@[j].1 == p.1),
        decreases v@.len() - i,
    {
        if v[i].0.0 == p.0.0 && v[i].1.0 == p.1.0 {
            assert(v@[i as int].0 == p.0 && v@[i as int].1 == p.1);
            return true;
        }
        i += 1;
    }
    false
}

impl<E: Copy + Eq + Hash> CoordHandle<E> {
    /// Every `(user, entity)` pair that shares a room, in some order and
    /// possibly more than once.
    pub fn room_pairs(&self) -> (r: Vec<(UserKey, GlobalEntity)>)
        requires
            self.wf(),
        ensures
            forall|p: (UserKey, GlobalEntity)| #[trigger] r@.contains(p) <==> together_in_a_room(self.rooms(), p),
    {
        let keys = self.state.room_store.keys();
        let ghost ks = keys@.map_values(|k: RoomKey| k.0);
        let mut out: Vec<(UserKey, GlobalEntity)> = Vec::new();
        let mut i: usize = 0;
        while i < keys.len()
            invariant
                i <= keys@.len(),
                ks == keys@.map_values(|k: RoomKey| k.0),
                ks.to_set() == self.rooms().dom(),
                forall|p: (UserKey, GlobalEntity)| #[trigger] out@.contains(p) <==> exists|m: int|
                    0 <= m < i && self.rooms().contains_key(ks[m]) && #[trigger] room_holds(self.rooms()[ks[m]], p),
            decreases keys@.len() - i,
        {
            let ghost k0 = ks[i as int];
            proof {
                assert(ks.to_set().contains(k0));
            }
            let room = self.state.room_store.get(&keys[i]).unwrap();
            let users = room.user_keys();
            let entities = room.entities();
            let ghost out_i = out@;
            let mut j: usize = 0;
            while j < users.len()
                invariant
                    j <= users@.len(),
                    users@ == room.user_seq(),
                    entities@ == room.entity_seq(),
                    forall|p: (UserKey, GlobalEntity)| #[trigger] out@.contains(p) <==> (out_i.contains(p)
                        || (users@.take(j as int).contains(p.0) && entities@.contains(p.1))),
                decreases users@.len() - j,
            {
                let ghost out_j = out@;
                let mut l: usize = 0;
                while l < entities.len()
                    invariant
                        l <= entities@.len(),
                        j < users@.len(),
                        forall|p: (UserKey, GlobalEntity)| #[trigger] out@.contains(p) <==> (out_j.contains(p)
                            || (p.0 == users@[j as int] && entities@.take(l as int).contains(p.1))),
                    decreases entities@.len() - l,
                {
                    let ghost before = out@;
                    out.push((users[j], entities[l]));
                    proof {
                        assert forall|p: (UserKey, GlobalEntity)| #[trigger] out@.contains(p) <==> (out_j.contains(p)
                            || (p.0 == users@[j as int] && entities@.take(l + 1).contains(p.1))) by {
                            if out@.contains(p) {
                                let m = choose|m: int| 0 <= m < out@.len() && out@[m] == p;
                                if m < before.len() {
                                    assert(before[m] == p);
                                    assert(before.contains(p));
                                    if entities@.take(l as int).contains(p.1) {
                                        let q = choose|q: int| 0 <= q < l && #[trigger] entities@.take(l as int)[q] == p.1;
                                        assert(entities@.take(l + 1)[q] == p.1);
                                    }
                                } else {
                                    assert(entities@.take(l + 1)[l as int] == p.1);
                                }
                            }
                            if out_j.contains(p) {
                                assert(before.contains(p));
                                let m = choose|m: int| 0 <= m < before.len() && before[m] == p;
                                assert(out@[m] == p);
                            }
                            if p.0 == users@[j as int] && entities@.take(l + 1).contains(p.1) {
                                let q = choose|q: int| 0 <= q < l + 1 && #[trigger] entities@.take(l + 1)[q] == p.1;
                                if q == l {
                                    assert(out@[before.len() as int] == p);
                                } else {
                                    assert(entities@.take(l as int)[q] == p.1);
                                    assert(before.contains(p));
                                    let m = choose|m: int| 0 <= m < before.len() && before[m] == p;
                                    assert(out@[m] == p);
                                }
                            }
                        }
                    }
                    l += 1;
                }
                proof {
                    assert(entities@.take(entities@.len() as int) =~= entities@);
                    assert forall|p: (UserKey, GlobalEntity)| #[trigger] out@.contains(p) <==> (out_i.contains(p)
                        || (users@.take(j + 1).contains(p.0) && entities@.contains(p.1))) by {
                        if users@.take(j + 1).contains(p.0) {
                            let q = choose|q: int| 0 <= q < j + 1 && #[trigger] users@.take(j + 1)[q] == p.0;
                            if q < j {
                                assert(users@.take(j as int)[q] == p.0);
                            }
                        }
                        if users@.take(j as int).contains(p.0) {
                            let q = choose|q: int| 0 <= q < j && #[trigger] users@.take(j as int)[q] == p.0;
                            assert(users@.take(j + 1)[q] == p.0);
                        }
                        if p.0 == users@[j as int] {
                            assert(users@.take(j + 1)[j as int] == p.0);
                        }
                    }
                }
                j += 1;
            }
            proof {
                assert(users@.take(users@.len() as int) =~= users@);
                assert forall|p: (UserKey, GlobalEntity)| #[trigger] out@.contains(p) <==> exists|m: int|
                    0 <= m < i + 1 && self.rooms().contains_key(ks[m]) && #[trigger] room_holds(self.rooms()[ks[m]], p) by {
                    if exists|m: int| 0 <= m < i + 1 && self.rooms().contains_key(ks[m]) && #[trigger] room_holds(self.rooms()[ks[m]], p) {
                        let m = choose|m: int| 0 <= m < i + 1 && self.rooms().contains_key(ks[m]) && #[trigger] room_holds(self.rooms()[ks[m]], p);
                    }
                    if room_holds(self.rooms()[k0], p) {
                        assert(0 <= i < i + 1);
                    }
                }
            }
            i += 1;
        }
        proof {
            assert forall|p: (UserKey, GlobalEntity)| #[trigger] out@.contains(p) <==> together_in_a_room(self.rooms(), p) by {
                if together_in_a_room(self.rooms(), p) {
                    let k = choose|k: u64| self.rooms().contains_key(k) && #[trigger] room_holds(self.rooms()[k], p);
                    assert(ks.to_set().contains(k));
                    let m = choose|m: int| 0 <= m < ks.len() && ks[m] == k;
                    assert(room_holds(self.rooms()[ks[m]], p));
                }
                if out@.contains(p) {
                    let m = choose|m: int| 0 <= m < keys@.len() && self.rooms().contains_key(ks[m]) && #[trigger] room_holds(self.rooms()[ks[m]], p);
                    assert(room_holds(self.rooms()[ks[m]], p));
                }
            }
        }
        out
    }

    /// The scope pass over every room: for each `(user, entity)` pair that
    /// shares a room, whose user is tracked and `connected`, the step that
    /// brings the user's connection to whether the entity should be in
    /// scope, listed once per pair and only when it does something. The
    /// world's entities are `world`, the pairs the connections hold
    /// `hosted`, and the pairs that should be in scope `in_scope`.
    pub fn scope_pass(
        &self,
        connected: &Vec<UserKey>,
        world: &Vec<GlobalEntity>,
        hosted: &Vec<(UserKey, GlobalEntity)>,
        in_scope: &Vec<(UserKey, GlobalEntity)>,
    ) -> (r: Vec<(UserKey, GlobalEntity, ScopeStep)>)
        requires
            self.wf(),
        ensures
            forall|a: int, b: int| 0 <= a < b < r@.len() ==> !((#[trigger] r@[a]).0 == (#[trigger] r@[b]).0 && r@[a].1 == r@[b].1),
            forall|t: (UserKey, GlobalEntity, ScopeStep)| #[trigger] r@.contains(t) <==> ({
                let p = (t.0, t.1);
                &&& together_in_a_room(self.rooms(), p)
                &&& self.users().contains_key(t.0.0)
                &&& connected@.contains(t.0)
                &&& t.2 == pair_step(self.records(), world@, hosted@, in_scope@, p)
                &&& t.2 != ScopeStep::Pass
            }),
    {
        let pairs = self.room_pairs();
        let mut out: Vec<(UserKey, GlobalEntity, ScopeStep)> = Vec::new();
        let mut i: usize = 0;
        while i < pairs.len()
            invariant
                i <= pairs@.len(),
                self.wf(),
                forall|p: (UserKey, GlobalEntity)| #[trigger] pairs@.contains(p) <==> together_in_a_room(self.rooms(), p),
                forall|a: int, b: int| 0 <= a < b < out@.len() ==> !((#[trigger] out@[a]).0 == (#[trigger] out@[b]).0 && out@[a].1 == out@[b].1),
                forall|t: (UserKey, GlobalEntity, ScopeStep)| #[trigger] out@.contains(t) <==> ({
                    let p = (t.0, t.1);
                    &&& pairs@.take(i as int).contains(p)
                    &&& self.users().contains_key(t.0.0)
                    &&& connected@.contains(t.0)
                    &&& t.2 == pair_step(self.records(), world@, hosted@, in_scope@, p)
                    &&& t.2 != ScopeStep::Pass
                }),
            decreases pairs@.len() - i,
        {
            let p = pairs[i];
            proof {
                assert(pairs@.take(i + 1) =~= pairs@.take(i as int).push(p));
            }
            let ghost out0 = out@;
            if self.state.user_store.contains(&p.0) && has_user(connected, &p.0) && !has_step_for(&out, &p) {
                let step = self.scope_step(&p.0, &p.1, has_entity_in(world, &p.1), has_pair(hosted, &p), has_pair(in_scope, &p));
                match step {
                    ScopeStep::Pass => {},
                    _ => {
                        out.push((p.0, p.1, step));
                    },
                }
            }
            proof {
                assert forall|a: int, b: int| 0 <= a < b < out@.len() implies !((#[trigger] out@[a]).0 == (#[trigger] out@[b]).0
                    && out@[a].1 == out@[b].1) by {
                    if b >= out0.len() {
                        assert(out0[a] == out@[a]);
                    } else {
                        assert(out0[a] == out@[a] && out0[b] == out@[b]);
                    }
                }
                assert forall|t: (UserKey, GlobalEntity, ScopeStep)| #[trigger] out@.contains(t) <==> ({
                    let q = (t.0, t.1);
                    &&& pairs@.take(i + 1).contains(q)
                    &&& self.users().contains_key(t.0.0)
                    &&& connected@.contains(t.0)
                    &&& t.2 == pair_step(self.records(), world@, hosted@, in_scope@, q)
                    &&& t.2 != ScopeStep::Pass
                }) by {
                    let q = (t.0, t.1);
                    if out@.contains(t) {
                        let m = choose|m: int| 0 <= m < out@.len() && out@[m] == t;
                        if m < out0.len() {
                            assert(out0[m] == t);
                            assert(out0.contains(t));
                            let r = choose|r: int| 0 <= r < i && #[trigger] pairs@.take(i as int)[r] == q;
                            assert(pairs@.take(i + 1)[r] == q);
                        } else {
                            assert(pairs@.take(i + 1)[i as int] == q);
                        }
                    }
                    if pairs@.take(i + 1).contains(q) && self.users().contains_key(t.0.0) && connected@.contains(t.0)
                        && t.2 == pair_step(self.records(), world@, hosted@, in_scope@, q) && t.2 != ScopeStep::Pass {
                        let r = choose|r: int| 0 <= r < i + 1 && #[trigger] pairs@.take(i + 1)[r] == q;
                        if r < i {
                            assert(pairs@.take(i as int)[r] == q);
                            assert(out0.contains(t));
                            let m = choose|m: int| 0 <= m < out0.len() && out0[m] == t;
                            assert(out@[m] == t);
                        } else {
                            assert(q == p);
                            if exists|m: int| 0 <= m < out0.len() && (#[trigger] out0[m]).0 == p.0 && out0[m].1 == p.1 {
                                let m = choose|m: int| 0 <= m < out0.len() && (#[trigger] out0[m]).0 == p.0 && out0[m].1 == p.1;
                                let u = out0[m];
                                assert(out0.contains(u));
                                assert(u.2 == t.2);
                                assert(u == t);
                                assert(out@[m] == t);
                            } else {
                                assert(out@[out@.len() - 1] == t);
                            }
                        }
                    }
                }
            }
            i += 1;
        }
        proof {
            assert(pairs@.take(pairs@.len() as int) =~= pairs@);
        }
        out
    }
}

} // verus!
