//! A room: a set of users and a set of entities, where every entity in the
//! room is in scope for every user in it.

use std::collections::VecDeque;

use vstd::prelude::*;

use crate::keys::{GlobalEntity, UserKey};

verus! {

/// The index of the first occurrence of `x` in `s`, or -1.
pub open spec fn position_of<A>(s: Seq<A>, x: A) -> int
    decreases s.len(),
{
    if s.len() == 0 {
        -1
    } else if s[0] == x {
        0
    } else if position_of(s.drop_first(), x) < 0 {
        -1
    } else {
        position_of(s.drop_first(), x) + 1
    }
}

pub proof fn lemma_position_of<A>(s: Seq<A>, x: A)
    ensures
        s.contains(x) ==> 0 <= position_of(s, x) < s.len() && s[position_of(s, x)] == x && (forall|j: int|
            0 <= j < position_of(s, x) ==> s[j] != x),
        !s.contains(x) ==> position_of(s, x) == -1,
    decreases s.len(),
{
    if s.len() > 0 {
        lemma_position_of(s.drop_first(), x);
        if s[0] != x {
            if s.contains(x) {
                let j = choose|j: int| 0 <= j < s.len() && s[j] == x;
                assert(s.drop_first()[j - 1] == x);
            }
            if s.drop_first().contains(x) {
                let j = choose|j: int| 0 <= j < s.drop_first().len() && s.drop_first()[j] == x;
                assert(s[j + 1] == x);
                assert forall|k: int| 0 <= k < position_of(s, x) implies s[k] != x by {
                    if k > 0 {
                        assert(s[k] == s.drop_first()[k - 1]);
                    }
                }
            }
        }
    }
}

/// Index of `key` in `v`, or `None`.
pub fn find_user(v: &Vec<UserKey>, key: &UserKey) -> (r: Option<usize>)
    ensures
        match r {
            Some(i) => i == position_of(v@, *key) && i < v@.len() && v@[i as int] == *key,
            None => !v@.contains(*key),
        },
{
    proof {
        lemma_position_of(v@, *key);
    }
    let mut i: usize = 0;
    while i < v.len()
        invariant
            i <= v@.len(),
            forall|j: int| 0 <= j < i ==> v@[j] != *key,
            v@.contains(*key) ==> 0 <= position_of(v@, *key) < v@.len() && v@[position_of(v@, *key)] == *key
                && (forall|j: int| 0 <= j < position_of(v@, *key) ==> v@[j] != *key),
            !v@.contains(*key) ==> position_of(v@, *key) == -1,
        decreases v@.len() - i,
    {
        if v[i] == *key {
            return Some(i);
        }
        i += 1;
    }
    None
}

/// Index of `entity` in `v`, or `None`.
pub fn find_entity(v: &Vec<GlobalEntity>, entity: &GlobalEntity) -> (r: Option<usize>)
    ensures
        match r {
            Some(i) => i == position_of(v@, *entity) && i < v@.len() && v@[i as int] == *entity,
            None => !v@.contains(*entity),
        },
{
    proof {
        lemma_position_of(v@, *entity);
    }
    let mut i: usize = 0;
    while i < v.len()
        invariant
            i <= v@.len(),
            forall|j: int| 0 <= j < i ==> v@[j] != *entity,
            v@.contains(*entity) ==> 0 <= position_of(v@, *entity) < v@.len() && v@[position_of(v@, *entity)]
                == *entity && (forall|j: int| 0 <= j < position_of(v@, *entity) ==> v@[j] != *entity),
            !v@.contains(*entity) ==> position_of(v@, *entity) == -1,
        decreases v@.len() - i,
    {
        if v[i] == *entity {
            return Some(i);
        }
        i += 1;
    }
    None
}

/// `s` without its first occurrence of `x` (unchanged when absent).
pub open spec fn without<A>(s: Seq<A>, x: A) -> Seq<A> {
    if s.contains(x) {
        s.remove(position_of(s, x))
    } else {
        s
    }
}

/// The removals a departing `user` leaves: one per entity, in entity order.
pub open spec fn removals_for_user(user: UserKey, entities: Seq<GlobalEntity>) -> Seq<(UserKey, GlobalEntity)> {
    entities.map_values(|e: GlobalEntity| (user, e))
}

/// The removals a departing `entity` leaves: one per user, in user order.
pub open spec fn removals_for_entity(users: Seq<UserKey>, entity: GlobalEntity) -> Seq<(UserKey, GlobalEntity)> {
    users.map_values(|u: UserKey| (u, entity))
}

/// A room's members and the `(user, entity)` scope exits it still has to
/// report.
pub struct Room {
    users: Vec<UserKey>,
    entities: Vec<GlobalEntity>,
    entity_removal_queue: VecDeque<(UserKey, GlobalEntity)>,
}

impl Room {
    /// The users in the room, in the order they joined.
    pub closed spec fn user_seq(&self) -> Seq<UserKey> {
        self.users@
    }

    /// The entities in the room, in the order they were added.
    pub closed spec fn entity_seq(&self) -> Seq<GlobalEntity> {
        self.entities@
    }

    /// The `(user, entity)` pairs that have left each other's company and
    /// are still to be reported, oldest first.
    pub closed spec fn removal_queue(&self) -> Seq<(UserKey, GlobalEntity)> {
        self.entity_removal_queue@
    }

    /// No user and no entity is listed twice.
    pub open spec fn wf(&self) -> bool {
        &&& self.user_seq().no_duplicates()
        &&& self.entity_seq().no_duplicates()
    }

    /// An empty room.
    pub fn new() -> (r: Room)
        ensures
            r.wf(),
            r.user_seq() == Seq::<UserKey>::empty(),
            r.entity_seq() == Seq::<GlobalEntity>::empty(),
            r.removal_queue() == Seq::<(UserKey, GlobalEntity)>::empty(),
    {
        Room { users: Vec::new(), entities: Vec::new(), entity_removal_queue: VecDeque::new() }
    }

    // Users

    /// Whether `user_key` is in the room.
    pub fn has_user(&self, user_key: &UserKey) -> (r: bool)
        ensures
            r == self.user_seq().contains(*user_key),
    {
        find_user(&self.users, user_key).is_some()
    }

    /// Adds `user_key` to the room; nothing changes if it is already there.
    pub fn subscribe_user(&mut self, user_key: &UserKey)
        requires
            old(self).wf(),
        ensures
            final(self).wf(),
            old(self).user_seq().contains(*user_key) ==> final(self).user_seq() == old(self).user_seq(),
            !old(self).user_seq().contains(*user_key) ==> final(self).user_seq() == old(self).user_seq().push(*user_key),
            final(self).entity_seq() == old(self).entity_seq(),
            final(self).removal_queue() == old(self).removal_queue(),
    {
        if find_user(&self.users, user_key).is_none() {
            self.users.push(*user_key);
            proof {
                assert forall|i: int, j: int| 0 <= i < j < self.users@.len() implies self.users@[i] != self.users@[j] by {
                    if j == self.users@.len() - 1 {
                        assert(old(self).users@.contains(self.users@[i]) || true);
                        if self.users@[i] == self.users@[j] {
                            assert(old(self).user_seq().contains(*user_key));
                        }
                    }
                }
            }
        }
    }

    /// Takes `user_key` out of the room, and queues one scope exit for it
    /// per entity in the room.
    pub fn unsubscribe_user(&mut self, user_key: &UserKey)
        requires
            old(self).wf(),
        ensures
            final(self).wf(),
            final(self).user_seq() == without(old(self).user_seq(), *user_key),
            final(self).entity_seq() == old(self).entity_seq(),
            final(self).removal_queue() == old(self).removal_queue() + removals_for_user(
                *user_key,
                old(self).entity_seq(),
            ),
    {
        match find_user(&self.users, user_key) {
            Some(i) => {
                self.users.remove(i);
                proof {
                    assert forall|a: int, b: int| 0 <= a < b < self.users@.len() implies self.users@[a] != self.users@[b] by {
                        let a0 = if a < i { a } else { a + 1 };
                        let b0 = if b < i { b } else { b + 1 };
                        assert(self.users@[a] == old(self).users@[a0]);
                        assert(self.users@[b] == old(self).users@[b0]);
                    }
                }
            },
            None => {},
        }
        let mut k: usize = 0;
        let ghost q0 = self.entity_removal_queue@;
        while k < self.entities.len()
            invariant
                k <= self.entities@.len(),
                self.entities@ == old(self).entities@,
                self.users@ == without(old(self).users@, *user_key),
                self.users@.no_duplicates(),
                q0 == old(self).entity_removal_queue@,
                self.entity_removal_queue@ == q0 + removals_for_user(*user_key, self.entities@.take(k as int)),
            decreases self.entities@.len() - k,
        {
            let e = self.entities[k];
            self.entity_removal_queue.push_back((*user_key, e));
            proof {
                assert(removals_for_user(*user_key, self.entities@.take(k + 1)) =~= removals_for_user(
                    *user_key,
                    self.entities@.take(k as int),
                ).push((*user_key, e)));
            }
            k += 1;
        }
        proof {
            assert(self.entities@.take(self.entities@.len() as int) =~= self.entities@);
        }
    }

    /// The users in the room, in the order they joined.
    pub fn user_keys(&self) -> (r: Vec<UserKey>)
        ensures
            r@ == self.user_seq(),
    {
        let mut out: Vec<UserKey> = Vec::new();
        let mut i: usize = 0;
        while i < self.users.len()
            invariant
                i <= self.users@.len(),
                out@ == self.users@.take(i as int),
            decreases self.users@.len() - i,
        {
            out.push(self.users[i]);
            proof {
                assert(self.users@.take(i + 1) =~= self.users@.take(i as int).push(self.users@[i as int]));
            }
            i += 1;
        }
        proof {
            assert(self.users@.take(self.users@.len() as int) =~= self.users@);
        }
        out
    }

    /// How many users are in the room.
    pub fn users_count(&self) -> (r: usize)
        ensures
            r == self.user_seq().len(),
    {
        self.users.len()
    }

    // Entities

    /// Adds `global_entity` to the room; nothing changes if it is already there.
    pub fn add_entity(&mut self, global_entity: &GlobalEntity)
        requires
            old(self).wf(),
        ensures
            final(self).wf(),
            old(self).entity_seq().contains(*global_entity) ==> final(self).entity_seq() == old(self).entity_seq(),
            !old(self).entity_seq().contains(*global_entity) ==> final(self).entity_seq()
                == old(self).entity_seq().push(*global_entity),
            final(self).user_seq() == old(self).user_seq(),
            final(self).removal_queue() == old(self).removal_queue(),
    {
        if find_entity(&self.entities, global_entity).is_none() {
            self.entities.push(*global_entity);
            proof {
                assert forall|i: int, j: int| 0 <= i < j < self.entities@.len() implies self.entities@[i]
                    != self.entities@[j] by {
                    if j == self.entities@.len() - 1 && self.entities@[i] == self.entities@[j] {
                        assert(old(self).entity_seq().contains(*global_entity));
                    }
                }
            }
        }
    }

    /// Takes `global_entity`, which must be in the room, out of it. Unless the
    /// entity was despawned, one scope exit per user in the room is queued.
    pub fn remove_entity(&mut self, global_entity: &GlobalEntity, entity_is_despawned: bool) -> (r: bool)
        requires
            old(self).wf(),
            old(self).entity_seq().contains(*global_entity),
        ensures
            r,
            final(self).wf(),
            final(self).entity_seq() == without(old(self).entity_seq(), *global_entity),
            final(self).user_seq() == old(self).user_seq(),
            entity_is_despawned ==> final(self).removal_queue() == old(self).removal_queue(),
            !entity_is_despawned ==> final(self).removal_queue() == old(self).removal_queue()
                + removals_for_entity(old(self).user_seq(), *global_entity),
    {
        match find_entity(&self.entities, global_entity) {
            Some(i) => {
                self.entities.remove(i);
                proof {
                    assert forall|a: int, b: int| 0 <= a < b < self.entities@.len() implies self.entities@[a]
                        != self.entities@[b] by {
                        let a0 = if a < i { a } else { a + 1 };
                        let b0 = if b < i { b } else { b + 1 };
                        assert(self.entities@[a] == old(self).entities@[a0]);
                        assert(self.entities@[b] == old(self).entities@[b0]);
                    }
                }
            },
            None => {},
        }
        if !entity_is_despawned {
            let mut k: usize = 0;
            let ghost q0 = self.entity_removal_queue@;
            while k < self.users.len()
                invariant
                    k <= self.users@.len(),
                    self.users@ == old(self).users@,
                    self.entities@ == without(old(self).entities@, *global_entity),
                    self.entities@.no_duplicates(),
                    q0 == old(self).entity_removal_queue@,
                    self.entity_removal_queue@ == q0 + removals_for_entity(self.users@.take(k as int), *global_entity),
                decreases self.users@.len() - k,
            {
                let u = self.users[k];
                self.entity_removal_queue.push_back((u, *global_entity));
                proof {
                    assert(removals_for_entity(self.users@.take(k + 1), *global_entity) =~= removals_for_entity(
                        self.users@.take(k as int),
                        *global_entity,
                    ).push((u, *global_entity)));
                }
                k += 1;
            }
            proof {
                assert(self.users@.take(self.users@.len() as int) =~= self.users@);
            }
        }
        true
    }

    /// Whether `global_entity` is in the room.
    pub fn has_entity(&self, global_entity: &GlobalEntity) -> (r: bool)
        ensures
            r == self.entity_seq().contains(*global_entity),
    {
        find_entity(&self.entities, global_entity).is_some()
    }

    /// The entities in the room, in the order they were added.
    pub fn entities(&self) -> (r: Vec<GlobalEntity>)
        ensures
            r@ == self.entity_seq(),
    {
        let mut out: Vec<GlobalEntity> = Vec::new();
        let mut i: usize = 0;
        while i < self.entities.len()
            invariant
                i <= self.entities@.len(),
                out@ == self.entities@.take(i as int),
            decreases self.entities@.len() - i,
        {
            out.push(self.entities[i]);
            proof {
                assert(self.entities@.take(i + 1) =~= self.entities@.take(i as int).push(self.entities@[i as int]));
            }
            i += 1;
        }
        proof {
            assert(self.entities@.take(self.entities@.len() as int) =~= self.entities@);
        }
        out
    }

    /// The oldest queued scope exit, removed from the queue.
    pub fn pop_entity_removal_queue(&mut self) -> (r: Option<(UserKey, GlobalEntity)>)
        ensures
            final(self).user_seq() == old(self).user_seq(),
            final(self).entity_seq() == old(self).entity_seq(),
            old(self).removal_queue().len() == 0 ==> (r is None && final(self).removal_queue() == old(self).removal_queue()),
            old(self).removal_queue().len() > 0 ==> (r == Some(old(self).removal_queue()[0])
                && final(self).removal_queue() == old(self).removal_queue().drop_first()),
    {
        let r = self.entity_removal_queue.pop_front();
        proof {
            if old(self).removal_queue().len() == 0 {
                assert(self.entity_removal_queue@ =~= old(self).entity_removal_queue@);
            }
        }
        r
    }

    /// Number of queued scope exits.
    pub fn entity_removal_queue_len(&self) -> (r: usize)
        ensures
            r == self.removal_queue().len(),
    {
        self.entity_removal_queue.len()
    }

    /// Drops every queued scope exit without acting on it, returning how many
    /// were dropped.
    pub fn clear_entity_removal_queue(&mut self) -> (r: usize)
        ensures
            r == old(self).removal_queue().len(),
            final(self).removal_queue() == Seq::<(UserKey, GlobalEntity)>::empty(),
            final(self).user_seq() == old(self).user_seq(),
            final(self).entity_seq() == old(self).entity_seq(),
    {
        let n = self.entity_removal_queue.len();
        self.entity_removal_queue.clear();
        n
    }

    /// How many entities are in the room.
    pub fn entities_count(&self) -> (r: usize)
        ensures
            r == self.entity_seq().len(),
    {
        self.entities.len()
    }
}

} // verus!
