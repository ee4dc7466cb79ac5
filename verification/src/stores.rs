//! The coordination side's own stores: users, rooms and resources.

use std::collections::HashMap;

use vstd::prelude::*;

use crate::keys::{Address, ComponentKind, GlobalEntity, RoomKey, UserKey};
use crate::maps::keys_of;
use crate::room::Room;

verus! {

broadcast use vstd::std_specs::hash::group_hash_axioms;

/// A user as the coordination side knows it: where it connects from and
/// which rooms it is in.
pub struct WorldUser {
    pub address: Address,
    rooms: Vec<RoomKey>,
}

/// The mathematical value of a [`WorldUser`].
pub struct UserView {
    pub address: Address,
    pub rooms: Seq<RoomKey>,
}

impl View for WorldUser {
    type V = UserView;

    closed spec fn view(&self) -> UserView {
        UserView { address: self.address, rooms: self.rooms@ }
    }
}

impl WorldUser {
    /// A user at `address`, in no room.
    pub fn new(address: Address) -> (r: WorldUser)
        ensures
            r@ == (UserView { address, rooms: Seq::empty() }),
    {
        WorldUser { address, rooms: Vec::new() }
    }
}

/// `s` with `x` appended unless it is already there.
pub open spec fn seq_add<A>(s: Seq<A>, x: A) -> Seq<A> {
    if s.contains(x) {
        s
    } else {
        s.push(x)
    }
}

/// Every user the coordination side tracks, and the addresses of users
/// that have not finished connecting.
pub struct UserStore {
    users: HashMap<u64, WorldUser>,
    disconnected: Vec<(Address, UserKey)>,
}

impl UserStore {
    /// Each tracked user, by key number.
    pub closed spec fn users(&self) -> Map<u64, UserView> {
        self.users@.map_values(|u: WorldUser| u@)
    }

    /// Addresses registered for users still connecting, oldest first.
    pub closed spec fn disconnected(&self) -> Seq<(Address, UserKey)> {
        self.disconnected@
    }

    /// An empty store.
    pub fn new() -> (r: UserStore)
        ensures
            r.users() == Map::<u64, UserView>::empty(),
            r.disconnected() == Seq::<(Address, UserKey)>::empty(),
    {
        let r = UserStore { users: HashMap::new(), disconnected: Vec::new() };
        proof {
            assert(r.users() =~= Map::<u64, UserView>::empty());
        }
        r
    }

    /// Whether `user_key` is tracked.
    pub fn contains(&self, user_key: &UserKey) -> (r: bool)
        ensures
            r == self.users().contains_key(user_key.0),
    {
        self.users.contains_key(&user_key.0)
    }

    /// Tracks `user` under `user_key`, replacing any earlier record.
    pub fn insert(&mut self, user_key: UserKey, user: WorldUser)
        ensures
            final(self).users() == old(self).users().insert(user_key.0, user@),
            final(self).disconnected() == old(self).disconnected(),
    {
        self.users.insert(user_key.0, user);
        proof {
            assert(self.users() =~= old(self).users().insert(user_key.0, user@));
        }
    }

    /// Stops tracking `user_key`, returning its record if it was tracked.
    pub fn remove(&mut self, user_key: &UserKey) -> (r: Option<WorldUser>)
        ensures
            final(self).users() == old(self).users().remove(user_key.0),
            final(self).disconnected() == old(self).disconnected(),
            old(self).users().contains_key(user_key.0) ==> r is Some && r->0@ == old(self).users()[user_key.0],
            !old(self).users().contains_key(user_key.0) ==> r is None,
    {
        let r = self.users.remove(&user_key.0);
        proof {
            assert(self.users() =~= old(self).users().remove(user_key.0));
        }
        r
    }

    /// Records that a user connecting from `address` will be `user_key`.
    pub fn register_disconnected(&mut self, address: Address, user_key: UserKey)
        ensures
            final(self).users() == old(self).users(),
            final(self).disconnected() == old(self).disconnected().push((address, user_key)),
    {
        self.disconnected.push((address, user_key));
    }

    /// The key numbers of users whose handshake has not completed: those
    /// with a registration still waiting.
    pub open spec fn pending_keys(&self) -> Set<u64> {
        Set::new(|k: u64| exists|i: int| 0 <= i < self.disconnected().len() && #[trigger] self.disconnected()[i].1.0 == k)
    }

    /// Whether `user_key` still waits for its handshake.
    pub fn is_pending(&self, user_key: &UserKey) -> (r: bool)
        ensures
            r == self.pending_keys().contains(user_key.0),
    {
        let mut i: usize = 0;
        while i < self.disconnected.len()
            invariant
                i <= self.disconnected@.len(),
                forall|j: int| 0 <= j < i ==> self.disconnected@[j].1.0 != user_key.0,
            decreases self.disconnected@.len() - i,
        {
            if self.disconnected[i].1.0 == user_key.0 {
                proof {
                    assert(self.disconnected()[i as int].1.0 == user_key.0);
                }
                return true;
            }
            i += 1;
        }
        false
    }

    /// Completes the handshake of the user connecting from `address`: its
    /// registrations leave the waiting list, and the key of the latest one
    /// is returned. No registration for `address` gives `None` and changes
    /// nothing.
    pub fn take_disconnected(&mut self, address: &Address) -> (r: Option<UserKey>)
        ensures
            final(self).users() == old(self).users(),
            final(self).disconnected() == old(self).disconnected().filter(other_address(*address)),
            r == latest_registration(old(self).disconnected(), *address),
    {
        let mut out: Vec<(Address, UserKey)> = Vec::new();
        let mut found: Option<UserKey> = None;
        let mut i: usize = 0;
        while i < self.disconnected.len()
            invariant
                i <= self.disconnected@.len(),
                out@ == self.disconnected@.take(i as int).filter(other_address(*address)),
                found == latest_registration(self.disconnected@.take(i as int), *address),
            decreases self.disconnected@.len() - i,
        {
            let entry = self.disconnected[i];
            proof {
                let t = self.disconnected@.take(i + 1);
                assert(t =~= self.disconnected@.take(i as int).push(entry));
                assert(t.drop_last() =~= self.disconnected@.take(i as int));
                self.disconnected@.take(i as int).lemma_filter_push(entry, other_address(*address));
            }
            if entry.0 == *address {
                found = Some(entry.1);
            } else {
                out.push(entry);
            }
            i += 1;
        }
        proof {
            assert(self.disconnected@.take(self.disconnected@.len() as int) =~= self.disconnected@);
        }
        self.disconnected = out;
        found
    }

    /// Every tracked user's key, each once, in no particular order.
    pub fn keys_copied(&self) -> (r: Vec<UserKey>)
        ensures
            r@.map_values(|k: UserKey| k.0).to_set() == self.users().dom(),
            r@.map_values(|k: UserKey| k.0).no_duplicates(),
    {
        let ids = keys_of(&self.users);
        let mut out: Vec<UserKey> = Vec::new();
        let mut i: usize = 0;
        while i < ids.len()
            invariant
                i <= ids@.len(),
                out@.map_values(|k: UserKey| k.0) == ids@.take(i as int),
            decreases ids@.len() - i,
        {
            let ghost before = out@;
            out.push(UserKey(ids[i]));
            proof {
                assert(out@.map_values(|k: UserKey| k.0) =~= before.map_values(|k: UserKey| k.0).push(ids@[i as int]));
                assert(ids@.take(i + 1) =~= ids@.take(i as int).push(ids@[i as int]));
            }
            i += 1;
        }
        proof {
            assert(ids@.take(ids@.len() as int) =~= ids@);
            assert(self.users().dom() =~= self.users@.dom());
        }
        out
    }

    /// The address of `user_key`, if tracked.
    pub fn address(&self, user_key: &UserKey) -> (r: Option<Address>)
        ensures
            self.users().contains_key(user_key.0) ==> r == Some(self.users()[user_key.0].address),
            !self.users().contains_key(user_key.0) ==> r is None,
    {
        match self.users.get(&user_key.0) {
            Some(user) => Some(user.address),
            None => None,
        }
    }

    /// How many users are tracked.
    pub fn len(&self) -> (r: usize)
        ensures
            r == self.users().len(),
    {
        proof {
            assert(self.users().dom() =~= self.users@.dom());
        }
        self.users.len()
    }

    /// How many rooms `user_key` is in, if tracked.
    pub fn rooms_count(&self, user_key: &UserKey) -> (r: Option<usize>)
        ensures
            self.users().contains_key(user_key.0) ==> r == Some(self.users()[user_key.0].rooms.len() as usize),
            !self.users().contains_key(user_key.0) ==> r is None,
    {
        match self.users.get(&user_key.0) {
            Some(user) => Some(user.rooms.len()),
            None => None,
        }
    }

    /// The rooms `user_key` is in, in joining order, if tracked.
    pub fn room_keys(&self, user_key: &UserKey) -> (r: Option<Vec<RoomKey>>)
        ensures
            self.users().contains_key(user_key.0) ==> r is Some && r->0@ == self.users()[user_key.0].rooms,
            !self.users().contains_key(user_key.0) ==> r is None,
    {
        match self.users.get(&user_key.0) {
            Some(user) => {
                let mut out: Vec<RoomKey> = Vec::new();
                let mut i: usize = 0;
                while i < user.rooms.len()
                    invariant
                        i <= user.rooms@.len(),
                        out@ == user.rooms@.take(i as int),
                    decreases user.rooms@.len() - i,
                {
                    out.push(user.rooms[i]);
                    proof {
                        assert(user.rooms@.take(i + 1) =~= user.rooms@.take(i as int).push(user.rooms@[i as int]));
                    }
                    i += 1;
                }
                proof {
                    assert(user.rooms@.take(user.rooms@.len() as int) =~= user.rooms@);
                }
                Some(out)
            },
            None => None,
        }
    }

    /// Notes that `user_key`, if tracked, is in `room_key`.
    pub fn add_room(&mut self, user_key: &UserKey, room_key: &RoomKey)
        ensures
            final(self).disconnected() == old(self).disconnected(),
            old(self).users().contains_key(user_key.0) ==> final(self).users() == old(self).users().insert(
                user_key.0,
                UserView {
                    address: old(self).users()[user_key.0].address,
                    rooms: seq_add(old(self).users()[user_key.0].rooms, *room_key),
                },
            ),
            !old(self).users().contains_key(user_key.0) ==> final(self).users() == old(self).users(),
    {
        match self.users.remove(&user_key.0) {
            Some(mut user) => {
                if !vec_contains_room(&user.rooms, room_key) {
                    user.rooms.push(*room_key);
                }
                self.users.insert(user_key.0, user);
                proof {
                    assert(self.users() =~= old(self).users().insert(
                        user_key.0,
                        UserView {
                            address: old(self).users()[user_key.0].address,
                            rooms: seq_add(old(self).users()[user_key.0].rooms, *room_key),
                        },
                    ));
                }
            },
            None => {
                proof {
                    assert(self.users() =~= old(self).users());
                }
            },
        }
    }

    /// Notes that `user_key`, if tracked, is no longer in `room_key`.
    pub fn remove_room(&mut self, user_key: &UserKey, room_key: &RoomKey)
        ensures
            final(self).disconnected() == old(self).disconnected(),
            old(self).users().contains_key(user_key.0) ==> final(self).users() == old(self).users().insert(
                user_key.0,
                UserView {
                    address: old(self).users()[user_key.0].address,
                    rooms: old(self).users()[user_key.0].rooms.filter(other_rooms(*room_key)),
                },
            ),
            !old(self).users().contains_key(user_key.0) ==> final(self).users() == old(self).users(),
    {
        match self.users.remove(&user_key.0) {
            Some(mut user) => {
                let kept = rooms_without(&user.rooms, room_key);
                user.rooms = kept;
                self.users.insert(user_key.0, user);
                proof {
                    assert(self.users() =~= old(self).users().insert(
                        user_key.0,
                        UserView {
                            address: old(self).users()[user_key.0].address,
                            rooms: old(self).users()[user_key.0].rooms.filter(other_rooms(*room_key)),
                        },
                    ));
                }
            },
            None => {
                proof {
                    assert(self.users() =~= old(self).users());
                }
            },
        }
    }
}

/// Keeps every room key but `key`.
pub open spec fn other_rooms(key: RoomKey) -> spec_fn(RoomKey) -> bool {
    |k: RoomKey| k != key
}

pub(crate) fn vec_contains_room(v: &Vec<RoomKey>, key: &RoomKey) -> (r: bool)
    ensures
        r == v@.contains(*key),
{
    let mut i: usize = 0;
    while i < v.len()
        invariant
            i <= v@.len(),
            forall|j: int| 0 <= j < i ==> v@[j] != *key,
        decreases v@.len() - i,
    {
        if v[i] == *key {
            return true;
        }
        i += 1;
    }
    false
}

fn rooms_without(v: &Vec<RoomKey>, key: &RoomKey) -> (r: Vec<RoomKey>)
    ensures
        r@ == v@.filter(other_rooms(*key)),
{
    let mut out: Vec<RoomKey> = Vec::new();
    let mut i: usize = 0;
    while i < v.len()
        invariant
            i <= v@.len(),
            out@ == v@.take(i as int).filter(other_rooms(*key)),
        decreases v@.len() - i,
    {
        proof {
            assert(v@.take(i + 1) =~= v@.take(i as int).push(v@[i as int]));
            v@.take(i as int).lemma_filter_push(v@[i as int], other_rooms(*key));
        }
        if v[i] != *key {
            out.push(v[i]);
        }
        i += 1;
    }
    proof {
        assert(v@.take(v@.len() as int) =~= v@);
    }
    out
}

/// Keeps registrations made from another address than `address`.
pub open spec fn other_address(address: Address) -> spec_fn((Address, UserKey)) -> bool {
    |e: (Address, UserKey)| e.0 != address
}

/// The key of the latest registration made from `address` in `regs`.
pub open spec fn latest_registration(regs: Seq<(Address, UserKey)>, address: Address) -> Option<UserKey>
    decreases regs.len(),
{
    if regs.len() == 0 {
        None
    } else if regs.last().0 == address {
        Some(regs.last().1)
    } else {
        latest_registration(regs.drop_last(), address)
    }
}

/// Every room, keyed by number, and the number the next room gets.
pub struct RoomStore {
    rooms: HashMap<u64, Room>,
    next_key: u64,
}

impl RoomStore {
    /// Each room by key number.
    pub closed spec fn rooms(&self) -> Map<u64, Room> {
        self.rooms@
    }

    /// The key number the next room gets.
    pub closed spec fn next_room_key(&self) -> u64 {
        self.next_key
    }

    /// Every room is well formed and every key is below the next one.
    pub open spec fn wf(&self) -> bool {
        &&& self.rooms().dom().finite()
        &&& forall|k: u64| #[trigger] self.rooms().contains_key(k) ==> self.rooms()[k].wf()
        &&& forall|k: u64| #[trigger] self.rooms().contains_key(k) ==> k < self.next_room_key()
    }

    /// A store without rooms.
    pub fn new() -> (r: RoomStore)
        ensures
            r.wf(),
            r.rooms() == Map::<u64, Room>::empty(),
            r.next_room_key() == 0,
    {
        RoomStore { rooms: HashMap::new(), next_key: 0 }
    }

    /// Stores `room` under a new key and returns the key.
    pub fn insert(&mut self, room: Room) -> (r: RoomKey)
        requires
            old(self).wf(),
            room.wf(),
            old(self).next_room_key() < u64::MAX,
        ensures
            final(self).wf(),
            r.0 == old(self).next_room_key(),
            !old(self).rooms().contains_key(r.0),
            final(self).rooms() == old(self).rooms().insert(r.0, room),
            final(self).next_room_key() == old(self).next_room_key() + 1,
    {
        let key = self.next_key;
        self.next_key = self.next_key + 1;
        self.rooms.insert(key, room);
        proof {
            assert forall|k: u64| #[trigger] self.rooms().contains_key(k) implies self.rooms()[k].wf() && k < self.next_room_key() by {
                if k != key {
                    assert(old(self).rooms().contains_key(k));
                }
            }
        }
        RoomKey(key)
    }

    /// Whether `room_key` names a room.
    pub fn contains(&self, room_key: &RoomKey) -> (r: bool)
        ensures
            r == self.rooms().contains_key(room_key.0),
    {
        self.rooms.contains_key(&room_key.0)
    }

    /// How many rooms there are.
    pub fn len(&self) -> (r: usize)
        ensures
            r == self.rooms().len(),
    {
        self.rooms.len()
    }

    /// Every room key, each once, in no particular order.
    pub fn keys(&self) -> (r: Vec<RoomKey>)
        ensures
            r@.map_values(|k: RoomKey| k.0).to_set() == self.rooms().dom(),
            r@.map_values(|k: RoomKey| k.0).no_duplicates(),
    {
        let ids = keys_of(&self.rooms);
        let mut out: Vec<RoomKey> = Vec::new();
        let mut i: usize = 0;
        while i < ids.len()
            invariant
                i <= ids@.len(),
                out@.map_values(|k: RoomKey| k.0) == ids@.take(i as int),
            decreases ids@.len() - i,
        {
            let ghost before = out@;
            out.push(RoomKey(ids[i]));
            proof {
                assert(out@.map_values(|k: RoomKey| k.0) =~= before.map_values(|k: RoomKey| k.0).push(ids@[i as int]));
                assert(ids@.take(i + 1) =~= ids@.take(i as int).push(ids@[i as int]));
            }
            i += 1;
        }
        proof {
            assert(ids@.take(ids@.len() as int) =~= ids@);
        }
        out
    }

    /// The room named `room_key`, if any.
    pub fn get(&self, room_key: &RoomKey) -> (r: Option<&Room>)
        ensures
            self.rooms().contains_key(room_key.0) ==> r == Some(&self.rooms()[room_key.0]),
            !self.rooms().contains_key(room_key.0) ==> r is None,
    {
        self.rooms.get(&room_key.0)
    }

    /// Takes the room named `room_key` out of the store.
    pub fn take(&mut self, room_key: &RoomKey) -> (r: Option<Room>)
        requires
            old(self).wf(),
        ensures
            final(self).wf(),
            final(self).next_room_key() == old(self).next_room_key(),
            final(self).rooms() == old(self).rooms().remove(room_key.0),
            old(self).rooms().contains_key(room_key.0) ==> r == Some(old(self).rooms()[room_key.0]),
            !old(self).rooms().contains_key(room_key.0) ==> r is None,
    {
        let r = self.rooms.remove(&room_key.0);
        proof {
            assert forall|k: u64| #[trigger] self.rooms().contains_key(k) implies self.rooms()[k].wf() && k < self.next_room_key() by {
                assert(old(self).rooms().contains_key(k));
            }
        }
        r
    }

    /// Pops the oldest queued scope exit of room `room_key`, which must
    /// exist; every room keeps its users and entities.
    pub fn pop_removal(&mut self, room_key: &RoomKey) -> (r: Option<(UserKey, GlobalEntity)>)
        requires
            old(self).wf(),
            old(self).rooms().contains_key(room_key.0),
        ensures
            final(self).wf(),
            final(self).next_room_key() == old(self).next_room_key(),
            final(self).rooms().dom() == old(self).rooms().dom(),
            forall|k: u64| #[trigger] old(self).rooms().contains_key(k) && k != room_key.0 ==> final(self).rooms()[k]
                == old(self).rooms()[k],
            final(self).rooms()[room_key.0].user_seq() == old(self).rooms()[room_key.0].user_seq(),
            final(self).rooms()[room_key.0].entity_seq() == old(self).rooms()[room_key.0].entity_seq(),
            old(self).rooms()[room_key.0].removal_queue().len() == 0 ==> r is None
                && final(self).rooms()[room_key.0].removal_queue() == old(self).rooms()[room_key.0].removal_queue(),
            old(self).rooms()[room_key.0].removal_queue().len() > 0 ==> r == Some(old(self).rooms()[room_key.0].removal_queue()[0])
                && final(self).rooms()[room_key.0].removal_queue() == old(self).rooms()[room_key.0].removal_queue().drop_first(),
    {
        let mut room = self.take(room_key).unwrap();
        let r = room.pop_entity_removal_queue();
        self.put_back(room_key, room);
        proof {
            assert(self.rooms().dom() =~= old(self).rooms().dom());
        }
        r
    }

    /// Puts `room` back under `room_key`, which must have been taken out.
    pub fn put_back(&mut self, room_key: &RoomKey, room: Room)
        requires
            old(self).wf(),
            room.wf(),
            room_key.0 < old(self).next_room_key(),
        ensures
            final(self).wf(),
            final(self).next_room_key() == old(self).next_room_key(),
            final(self).rooms() == old(self).rooms().insert(room_key.0, room),
    {
        self.rooms.insert(room_key.0, room);
        proof {
            assert forall|k: u64| #[trigger] self.rooms().contains_key(k) implies self.rooms()[k].wf() && k < self.next_room_key() by {
                if k != room_key.0 {
                    assert(old(self).rooms().contains_key(k));
                }
            }
        }
    }
}

/// The hidden entities that carry resources, one per resource kind.
pub struct ResourceRegistry {
    entries: Vec<(ComponentKind, GlobalEntity)>,
}

impl ResourceRegistry {
    /// Each resource kind with its entity, in insertion order.
    pub closed spec fn entries(&self) -> Seq<(ComponentKind, GlobalEntity)> {
        self.entries@
    }

    /// A registry without resources.
    pub fn new() -> (r: ResourceRegistry)
        ensures
            r.entries() == Seq::<(ComponentKind, GlobalEntity)>::empty(),
    {
        ResourceRegistry { entries: Vec::new() }
    }

    /// Whether `global_entity` carries a resource.
    pub fn is_resource_entity(&self, global_entity: &GlobalEntity) -> (r: bool)
        ensures
            r == exists|i: int| 0 <= i < self.entries().len() && #[trigger] self.entries()[i].1 == *global_entity,
    {
        let mut i: usize = 0;
        while i < self.entries.len()
            invariant
                i <= self.entries@.len(),
                forall|j: int| 0 <= j < i ==> self.entries@[j].1 != *global_entity,
            decreases self.entries@.len() - i,
        {
            if self.entries[i].1 == *global_entity {
                assert(self.entries()[i as int].1 == *global_entity);
                return true;
            }
            i += 1;
        }
        false
    }

    /// The entity carrying the resource of kind `kind`, if one is inserted.
    pub fn entity_for(&self, kind: &ComponentKind) -> (r: Option<GlobalEntity>)
        ensures
            match r {
                Some(g) => exists|i: int| 0 <= i < self.entries().len() && #[trigger] self.entries()[i] == (*kind, g)
                    && forall|j: int| 0 <= j < i ==> #[trigger] self.entries()[j].0 != *kind,
                None => forall|i: int| 0 <= i < self.entries().len() ==> #[trigger] self.entries()[i].0 != *kind,
            },
    {
        let mut i: usize = 0;
        while i < self.entries.len()
            invariant
                i <= self.entries@.len(),
                forall|j: int| 0 <= j < i ==> #[trigger] self.entries@[j].0 != *kind,
            decreases self.entries@.len() - i,
        {
            if self.entries[i].0 == *kind {
                assert(self.entries()[i as int] == (*kind, self.entries@[i as int].1));
                return Some(self.entries[i].1);
            }
            i += 1;
        }
        None
    }

    /// Records `global_entity` as the carrier of resource `kind`; nothing
    /// changes if that kind is already inserted.
    pub fn insert(&mut self, kind: ComponentKind, global_entity: GlobalEntity) -> (r: bool)
        ensures
            r == forall|i: int| 0 <= i < old(self).entries().len() ==> #[trigger] old(self).entries()[i].0 != kind,
            r ==> final(self).entries() == old(self).entries().push((kind, global_entity)),
            !r ==> final(self).entries() == old(self).entries(),
    {
        if self.entity_for(&kind).is_some() {
            assert(exists|i: int| 0 <= i < old(self).entries().len() && old(self).entries()[i].0 == kind);
            return false;
        }
        self.entries.push((kind, global_entity));
        true
    }

    /// How many resources are inserted.
    pub fn len(&self) -> (r: usize)
        ensures
            r == self.entries().len(),
    {
        self.entries.len()
    }
}

} // verus!
