//! The entity events a client's packets lead to, and the order the server
//! applies them in: spawns and component changes first, then what depends
//! on them (publication, delegation, authority), and despawns last.

use std::hash::Hash;

use vstd::prelude::*;

use crate::coord::CoordHandle;
use crate::keys::ComponentKind;
use crate::world_manager::{EntityOwner, Publicity, RecordView};

verus! {

/// An entity event a client's packet leads to, on world entity `E`.
#[derive(Clone, Copy, PartialEq, Eq, Debug, Structural)]
pub enum ResponseEvent<E> {
    SpawnEntity(E),
    InsertComponent(E, ComponentKind),
    RemoveComponent(E, ComponentKind),
    PublishEntity(E),
    UnpublishEntity(E),
    EnableDelegationEntity(E),
    EnableDelegationEntityResponse(E),
    /// Only the server disables delegation.
    DisableDelegationEntity(E),
    /// The client asks for authority; the number is its own id for the entity.
    EntityRequestAuthority(E, u64),
    EntityReleaseAuthority(E),
    /// Only the server updates authority.
    EntityUpdateAuthority(E),
    /// Only the server migrates entities.
    EntityMigrateResponse(E),
    DespawnEntity(E),
}

/// The pass in which an event is applied: 0 for spawns and component
/// changes, 1 for what depends on them, 2 for despawns.
pub open spec fn response_pass<E>(event: ResponseEvent<E>) -> int {
    match event {
        ResponseEvent::SpawnEntity(_) | ResponseEvent::InsertComponent(_, _) | ResponseEvent::RemoveComponent(_, _) => 0,
        ResponseEvent::DespawnEntity(_) => 2,
        _ => 1,
    }
}

/// An event only the server may cause; a client's packet leading to one is
/// a broken client.
pub open spec fn server_only<E>(event: ResponseEvent<E>) -> bool {
    match event {
        ResponseEvent::DisableDelegationEntity(_) | ResponseEvent::EntityUpdateAuthority(_)
        | ResponseEvent::EntityMigrateResponse(_) => true,
        _ => false,
    }
}

/// Keeps the events applied in pass `pass`.
pub open spec fn in_pass<E>(pass: int) -> spec_fn(ResponseEvent<E>) -> bool {
    |e: ResponseEvent<E>| response_pass(e) == pass
}

/// The order the events are applied in: each pass in turn, and within a
/// pass the order they came in.
pub open spec fn response_order<E>(events: Seq<ResponseEvent<E>>) -> Seq<ResponseEvent<E>> {
    events.filter(in_pass(0)) + events.filter(in_pass(1)) + events.filter(in_pass(2))
}

fn pass_of<E: Copy>(event: &ResponseEvent<E>) -> (r: u8)
    ensures
        (r == 0) == changes_entity(*event),
        (r == 2) == (*event is DespawnEntity),
        r <= 2,
        r == response_pass(*event),
{
    match event {
        ResponseEvent::SpawnEntity(_) | ResponseEvent::InsertComponent(_, _) | ResponseEvent::RemoveComponent(_, _) => 0,
        ResponseEvent::DespawnEntity(_) => 2,
        _ => 1,
    }
}

fn events_of_pass<E: Copy>(events: &Vec<ResponseEvent<E>>, pass: u8) -> (r: Vec<ResponseEvent<E>>)
    ensures
        r@ == events@.filter(in_pass(pass as int)),
{
    let mut out: Vec<ResponseEvent<E>> = Vec::new();
    let mut i: usize = 0;
    while i < events.len()
        invariant
            i <= events@.len(),
            out@ == events@.take(i as int).filter(in_pass(pass as int)),
        decreases events@.len() - i,
    {
        proof {
            assert(events@.take(i + 1) =~= events@.take(i as int).push(events@[i as int]));
            events@.take(i as int).lemma_filter_push(events@[i as int], in_pass(pass as int));
        }
        if pass_of(&events[i]) == pass {
            out.push(events[i]);
        }
        i += 1;
    }
    proof {
        assert(events@.take(events@.len() as int) =~= events@);
    }
    out
}

/// Puts the events a client's packet led to in the order they are
/// applied: spawns and component changes first, then publication,
/// delegation and authority events, then despawns, each group in the order
/// the events came in. A client cannot cause the server-only events, on
/// which the server stops.
pub fn order_response_events<E: Copy>(events: &Vec<ResponseEvent<E>>) -> (r: Vec<ResponseEvent<E>>)
    requires
        forall|i: int| 0 <= i < events@.len() ==> !server_only(#[trigger] events@[i]),
    ensures
        r@ == response_order(events@),
        r@.to_multiset() == events@.to_multiset(),
        forall|i: int, j: int|
            0 <= i < j < r@.len() ==> {
                &&& changes_entity(#[trigger] r@[j]) ==> changes_entity(r@[i])
                &&& (#[trigger] r@[i]) is DespawnEntity ==> r@[j] is DespawnEntity
            },
{
    proof {
        lemma_changes_first_despawns_last(events@);
    }
    let mut out = events_of_pass(events, 0);
    let mut middle = events_of_pass(events, 1);
    let mut last = events_of_pass(events, 2);
    out.append(&mut middle);
    out.append(&mut last);
    out
}

/// Every event lands in exactly one pass, so reordering loses and adds
/// nothing: the applied events are the received ones.
pub proof fn lemma_order_keeps_every_event<E>(events: Seq<ResponseEvent<E>>)
    ensures
        response_order(events).to_multiset() == events.to_multiset(),
    decreases events.len(),
{
    broadcast use vstd::seq_lib::group_seq_properties, vstd::multiset::group_multiset_axioms;
    if events.len() == 0 {
        assert(events.filter(in_pass(0)) =~= Seq::<ResponseEvent<E>>::empty()) by {
            reveal(Seq::filter);
        }
        assert(events.filter(in_pass(1)) =~= Seq::<ResponseEvent<E>>::empty()) by {
            reveal(Seq::filter);
        }
        assert(events.filter(in_pass(2)) =~= Seq::<ResponseEvent<E>>::empty()) by {
            reveal(Seq::filter);
        }
        assert(response_order(events) =~= events);
    } else {
        let init = events.drop_last();
        let x = events.last();
        lemma_order_keeps_every_event(init);
        assert(events =~= init.push(x));
        init.lemma_filter_push(x, in_pass(0));
        init.lemma_filter_push(x, in_pass(1));
        init.lemma_filter_push(x, in_pass(2));
        let a = init.filter(in_pass(0));
        let b = init.filter(in_pass(1));
        let c = init.filter(in_pass(2));
        vstd::seq_lib::lemma_multiset_commutative(a + b, c);
        vstd::seq_lib::lemma_multiset_commutative(a, b);
        let p = response_pass(x);
        if p == 0 {
            vstd::seq_lib::lemma_multiset_commutative(a.push(x) + b, c);
            vstd::seq_lib::lemma_multiset_commutative(a.push(x), b);
        } else if p == 1 {
            vstd::seq_lib::lemma_multiset_commutative(a + b.push(x), c);
            vstd::seq_lib::lemma_multiset_commutative(a, b.push(x));
        } else {
            vstd::seq_lib::lemma_multiset_commutative(a + b, c.push(x));
        }
    }
}

/// A spawn or a component change: what later events of the packet rest on.
pub open spec fn changes_entity<E>(event: ResponseEvent<E>) -> bool {
    event is SpawnEntity || event is InsertComponent || event is RemoveComponent
}

/// Every spawn and component change is applied before every other event,
/// and every despawn after every other event: an event that rests on what
/// the packet spawned or changed sees it done, and nothing is applied to an
/// entity the packet despawned. Reordering keeps every received event.
pub proof fn lemma_changes_first_despawns_last<E>(events: Seq<ResponseEvent<E>>)
    ensures
        forall|i: int, j: int|
            0 <= i < j < response_order(events).len() ==> {
                &&& changes_entity(#[trigger] response_order(events)[j]) ==> changes_entity(response_order(events)[i])
                &&& (#[trigger] response_order(events)[i]) is DespawnEntity ==> response_order(events)[j] is DespawnEntity
            },
        response_order(events).to_multiset() == events.to_multiset(),
{
    let a = events.filter(in_pass(0));
    let b = events.filter(in_pass(1));
    let c = events.filter(in_pass(2));
    let r = response_order(events);
    assert(r == a + b + c);
    assert forall|k: int| 0 <= k < a.len() implies changes_entity(#[trigger] a[k]) by {
        events.lemma_filter_pred(in_pass(0), k);
    }
    assert forall|k: int| 0 <= k < b.len() implies !changes_entity(#[trigger] b[k]) && !(b[k] is DespawnEntity) by {
        events.lemma_filter_pred(in_pass(1), k);
    }
    assert forall|k: int| 0 <= k < c.len() implies (#[trigger] c[k]) is DespawnEntity by {
        events.lemma_filter_pred(in_pass(2), k);
    }
    assert forall|i: int, j: int| 0 <= i < j < r.len() implies {
        &&& changes_entity(#[trigger] r[j]) ==> changes_entity(r[i])
        &&& (#[trigger] r[i]) is DespawnEntity ==> r[j] is DespawnEntity
    } by {
        if i < a.len() {
            assert(r[i] == a[i]);
        } else if i < a.len() + b.len() {
            assert(r[i] == b[i - a.len()]);
        } else {
            assert(r[i] == c[i - a.len() - b.len()]);
        }
        if j < a.len() {
            assert(r[j] == a[j]);
        } else if j < a.len() + b.len() {
            assert(r[j] == b[j - a.len()]);
        } else {
            assert(r[j] == c[j - a.len() - b.len()]);
        }
    }
    lemma_order_keeps_every_event(events);
}

/// The entity's record makes it public and client-owned, or delegated:
/// its component and despawn events reach every client that has it, not
/// only its record.
pub open spec fn shared_by_clients(records: Map<u64, RecordView>, global: u64) -> bool {
    records.contains_key(global) && (records[global].owner is ClientPublic || records[global].config.publicity
        == Publicity::Delegated)
}

/// Events of an entity reach every client exactly when its record says a
/// client owns and published it, or that it is delegated; an entity
/// without a record, or one the server or a client keeps to itself, is not
/// shared.
pub proof fn lemma_shared_means_published_or_delegated(records: Map<u64, RecordView>, global: u64)
    ensures
        shared_by_clients(records, global) <==> (records.contains_key(global) && ((exists|u: crate::keys::UserKey|
            records[global].owner == EntityOwner::ClientPublic(u)) || records[global].config.publicity
            == Publicity::Delegated)),
{
    if records.contains_key(global) && records[global].owner is ClientPublic {
        let u = records[global].owner->ClientPublic_0;
        assert(records[global].owner == EntityOwner::ClientPublic(u));
    }
}

impl<E: Copy + Eq + Hash> CoordHandle<E> {
    /// Whether component and despawn events of `world_entity` go out to
    /// every client (it is public and client-owned, or delegated) rather
    /// than only changing its record.
    pub fn response_is_shared(&self, world_entity: &E) -> (r: bool)
        requires
            self.wf(),
        ensures
            r == (self.to_global().contains_key(*world_entity) && shared_by_clients(
                self.records(),
                self.to_global()[*world_entity],
            )),
    {
        let global = match self.shared.global_entity_map.entity_to_global_entity(world_entity) {
            Some(g) => g,
            None => return false,
        };
        let public = match self.shared.global_world_manager.entity_owner(&global) {
            Some(EntityOwner::ClientPublic(_)) => true,
            _ => false,
        };
        let delegated = match self.shared.global_world_manager.entity_replication_config(&global) {
            Some(config) => match config.publicity {
                Publicity::Delegated => true,
                _ => false,
            },
            None => false,
        };
        public || delegated
    }
}

} // verus!
