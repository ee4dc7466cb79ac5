//! The update half of a connection's entity replication: which watched
//! components changed and are due to be sent, the masks each sent packet
//! carried, and the re-marking of a lost packet's changes that no later
//! packet has sent again.

use std::collections::HashMap;
use std::hash::Hash;

use vstd::prelude::*;
use vstd::std_specs::hash::obeys_key_model;

use crate::diff_mask::{
    has_bit, lemma_nand_within, lemma_or_bit, lemma_or_bounds, lemma_within_bit, lemma_within_refl, lemma_within_trans,
    mask_is_clear, mask_nand, mask_or, mask_set_bit, mask_within, zeros, DiffMask,
};
use crate::keys::ComponentKind;
use crate::kinds::KindSet;
use crate::maps::keys_of;
use crate::user_diff_handler::{ComponentMasks, UserDiffHandler};

verus! {

broadcast use vstd::std_specs::hash::group_hash_axioms;

/// The packet index `i + 1` steps after `from`, wrapping.
pub open spec fn nth_after(from: u16, i: int) -> u16 {
    ((from as int + 1 + i) % 65536) as u16
}

/// How many packet indices lie strictly between `from` and `to`, going
/// forward and wrapping.
pub open spec fn steps_between(from: u16, to: u16) -> nat {
    ((to as int - from as int - 1 + 65536) % 65536) as nat
}

/// The masks each sent packet carried, by packet index, with the time it
/// was sent.
pub type SentView<E> = Map<u16, (u64, Map<(E, ComponentKind), Seq<u8>>)>;

/// `mask` with every property that `key`'s mask marks in the first `n`
/// packets after `from` unmarked: those changes went out again later.
pub open spec fn nand_later<E>(mask: Seq<u8>, sent: SentView<E>, key: (E, ComponentKind), from: u16, n: nat) -> Seq<u8>
    decreases n,
{
    if n == 0 {
        mask
    } else {
        let prev = nand_later(mask, sent, key, from, (n - 1) as nat);
        let p = nth_after(from, n - 1);
        if sent.contains_key(p) && sent[p].1.contains_key(key) {
            mask_nand(prev, sent[p].1[key])
        } else {
            prev
        }
    }
}

/// The changes of lost packet `dropped` that `key` must send again: those
/// of its mask that no packet sent after it and before packet `last` sent.
pub open spec fn resend_mask<E>(sent: SentView<E>, dropped: u16, last: u16, key: (E, ComponentKind)) -> Seq<u8> {
    nand_later(sent[dropped].1[key], sent.remove(dropped), key, dropped, steps_between(dropped, last))
}

/// The masks after packet `dropped` is lost: each watched component the
/// lost packet updated is marked again with what it must re-send; nothing
/// is re-marked when the lost packet is the last one sent.
pub open spec fn after_cleanup<E>(
    handler: Map<(E, ComponentKind), Seq<u8>>,
    sent: SentView<E>,
    dropped: u16,
    last: u16,
) -> Map<(E, ComponentKind), Seq<u8>> {
    if !sent.contains_key(dropped) || dropped == last {
        handler
    } else {
        Map::new(
            |k: (E, ComponentKind)| handler.contains_key(k),
            |k: (E, ComponentKind)|
                if sent[dropped].1.contains_key(k) {
                    mask_or(handler[k], resend_mask(sent, dropped, last, k))
                } else {
                    handler[k]
                },
        )
    }
}

/// Whether `key` is one of the components written for `entities`: the
/// components due for each of them.
pub open spec fn is_written<E>(entities: Set<E>, next: Map<E, Seq<ComponentKind>>, key: (E, ComponentKind)) -> bool {
    entities.contains(key.0) && next.contains_key(key.0) && next[key.0].contains(key.1)
}

/// The masks after the components written for `entities` are sent: each
/// is cleared.
pub open spec fn cleared_after_write<E>(
    handler: Map<(E, ComponentKind), Seq<u8>>,
    entities: Set<E>,
    next: Map<E, Seq<ComponentKind>>,
) -> Map<(E, ComponentKind), Seq<u8>> {
    Map::new(
        |k: (E, ComponentKind)| handler.contains_key(k),
        |k: (E, ComponentKind)| if is_written(entities, next, k) { zeros(handler[k].len()) } else { handler[k] },
    )
}

/// A packet's record after the components written for `entities` are
/// added to it, each with the mask it was sent with.
pub open spec fn record_after_write<E>(
    base: Map<(E, ComponentKind), Seq<u8>>,
    handler: Map<(E, ComponentKind), Seq<u8>>,
    entities: Set<E>,
    next: Map<E, Seq<ComponentKind>>,
) -> Map<(E, ComponentKind), Seq<u8>> {
    Map::new(
        |k: (E, ComponentKind)| base.contains_key(k) || is_written(entities, next, k),
        |k: (E, ComponentKind)| if is_written(entities, next, k) { handler[k] } else { base[k] },
    )
}

/// What an update of `entity` writes: each due component, in order, with
/// its mask.
pub open spec fn update_written<E>(
    written: Seq<(ComponentKind, DiffMask)>,
    entity: E,
    kinds: Seq<ComponentKind>,
    handler: Map<(E, ComponentKind), Seq<u8>>,
) -> bool {
    &&& written.len() == kinds.len()
    &&& forall|j: int| 0 <= j < kinds.len() ==> #[trigger] written[j].0 == kinds[j]
        && written[j].1@ == handler[(entity, kinds[j])]
}

/// What an update packet writes for `entities`: for each, in order, the
/// entity and its due components with their masks.
pub open spec fn updates_written<E>(
    written: Seq<(E, Vec<(ComponentKind, DiffMask)>)>,
    entities: Seq<E>,
    next: Map<E, Seq<ComponentKind>>,
    handler: Map<(E, ComponentKind), Seq<u8>>,
) -> bool {
    &&& written.len() == entities.len()
    &&& forall|i: int| 0 <= i < entities.len() ==> #[trigger] written[i].0 == entities[i]
        && update_written(written[i].1@, entities[i], next[entities[i]], handler)
}

/// Whether component `key` is due to be sent: its channel is among the
/// `inserted` ones, it is watched and its mask marks a change.
pub open spec fn component_due<E>(inserted: Seq<(E, ComponentKind)>, handler: Map<(E, ComponentKind), Seq<u8>>, key: (E, ComponentKind)) -> bool {
    inserted.contains(key) && handler.contains_key(key) && !mask_is_clear(handler[key])
}

/// Whether a packet sent at `sent_ms` counts as lost at `now_ms`: more than
/// `drop_after_ms` passed since.
pub open spec fn update_expired(sent_ms: u64, now_ms: u64, drop_after_ms: u64) -> bool {
    now_ms >= sent_ms && now_ms - sent_ms > drop_after_ms
}

/// The sent records that are not lost at `now_ms`.
pub open spec fn unexpired_records<E>(sent: SentView<E>, now_ms: u64, drop_after_ms: u64) -> SentView<E> {
    Map::new(
        |p: u16| sent.contains_key(p) && !update_expired(sent[p].0, now_ms, drop_after_ms),
        |p: u16| sent[p],
    )
}

/// Bit `b` of byte `i` of `key`'s mask was carried by a packet lost at
/// `now_ms`.
pub open spec fn marked_by_lost<E>(sent: SentView<E>, now_ms: u64, drop_after_ms: u64, key: (E, ComponentKind), i: int, b: u8) -> bool {
    exists|p: u16|
        sent.contains_key(p) && update_expired(sent[p].0, now_ms, drop_after_ms) && sent[p].1.contains_key(key)
            && 0 <= i < sent[p].1[key].len() && #[trigger] has_bit(sent[p].1[key], i, b)
}

/// Every mask of a map holds its own marks.
proof fn lemma_within_all<E>(m: Map<(E, ComponentKind), Seq<u8>>)
    ensures
        forall|key: (E, ComponentKind)| #[trigger] m.contains_key(key) ==> mask_within(m[key], m[key]),
{
    assert forall|key: (E, ComponentKind)| #[trigger] m.contains_key(key) implies mask_within(m[key], m[key]) by {
        lemma_within_refl(m[key]);
    }
}

/// What a lost packet re-marks holds no mark its own mask did not.
pub proof fn lemma_nand_later_within<E>(mask: Seq<u8>, sent: SentView<E>, key: (E, ComponentKind), from: u16, n: nat)
    ensures
        mask_within(nand_later(mask, sent, key, from, n), mask),
    decreases n,
{
    if n == 0 {
        lemma_within_refl(mask);
    } else {
        let prev = nand_later(mask, sent, key, from, (n - 1) as nat);
        lemma_nand_later_within(mask, sent, key, from, (n - 1) as nat);
        let p = nth_after(from, n - 1);
        if sent.contains_key(p) && sent[p].1.contains_key(key) {
            lemma_nand_within(prev, sent[p].1[key]);
            lemma_within_trans(nand_later(mask, sent, key, from, n), prev, mask);
        }
    }
}

/// A mask untouched by the packets after `from` comes through unchanged.
proof fn lemma_nand_later_untouched<E>(mask: Seq<u8>, sent: SentView<E>, key: (E, ComponentKind), from: u16, n: nat)
    requires
        forall|i: int| 0 <= i < n ==> !(sent.contains_key(#[trigger] nth_after(from, i)) && sent[nth_after(from, i)].1.contains_key(key)),
    ensures
        nand_later(mask, sent, key, from, n) == mask,
    decreases n,
{
    if n > 0 {
        lemma_nand_later_untouched(mask, sent, key, from, (n - 1) as nat);
        let p = nth_after(from, n - 1);
        assert(!(sent.contains_key(p) && sent[p].1.contains_key(key)));
    }
}

/// A change sent in a lost packet is not lost: when the lost packet is not
/// the last one sent and no packet sent after it carried the component,
/// the component's mask gets back every mark the lost packet carried.
pub proof fn lemma_lost_changes_come_back<E>(
    handler: Map<(E, ComponentKind), Seq<u8>>,
    sent: SentView<E>,
    dropped: u16,
    last: u16,
    key: (E, ComponentKind),
)
    requires
        sent.contains_key(dropped),
        dropped != last,
        sent[dropped].1.contains_key(key),
        handler.contains_key(key),
        forall|i: int| 0 <= i < steps_between(dropped, last) ==> !(sent.contains_key(#[trigger] nth_after(dropped, i))
            && sent[nth_after(dropped, i)].1.contains_key(key)),
    ensures
        after_cleanup(handler, sent, dropped, last)[key] == mask_or(handler[key], sent[dropped].1[key]),
{
    let rest = sent.remove(dropped);
    assert forall|i: int| 0 <= i < steps_between(dropped, last) implies !(rest.contains_key(#[trigger] nth_after(dropped, i))
        && rest[nth_after(dropped, i)].1.contains_key(key)) by {
        assert(!(sent.contains_key(nth_after(dropped, i)) && sent[nth_after(dropped, i)].1.contains_key(key)));
    }
    lemma_nand_later_untouched(sent[dropped].1[key], rest, key, dropped, steps_between(dropped, last));
}

/// The updates of one connection.
pub struct EntityUpdates<E: Copy + Eq + Hash> {
    diff_handler: UserDiffHandler<E>,
    next_send_updates: HashMap<E, KindSet>,
    sent_updates: HashMap<u16, (u64, ComponentMasks<E>)>,
    last_update_packet_index: u16,
}

impl<E: Copy + Eq + Hash> EntityUpdates<E> {
    /// The change mask of each watched component.
    pub closed spec fn handler(&self) -> Map<(E, ComponentKind), Seq<u8>> {
        self.diff_handler.masks()
    }

    /// The components due to be sent, by entity, in the order they were
    /// found changed.
    pub closed spec fn next_updates(&self) -> Map<E, Seq<ComponentKind>> {
        self.next_send_updates@.map_values(|s: KindSet| s.order())
    }

    /// The masks each sent packet carried, with when it was sent.
    pub closed spec fn sent(&self) -> SentView<E> {
        self.sent_updates@.map_values(|r: (u64, ComponentMasks<E>)| (r.0, r.1.view_masks()))
    }

    /// The index of the last packet that carried an update.
    pub closed spec fn last_index(&self) -> u16 {
        self.last_update_packet_index
    }

    /// The entity type hashes deterministically, and no component is due
    /// twice for an entity.
    pub closed spec fn wf(&self) -> bool {
        &&& obeys_key_model::<E>()
        &&& forall|e: E| #[trigger] self.next_send_updates@.contains_key(e) ==> self.next_send_updates@[e].wf()
    }

    proof fn lemma_next_view(&self)
        ensures
            self.next_updates().dom() == self.next_send_updates@.dom(),
            forall|e: E| #[trigger] self.next_send_updates@.contains_key(e) ==> self.next_updates()[e]
                == self.next_send_updates@[e].order(),
    {
        assert(self.next_updates().dom() =~= self.next_send_updates@.dom());
    }

    proof fn lemma_sent_view(&self)
        ensures
            self.sent().dom() == self.sent_updates@.dom(),
            forall|p: u16| #[trigger] self.sent_updates@.contains_key(p) ==> self.sent()[p] == (
                self.sent_updates@[p].0,
                self.sent_updates@[p].1.view_masks(),
            ),
    {
        assert(self.sent().dom() =~= self.sent_updates@.dom());
    }

    /// Nothing watched, due or sent; the entity type must hash and compare
    /// deterministically.
    pub fn new() -> (r: Self)
        requires
            obeys_key_model::<E>(),
        ensures
            r.wf(),
            r.handler() == Map::<(E, ComponentKind), Seq<u8>>::empty(),
            r.next_updates() == Map::<E, Seq<ComponentKind>>::empty(),
            r.sent() == SentView::<E>::empty(),
            r.last_index() == 0,
    {
        let r = EntityUpdates {
            diff_handler: UserDiffHandler::new(),
            next_send_updates: HashMap::new(),
            sent_updates: HashMap::new(),
            last_update_packet_index: 0,
        };
        proof {
            assert(r.next_updates() =~= Map::<E, Seq<ComponentKind>>::empty());
            assert(r.sent() =~= SentView::<E>::empty());
        }
        r
    }

    /// Starts watching component `kind` of `entity` (its component channel
    /// opened), with a clear mask of `diff_mask_length` bytes.
    pub fn register_component(&mut self, entity: &E, kind: &ComponentKind, diff_mask_length: u8)
        requires
            old(self).wf(),
        ensures
            final(self).wf(),
            final(self).handler() == if old(self).handler().contains_key((*entity, *kind)) {
                old(self).handler()
            } else {
                old(self).handler().insert((*entity, *kind), zeros(diff_mask_length as nat))
            },
            final(self).next_updates() == old(self).next_updates(),
            final(self).sent() == old(self).sent(),
            final(self).last_index() == old(self).last_index(),
    {
        self.diff_handler.register_component(entity, kind, diff_mask_length);
    }

    /// Stops watching component `kind` of `entity` (its component channel
    /// is closing).
    pub fn deregister_component(&mut self, entity: &E, kind: &ComponentKind)
        requires
            old(self).wf(),
        ensures
            final(self).wf(),
            final(self).handler() == old(self).handler().remove((*entity, *kind)),
            final(self).next_updates() == old(self).next_updates(),
            final(self).sent() == old(self).sent(),
            final(self).last_index() == old(self).last_index(),
    {
        self.diff_handler.deregister_component(entity, kind);
    }

    /// Property `index` of component `kind` of `entity` changed.
    pub fn mutate(&mut self, entity: &E, kind: &ComponentKind, index: u8)
        requires
            old(self).wf(),
        ensures
            final(self).wf(),
            final(self).handler() == if old(self).handler().contains_key((*entity, *kind)) {
                old(self).handler().insert(
                    (*entity, *kind),
                    mask_set_bit(old(self).handler()[(*entity, *kind)], index, true),
                )
            } else {
                old(self).handler()
            },
            final(self).next_updates() == old(self).next_updates(),
            final(self).sent() == old(self).sent(),
            final(self).last_index() == old(self).last_index(),
    {
        self.diff_handler.mutate(entity, kind, index);
    }

    /// The change mask of component `kind` of `entity`, if watched.
    pub fn diff_mask(&self, entity: &E, kind: &ComponentKind) -> (r: Option<&DiffMask>)
        requires
            self.wf(),
        ensures
            r is Some == self.handler().contains_key((*entity, *kind)),
            r is Some ==> r->0@ == self.handler()[(*entity, *kind)],
    {
        self.diff_handler.diff_mask(entity, kind)
    }

    /// Whether any update is due.
    pub fn has_outgoing_updates(&self) -> (r: bool)
        requires
            self.wf(),
        ensures
            r == (self.next_updates().dom().len() > 0),
    {
        proof {
            self.lemma_next_view();
            assert(self.next_send_updates@.dom().finite());
        }
        self.next_send_updates.len() > 0
    }

    /// Packet `packet_index` was delivered: its record is dropped.
    pub fn notify_update_delivered(&mut self, packet_index: u16)
        requires
            old(self).wf(),
        ensures
            final(self).wf(),
            final(self).sent() == old(self).sent().remove(packet_index),
            final(self).handler() == old(self).handler(),
            final(self).next_updates() == old(self).next_updates(),
            final(self).last_index() == old(self).last_index(),
    {
        self.sent_updates.remove(&packet_index);
        proof {
            assert(self.sent() =~= old(self).sent().remove(packet_index));
        }
    }

    /// The entities with updates due, each once, in no particular order:
    /// the order an update packet is filled in.
    pub fn update_entities(&self) -> (r: Vec<E>)
        requires
            self.wf(),
        ensures
            r@.to_set() == self.next_updates().dom(),
            r@.no_duplicates(),
    {
        proof {
            self.lemma_next_view();
        }
        keys_of(&self.next_send_updates)
    }

    /// Writes the update of `entity` into packet `packet_index`: takes its
    /// due components, records each one's mask in the packet's record,
    /// clears the mask, and hands back the components with the masks to
    /// write.
    pub fn write_update(&mut self, packet_index: u16, entity: &E) -> (r: Vec<(ComponentKind, DiffMask)>)
        requires
            old(self).wf(),
            old(self).next_updates().contains_key(*entity),
            old(self).sent().contains_key(packet_index),
            forall|k: ComponentKind| old(self).next_updates()[*entity].contains(k)
                ==> #[trigger] old(self).handler().contains_key((*entity, k)),
        ensures
            final(self).wf(),
            update_written(r@, *entity, old(self).next_updates()[*entity], old(self).handler()),
            final(self).next_updates() == old(self).next_updates().remove(*entity),
            final(self).handler() == cleared_after_write(old(self).handler(), set![*entity], old(self).next_updates()),
            final(self).sent() == old(self).sent().insert(packet_index, (
                old(self).sent()[packet_index].0,
                record_after_write(old(self).sent()[packet_index].1, old(self).handler(), set![*entity],
                    old(self).next_updates()),
            )),
            final(self).last_index() == if old(self).next_updates()[*entity].len() > 0 {
                packet_index
            } else {
                old(self).last_index()
            },
    {
        proof {
            self.lemma_next_view();
            self.lemma_sent_view();
        }
        let ghost handler0 = old(self).handler();
        let ghost next0 = old(self).next_updates();
        let ghost sent0 = old(self).sent();
        let kinds_set = self.next_send_updates.remove(entity).unwrap();
        let kinds = kinds_set.to_vec();
        let (time_sent, mut record) = self.sent_updates.remove(&packet_index).unwrap();
        proof {
            assert(kinds@ == next0[*entity]);
            kinds_set.lemma_order_unique();
            assert(kinds@.no_duplicates());
            assert(record.view_masks() == sent0[packet_index].1);
        }
        let ghost base = record.view_masks();
        let ghost ents = set![*entity];
        let mut out: Vec<(ComponentKind, DiffMask)> = Vec::new();
        let mut j: usize = 0;
        while j < kinds.len()
            invariant
                self.wf(),
                obeys_key_model::<E>(),
                j <= kinds@.len(),
                kinds@ == next0[*entity],
                kinds@.no_duplicates(),
                ents == set![*entity],
                next0.contains_key(*entity),
                forall|k: ComponentKind| next0[*entity].contains(k) ==> #[trigger] handler0.contains_key((*entity, k)),
                out@.len() == j,
                forall|x: int| 0 <= x < j ==> #[trigger] out@[x].0 == kinds@[x]
                    && out@[x].1@ == handler0[(*entity, kinds@[x])],
                self.handler().dom() == handler0.dom(),
                forall|key: (E, ComponentKind)| #[trigger] self.handler().contains_key(key) ==> self.handler()[key] == (
                    if key.0 == *entity && kinds@.take(j as int).contains(key.1) {
                        zeros(handler0[key].len())
                    } else {
                        handler0[key]
                    }),
                record.view_masks().dom() == base.dom().union(
                    Set::new(|key: (E, ComponentKind)| key.0 == *entity && kinds@.take(j as int).contains(key.1))),
                forall|key: (E, ComponentKind)| #[trigger] record.view_masks().contains_key(key) ==> record.view_masks()[key] == (
                    if key.0 == *entity && kinds@.take(j as int).contains(key.1) {
                        handler0[key]
                    } else {
                        base[key]
                    }),
                j > 0 ==> self.last_update_packet_index == packet_index,
                j == 0 ==> self.last_update_packet_index == old(self).last_index(),
                self.next_send_updates@ == old(self).next_send_updates@.remove(*entity),
                self.sent_updates@ == old(self).sent_updates@.remove(packet_index),
            decreases kinds@.len() - j,
        {
            let k = kinds[j];
            proof {
                assert(kinds@.contains(k));
                assert(handler0.contains_key((*entity, k)));
                assert(!kinds@.take(j as int).contains(k)) by {
                    let t0 = kinds@.take(j as int);
                    if t0.contains(k) {
                        let x = choose|x: int| 0 <= x < t0.len() && #[trigger] t0[x] == k;
                        assert(kinds@[x] == kinds@[j as int]);
                    }
                }
                assert(kinds@.take(j + 1) =~= kinds@.take(j as int).push(k));
            }
            let mask = self.diff_handler.diff_mask(entity, &k).unwrap().duplicate();
            let sent_copy = mask.duplicate();
            record.insert(*entity, k, sent_copy);
            self.last_update_packet_index = packet_index;
            self.diff_handler.clear_diff_mask(entity, &k);
            out.push((k, mask));
            j += 1;
            proof {
                let t1 = kinds@.take(j as int);
                assert forall|c: ComponentKind| t1.contains(c) <==> (kinds@.take(j - 1).contains(c) || c == k) by {
                    if t1.contains(c) {
                        let x = choose|x: int| 0 <= x < t1.len() && #[trigger] t1[x] == c;
                        if x < j - 1 {
                            assert(kinds@.take(j - 1)[x] == c);
                        }
                    }
                    if kinds@.take(j - 1).contains(c) {
                        let x = choose|x: int| 0 <= x < j - 1 && #[trigger] kinds@.take(j - 1)[x] == c;
                        assert(t1[x] == c);
                    }
                    if c == k {
                        assert(t1[j - 1] == c);
                    }
                }
                assert(record.view_masks().dom() =~= base.dom().union(
                    Set::new(|key: (E, ComponentKind)| key.0 == *entity && kinds@.take(j as int).contains(key.1))));
            }
        }
        self.sent_updates.insert(packet_index, (time_sent, record));
        proof {
            assert(kinds@.take(kinds@.len() as int) =~= kinds@);
            assert forall|key: (E, ComponentKind)| is_written(ents, next0, key)
                <==> (key.0 == *entity && kinds@.contains(key.1)) by {}
            assert(self.next_updates() =~= next0.remove(*entity));
            assert(self.handler() =~= cleared_after_write(handler0, ents, next0));
            assert(record.view_masks() =~= record_after_write(base, handler0, ents, next0));
            assert(self.sent() =~= sent0.insert(packet_index, (sent0[packet_index].0,
                record_after_write(base, handler0, ents, next0))));
        }
        out
    }

    /// Writes the updates of `entities`, in order, into packet
    /// `packet_index` (whose record is made, stamped `now_ms`, if it has
    /// none yet), and hands back what to write for each: the entity and its
    /// due components with the masks sent.
    pub fn write_updates(&mut self, now_ms: u64, packet_index: u16, entities: &Vec<E>) -> (r: Vec<(E, Vec<(ComponentKind, DiffMask)>)>)
        requires
            old(self).wf(),
            entities@.no_duplicates(),
            forall|x: E| #[trigger] entities@.contains(x) ==> old(self).next_updates().contains_key(x),
            forall|x: E, k: ComponentKind| #[trigger] entities@.contains(x) && old(self).next_updates()[x].contains(k)
                ==> #[trigger] old(self).handler().contains_key((x, k)),
        ensures
            final(self).wf(),
            updates_written(r@, entities@, old(self).next_updates(), old(self).handler()),
            final(self).next_updates() == old(self).next_updates().remove_keys(entities@.to_set()),
            final(self).handler() == cleared_after_write(old(self).handler(), entities@.to_set(), old(self).next_updates()),
            final(self).sent() == old(self).sent().insert(packet_index, (
                if old(self).sent().contains_key(packet_index) { old(self).sent()[packet_index].0 } else { now_ms },
                record_after_write(
                    if old(self).sent().contains_key(packet_index) {
                        old(self).sent()[packet_index].1
                    } else {
                        Map::empty()
                    },
                    old(self).handler(),
                    entities@.to_set(),
                    old(self).next_updates(),
                ),
            )),
            final(self).last_index() == if exists|i: int| 0 <= i < entities@.len()
                && #[trigger] old(self).next_updates()[entities@[i]].len() > 0 {
                packet_index
            } else {
                old(self).last_index()
            },
    {
        let ghost handler0 = old(self).handler();
        let ghost next0 = old(self).next_updates();
        let ghost sent0 = old(self).sent();
        if !self.sent_updates.contains_key(&packet_index) {
            self.sent_updates.insert(packet_index, (now_ms, ComponentMasks::new()));
        }
        proof {
            self.lemma_sent_view();
        }
        let ghost t0 = self.sent()[packet_index].0;
        let ghost base0 = self.sent()[packet_index].1;
        proof {
            assert(t0 == if sent0.contains_key(packet_index) { sent0[packet_index].0 } else { now_ms });
            assert(base0 == if sent0.contains_key(packet_index) { sent0[packet_index].1 } else { Map::empty() });
            assert(self.sent() =~= sent0.insert(packet_index, (t0, base0)));
            assert(next0.remove_keys(entities@.take(0).to_set()) =~= next0);
            assert(cleared_after_write(handler0, entities@.take(0).to_set(), next0) =~= handler0);
            assert(record_after_write(base0, handler0, entities@.take(0).to_set(), next0) =~= base0);
        }
        let mut out: Vec<(E, Vec<(ComponentKind, DiffMask)>)> = Vec::new();
        let mut i: usize = 0;
        while i < entities.len()
            invariant
                self.wf(),
                i <= entities@.len(),
                entities@.no_duplicates(),
                forall|x: E| #[trigger] entities@.contains(x) ==> next0.contains_key(x),
                forall|x: E, k: ComponentKind| #[trigger] entities@.contains(x) && next0[x].contains(k)
                    ==> #[trigger] handler0.contains_key((x, k)),
                out@.len() == i,
                forall|x: int| 0 <= x < i ==> #[trigger] out@[x].0 == entities@[x]
                    && update_written(out@[x].1@, entities@[x], next0[entities@[x]], handler0),
                self.next_updates() == next0.remove_keys(entities@.take(i as int).to_set()),
                self.handler() == cleared_after_write(handler0, entities@.take(i as int).to_set(), next0),
                self.sent() == sent0.insert(packet_index, (t0,
                    record_after_write(base0, handler0, entities@.take(i as int).to_set(), next0))),
                self.last_index() == if exists|x: int| 0 <= x < i && #[trigger] next0[entities@[x]].len() > 0 {
                    packet_index
                } else {
                    old(self).last_index()
                },
            decreases entities@.len() - i,
        {
            let e = entities[i];
            let ghost done = entities@.take(i as int).to_set();
            let ghost done1 = entities@.take(i + 1).to_set();
            let ghost h_i = self.handler();
            let ghost n_i = self.next_updates();
            proof {
                assert(entities@.contains(e));
                assert(!done.contains(e)) by {
                    if done.contains(e) {
                        let t = entities@.take(i as int);
                        assert(t.contains(e));
                        let x = choose|x: int| 0 <= x < t.len() && #[trigger] t[x] == e;
                        assert(entities@[x] == entities@[i as int]);
                    }
                }
                assert(entities@.take(i + 1) =~= entities@.take(i as int).push(e));
                entities@.take(i as int).lemma_push_to_set_commute(e);
                assert(done1 =~= done.insert(e));
                assert(n_i.contains_key(e));
                assert(n_i[e] == next0[e]);
                assert forall|k: ComponentKind| n_i[e].contains(k) implies #[trigger] h_i.contains_key((e, k)) by {
                    assert(handler0.contains_key((e, k)));
                }
            }
            let written = self.write_update(packet_index, &e);
            out.push((e, written));
            i += 1;
            proof {
                assert forall|key: (E, ComponentKind)| key.0 == e && h_i.contains_key(key) implies h_i[key] == handler0[key]
                by {
                    assert(!is_written(done, next0, key));
                }
                assert forall|j: int| 0 <= j < next0[e].len() implies #[trigger] written@[j].0 == next0[e][j]
                    && written@[j].1@ == handler0[(e, next0[e][j])] by {
                    let key = (e, next0[e][j]);
                    assert(next0[e].contains(next0[e][j]));
                    assert(handler0.contains_key(key));
                    assert(h_i.contains_key(key));
                    assert(!is_written(done, next0, key));
                }
                assert(update_written(written@, e, next0[e], handler0));
                assert(self.next_updates() =~= next0.remove_keys(done1));
                assert(self.handler() =~= cleared_after_write(handler0, done1, next0));
                assert(record_after_write(record_after_write(base0, handler0, done, next0), h_i, set![e], n_i)
                    =~= record_after_write(base0, handler0, done1, next0));
                assert(self.sent() =~= sent0.insert(packet_index, (t0, record_after_write(base0, handler0, done1, next0))));
                if next0[e].len() > 0 {
                    assert(next0[entities@[(i - 1) as int]].len() > 0);
                } else {
                    assert forall|x: int| 0 <= x < i && #[trigger] next0[entities@[x]].len() > 0 implies x < i - 1 by {}
                }
            }
        }
        proof {
            assert(entities@.take(entities@.len() as int) =~= entities@);
            assert(next0 == old(self).next_updates());
            assert(handler0 == old(self).handler());
            assert(updates_written(out@, entities@, next0, handler0));
        }
        out
    }

    /// Finds the updates due: of the components whose channel is among
    /// `inserted`, each watched one whose mask marks a change, grouped by
    /// entity. What was due before is replaced.
    pub fn collect_component_updates(&mut self, inserted: &Vec<(E, ComponentKind)>)
        requires
            old(self).wf(),
        ensures
            final(self).wf(),
            forall|e: E| #[trigger] final(self).next_updates().contains_key(e)
                <==> exists|k: ComponentKind| #[trigger] component_due(inserted@, old(self).handler(), (e, k)),
            forall|e: E, k: ComponentKind|
                #![trigger final(self).next_updates()[e].contains(k)]
                #![trigger final(self).next_updates().contains_key(e), component_due(inserted@, old(self).handler(), (e, k))]
                final(self).next_updates().contains_key(e)
                ==> (final(self).next_updates()[e].contains(k) <==> component_due(inserted@, old(self).handler(), (e, k))),
            final(self).handler() == old(self).handler(),
            final(self).sent() == old(self).sent(),
            final(self).last_index() == old(self).last_index(),
    {
        self.next_send_updates = HashMap::new();
        proof {
            assert(self.next_updates() =~= Map::<E, Seq<ComponentKind>>::empty());
        }
        let ghost empty = self.next_updates();
        let ghost h_call = self.handler();
        assert(h_call == old(self).handler());
        self.add_component_updates(inserted);
        proof {
            assert forall|e: E| #[trigger] self.next_updates().contains_key(e)
                <==> exists|k: ComponentKind| #[trigger] component_due(inserted@, old(self).handler(), (e, k)) by {
                assert(!empty.contains_key(e));
                if self.next_updates().contains_key(e) {
                    let k = choose|k: ComponentKind| #[trigger] component_due(inserted@, h_call, (e, k));
                    assert(component_due(inserted@, old(self).handler(), (e, k)));
                }
            }
        }
    }

    /// Adds the updates due to those already due: of the components whose
    /// channel is among `inserted`, each watched one whose mask marks a
    /// change.
    pub fn add_component_updates(&mut self, inserted: &Vec<(E, ComponentKind)>)
        requires
            old(self).wf(),
        ensures
            final(self).wf(),
            forall|e: E| #[trigger] final(self).next_updates().contains_key(e)
                <==> (old(self).next_updates().contains_key(e)
                    || exists|k: ComponentKind| #[trigger] component_due(inserted@, old(self).handler(), (e, k))),
            forall|e: E, k: ComponentKind|
                #![trigger final(self).next_updates()[e].contains(k)]
                #![trigger final(self).next_updates().contains_key(e), component_due(inserted@, old(self).handler(), (e, k))]
                final(self).next_updates().contains_key(e)
                ==> (final(self).next_updates()[e].contains(k) <==> (
                    (old(self).next_updates().contains_key(e) && old(self).next_updates()[e].contains(k))
                    || component_due(inserted@, old(self).handler(), (e, k)))),
            final(self).handler() == old(self).handler(),
            final(self).sent() == old(self).sent(),
            final(self).last_index() == old(self).last_index(),
    {
        proof {
            self.lemma_next_view();
        }
        let ghost handler0 = self.handler();
        let ghost next0 = self.next_updates();
        let ghost map0 = self.next_send_updates@;
        let mut i: usize = 0;
        while i < inserted.len()
            invariant
                self.wf(),
                self.handler() == handler0,
                self.sent() == old(self).sent(),
                self.last_index() == old(self).last_index(),
                i <= inserted@.len(),
                forall|e: E| #[trigger] map0.contains_key(e) ==> map0[e].wf(),
                forall|e: E| #[trigger] self.next_send_updates@.contains_key(e) <==> (map0.contains_key(e)
                    || exists|k: ComponentKind| #[trigger] component_due(inserted@.take(i as int), handler0, (e, k))),
                forall|e: E, k: ComponentKind|
                    #![trigger self.next_send_updates@[e]@.contains(k)]
                    #![trigger self.next_send_updates@.contains_key(e), component_due(inserted@.take(i as int), handler0, (e, k))]
                    self.next_send_updates@.contains_key(e)
                    ==> (self.next_send_updates@[e]@.contains(k) <==> (
                        (map0.contains_key(e) && map0[e]@.contains(k))
                        || component_due(inserted@.take(i as int), handler0, (e, k)))),
            decreases inserted@.len() - i,
        {
            let (e, k) = inserted[i];
            let ghost next_before = self.next_send_updates@;
            let ghost t0 = inserted@.take(i as int);
            let ghost t1 = inserted@.take(i + 1);
            proof {
                assert(t1 =~= t0.push((e, k)));
                assert forall|p: (E, ComponentKind)| t1.contains(p) <==> (t0.contains(p) || p == (e, k)) by {
                    if t1.contains(p) {
                        let x = choose|x: int| 0 <= x < t1.len() && #[trigger] t1[x] == p;
                        if x < i {
                            assert(t0[x] == p);
                        }
                    }
                    if t0.contains(p) {
                        let x = choose|x: int| 0 <= x < t0.len() && #[trigger] t0[x] == p;
                        assert(t1[x] == p);
                    }
                    if p == (e, k) {
                        assert(t1[i as int] == p);
                    }
                }
            }
            let changed = match self.diff_handler.diff_mask_is_clear(&e, &k) {
                Some(clear) => !clear,
                None => false,
            };
            if changed {
                let mut set = match self.next_send_updates.remove(&e) {
                    Some(set) => set,
                    None => KindSet::new(),
                };
                set.insert(k);
                self.next_send_updates.insert(e, set);
                proof {
                    assert(component_due(t1, handler0, (e, k)));
                    assert forall|x: E| #[trigger] self.next_send_updates@.contains_key(x) <==> (map0.contains_key(x)
                        || exists|c: ComponentKind| #[trigger] component_due(t1, handler0, (x, c))) by {
                        if next_before.contains_key(x) && !map0.contains_key(x) {
                            let c = choose|c: ComponentKind| #[trigger] component_due(t0, handler0, (x, c));
                            assert(component_due(t1, handler0, (x, c)));
                        }
                        if exists|c: ComponentKind| #[trigger] component_due(t1, handler0, (x, c)) {
                            let c = choose|c: ComponentKind| #[trigger] component_due(t1, handler0, (x, c));
                            if x != e {
                                assert(component_due(t0, handler0, (x, c)));
                            }
                        }
                    }
                    assert forall|x: E, c: ComponentKind| self.next_send_updates@.contains_key(x)
                        implies (#[trigger] self.next_send_updates@[x]@.contains(c) <==> (
                            (map0.contains_key(x) && map0[x]@.contains(c)) || component_due(t1, handler0, (x, c)))) by {
                        assert(component_due(t1, handler0, (x, c)) == (component_due(t0, handler0, (x, c)) || (x, c) == (e, k)));
                        if x == e {
                            if next_before.contains_key(e) {
                                assert(self.next_send_updates@[e]@ == next_before[e]@.insert(k));
                            } else {
                                assert(self.next_send_updates@[e]@ == Set::<ComponentKind>::empty().insert(k));
                                if component_due(t0, handler0, (e, c)) {
                                    assert(next_before.contains_key(e));
                                }
                                if map0.contains_key(e) {
                                    assert(next_before.contains_key(e));
                                }
                            }
                        } else {
                            assert(self.next_send_updates@[x] == next_before[x]);
                        }
                    }
                }
            } else {
                proof {
                    assert(!component_due(t1, handler0, (e, k)));
                    assert forall|x: E| #[trigger] self.next_send_updates@.contains_key(x) <==> (map0.contains_key(x)
                        || exists|c: ComponentKind| #[trigger] component_due(t1, handler0, (x, c))) by {
                        if next_before.contains_key(x) && !map0.contains_key(x) {
                            let c = choose|c: ComponentKind| #[trigger] component_due(t0, handler0, (x, c));
                            assert(component_due(t1, handler0, (x, c)));
                        }
                        if exists|c: ComponentKind| #[trigger] component_due(t1, handler0, (x, c)) {
                            let c = choose|c: ComponentKind| #[trigger] component_due(t1, handler0, (x, c));
                            assert(component_due(t0, handler0, (x, c)));
                        }
                    }
                    assert forall|x: E, c: ComponentKind| self.next_send_updates@.contains_key(x)
                        implies (#[trigger] self.next_send_updates@[x]@.contains(c) <==> (
                            (map0.contains_key(x) && map0[x]@.contains(c)) || component_due(t1, handler0, (x, c)))) by {
                        assert(component_due(t1, handler0, (x, c)) == component_due(t0, handler0, (x, c)));
                    }
                }
            }
            i += 1;
        }
        proof {
            assert(inserted@.take(inserted@.len() as int) =~= inserted@);
            self.lemma_next_view();
            assert forall|e: E, k: ComponentKind| self.next_updates().contains_key(e)
                implies (#[trigger] self.next_updates()[e].contains(k) <==> (
                    (next0.contains_key(e) && next0[e].contains(k)) || component_due(inserted@, handler0, (e, k)))) by {
                self.next_send_updates@[e].lemma_order_matches();
                assert(self.next_updates()[e].contains(k) == self.next_send_updates@[e]@.contains(k));
                if map0.contains_key(e) {
                    map0[e].lemma_order_matches();
                    assert(next0[e] == map0[e].order());
                    assert(next0[e].contains(k) == map0[e]@.contains(k));
                }
            }
        }
    }

    /// Every sent packet lost at `now_ms` (sent more than `drop_after_ms`
    /// before) is cleaned up as [`Self::dropped_update_cleanup`] does, in no
    /// particular order. Whatever the order, the lost records are dropped,
    /// no mark is lost, and every new mark was carried by a lost packet.
    pub fn collect_dropped_update_packets(&mut self, now_ms: u64, drop_after_ms: u64)
        requires
            old(self).wf(),
        ensures
            final(self).wf(),
            final(self).sent() == unexpired_records(old(self).sent(), now_ms, drop_after_ms),
            final(self).handler().dom() == old(self).handler().dom(),
            forall|key: (E, ComponentKind)| #[trigger] old(self).handler().contains_key(key)
                ==> mask_within(old(self).handler()[key], final(self).handler()[key]),
            forall|key: (E, ComponentKind), i: int, b: u8|
                old(self).handler().contains_key(key) && 0 <= i < final(self).handler()[key].len() && b < 8
                && #[trigger] has_bit(final(self).handler()[key], i, b)
                ==> has_bit(old(self).handler()[key], i, b) || marked_by_lost(old(self).sent(), now_ms, drop_after_ms, key, i, b),
            final(self).next_updates() == old(self).next_updates(),
            final(self).last_index() == old(self).last_index(),
    {
        let ghost handler0 = old(self).handler();
        let ghost sent0 = old(self).sent();
        proof {
            self.lemma_sent_view();
        }
        let packets = keys_of(&self.sent_updates);
        let mut dropped: Vec<u16> = Vec::new();
        let mut i: usize = 0;
        while i < packets.len()
            invariant
                self.wf(),
                self.sent() == sent0,
                sent0.dom() == self.sent_updates@.dom(),
                forall|p: u16| #[trigger] self.sent_updates@.contains_key(p) ==> self.sent()[p] == (
                    self.sent_updates@[p].0,
                    self.sent_updates@[p].1.view_masks(),
                ),
                packets@.to_set() == sent0.dom(),
                packets@.no_duplicates(),
                i <= packets@.len(),
                dropped@.no_duplicates(),
                forall|p: u16| #[trigger] dropped@.contains(p) <==> (packets@.take(i as int).contains(p)
                    && update_expired(sent0[p].0, now_ms, drop_after_ms)),
            decreases packets@.len() - i,
        {
            let p = packets[i];
            proof {
                assert(packets@.contains(p));
                assert(packets@.take(i + 1) =~= packets@.take(i as int).push(p));
                assert(!packets@.take(i as int).contains(p)) by {
                    let t0 = packets@.take(i as int);
                    if t0.contains(p) {
                        let x = choose|x: int| 0 <= x < t0.len() && #[trigger] t0[x] == p;
                        assert(packets@[x] == packets@[i as int]);
                    }
                }
                assert forall|q: u16| packets@.take(i + 1).contains(q) <==> (packets@.take(i as int).contains(q) || q == p) by {
                    let t0 = packets@.take(i as int);
                    let t1 = packets@.take(i + 1);
                    if t1.contains(q) {
                        let x = choose|x: int| 0 <= x < t1.len() && #[trigger] t1[x] == q;
                        if x < i {
                            assert(t0[x] == q);
                        }
                    }
                    if t0.contains(q) {
                        let x = choose|x: int| 0 <= x < t0.len() && #[trigger] t0[x] == q;
                        assert(t1[x] == q);
                    }
                    if q == p {
                        assert(t1[i as int] == q);
                    }
                }
            }
            let sent_ms = self.sent_updates.get(&p).unwrap().0;
            let ghost dropped_before = dropped@;
            proof {
                assert(sent_ms == sent0[p].0);
            }
            if now_ms >= sent_ms && now_ms - sent_ms > drop_after_ms {
                proof {
                    assert(!dropped@.contains(p));
                }
                dropped.push(p);
                proof {
                    assert forall|q: u16| #[trigger] dropped@.contains(q) <==> (dropped_before.contains(q) || q == p) by {
                        if dropped@.contains(q) {
                            let x = choose|x: int| 0 <= x < dropped@.len() && #[trigger] dropped@[x] == q;
                            if x < dropped_before.len() {
                                assert(dropped_before[x] == q);
                            }
                        }
                        if dropped_before.contains(q) {
                            let x = choose|x: int| 0 <= x < dropped_before.len() && #[trigger] dropped_before[x] == q;
                            assert(dropped@[x] == q);
                        }
                        if q == p {
                            assert(dropped@[dropped_before.len() as int] == q);
                        }
                    }
                }
            }
            i += 1;
        }
        proof {
            assert(packets@.take(packets@.len() as int) =~= packets@);
            lemma_within_all(handler0);
        }
        let mut j: usize = 0;
        while j < dropped.len()
            invariant
                self.wf(),
                j <= dropped@.len(),
                dropped@.no_duplicates(),
                forall|p: u16| #[trigger] dropped@.contains(p) <==> (sent0.contains_key(p)
                    && update_expired(sent0[p].0, now_ms, drop_after_ms)),
                self.sent() == Map::new(
                    |p: u16| sent0.contains_key(p) && !dropped@.take(j as int).contains(p),
                    |p: u16| sent0[p],
                ),
                self.handler().dom() == handler0.dom(),
                forall|key: (E, ComponentKind)| #[trigger] handler0.contains_key(key)
                    ==> mask_within(handler0[key], self.handler()[key]),
                forall|key: (E, ComponentKind), x: int, b: u8|
                    handler0.contains_key(key) && 0 <= x < self.handler()[key].len() && b < 8
                    && #[trigger] has_bit(self.handler()[key], x, b)
                    ==> has_bit(handler0[key], x, b) || marked_by_lost(sent0, now_ms, drop_after_ms, key, x, b),
                self.next_updates() == old(self).next_updates(),
                self.last_index() == old(self).last_index(),
            decreases dropped@.len() - j,
        {
            let d = dropped[j];
            let ghost h_j = self.handler();
            let ghost s_j = self.sent();
            proof {
                assert(dropped@.contains(d));
                assert(!dropped@.take(j as int).contains(d)) by {
                    let t0 = dropped@.take(j as int);
                    if t0.contains(d) {
                        let x = choose|x: int| 0 <= x < t0.len() && #[trigger] t0[x] == d;
                        assert(dropped@[x] == dropped@[j as int]);
                    }
                }
                assert(s_j.contains_key(d));
                assert(s_j[d] == sent0[d]);
            }
            self.dropped_update_cleanup(d);
            j += 1;
            proof {
                let t0 = dropped@.take(j - 1);
                let t1 = dropped@.take(j as int);
                assert forall|q: u16| t1.contains(q) <==> (t0.contains(q) || q == d) by {
                    if t1.contains(q) {
                        let x = choose|x: int| 0 <= x < t1.len() && #[trigger] t1[x] == q;
                        if x < j - 1 {
                            assert(t0[x] == q);
                        }
                    }
                    if t0.contains(q) {
                        let x = choose|x: int| 0 <= x < t0.len() && #[trigger] t0[x] == q;
                        assert(t1[x] == q);
                    }
                    if q == d {
                        assert(t1[j - 1] == q);
                    }
                }
                assert(self.sent() =~= Map::new(
                    |p: u16| sent0.contains_key(p) && !dropped@.take(j as int).contains(p),
                    |p: u16| sent0[p],
                ));
                let last = self.last_index();
                let h = self.handler();
                if s_j.contains_key(d) && d != last {
                    assert forall|key: (E, ComponentKind)| #[trigger] handler0.contains_key(key)
                        implies mask_within(handler0[key], h[key]) by {
                        if sent0[d].1.contains_key(key) {
                            let r = resend_mask(s_j, d, last, key);
                            if h_j[key].len() == r.len() {
                                lemma_or_bounds(h_j[key], r);
                                lemma_within_trans(handler0[key], h_j[key], h[key]);
                            }
                        }
                    }
                    assert forall|key: (E, ComponentKind), x: int, b: u8|
                        handler0.contains_key(key) && 0 <= x < h[key].len() && b < 8
                        && #[trigger] has_bit(h[key], x, b)
                        implies has_bit(handler0[key], x, b) || marked_by_lost(sent0, now_ms, drop_after_ms, key, x, b) by {
                        if sent0[d].1.contains_key(key) {
                            let r = resend_mask(s_j, d, last, key);
                            if h_j[key].len() == r.len() {
                                lemma_or_bit(h_j[key], r, x, b);
                                if has_bit(r, x, b) {
                                    lemma_nand_later_within(s_j[d].1[key], s_j.remove(d), key, d, steps_between(d, last));
                                    lemma_within_bit(r, sent0[d].1[key], x, b);
                                    assert(has_bit(sent0[d].1[key], x, b));
                                }
                            }
                        }
                    }
                }
            }
        }
        proof {
            assert(dropped@.take(dropped@.len() as int) =~= dropped@);
            assert forall|p: u16| dropped@.contains(p) <==> (sent0.contains_key(p) && update_expired(sent0[p].0, now_ms, drop_after_ms)) by {}
            assert(self.sent() =~= unexpired_records(sent0, now_ms, drop_after_ms));
        }
    }

    /// Packet `dropped` was lost: its record is dropped, and each watched
    /// component it updated is marked again with the changes of its mask
    /// that no packet sent after it (and before the last one) carried.
    pub fn dropped_update_cleanup(&mut self, dropped: u16)
        requires
            old(self).wf(),
        ensures
            final(self).wf(),
            final(self).sent() == old(self).sent().remove(dropped),
            final(self).handler() == after_cleanup(old(self).handler(), old(self).sent(), dropped, old(self).last_index()),
            final(self).next_updates() == old(self).next_updates(),
            final(self).last_index() == old(self).last_index(),
    {
        proof {
            self.lemma_sent_view();
        }
        let removed = self.sent_updates.remove(&dropped);
        proof {
            assert(self.sent() =~= old(self).sent().remove(dropped));
        }
        match removed {
            None => {
                proof {
                    assert(!old(self).sent().contains_key(dropped));
                }
            },
            Some((_, record)) => {
                let last = self.last_update_packet_index;
                if dropped == last {
                    return;
                }
                let ghost handler0 = old(self).handler();
                let ghost sent0 = old(self).sent();
                let ghost rec = record.view_masks();
                proof {
                    assert(sent0.contains_key(dropped));
                    assert(sent0[dropped].1 == rec);
                }
                let keys = record.keys();
                let mut i: usize = 0;
                while i < keys.len()
                    invariant
                        self.wf(),
                        i <= keys@.len(),
                        keys@.to_set() == rec.dom(),
                        keys@.no_duplicates(),
                        rec == record.view_masks(),
                        sent0.contains_key(dropped),
                        dropped != last,
                        last == self.last_update_packet_index,
                        last == old(self).last_index(),
                        sent0 == old(self).sent(),
                        rec == sent0[dropped].1,
                        handler0 == old(self).handler(),
                        self.sent() == sent0.remove(dropped),
                        self.next_updates() == old(self).next_updates(),
                        self.handler().dom() == handler0.dom(),
                        forall|k: (E, ComponentKind)| #[trigger] self.handler().contains_key(k) ==> self.handler()[k] == (
                            if keys@.take(i as int).contains(k) {
                                mask_or(handler0[k], resend_mask(sent0, dropped, last, k))
                            } else {
                                handler0[k]
                            }),
                    decreases keys@.len() - i,
                {
                    let (e, k) = keys[i];
                    let ghost key = (e, k);
                    proof {
                        assert(keys@.contains(key));
                        assert(rec.contains_key(key));
                        assert(!keys@.take(i as int).contains(key)) by {
                            let t0 = keys@.take(i as int);
                            if t0.contains(key) {
                                let j = choose|j: int| 0 <= j < t0.len() && #[trigger] t0[j] == key;
                                assert(keys@[j] == keys@[i as int]);
                            }
                        }
                        let t0 = keys@.take(i as int);
                        let t1 = keys@.take(i + 1);
                        assert(t1 =~= t0.push(key));
                        assert forall|x: (E, ComponentKind)| t1.contains(x) <==> (t0.contains(x) || x == key) by {
                            if t1.contains(x) {
                                let j = choose|j: int| 0 <= j < t1.len() && #[trigger] t1[j] == x;
                                if j < i {
                                    assert(t0[j] == x);
                                }
                            }
                            if t0.contains(x) {
                                let j = choose|j: int| 0 <= j < t0.len() && #[trigger] t0[j] == x;
                                assert(t1[j] == x);
                            }
                            if x == key {
                                assert(t1[i as int] == x);
                            }
                        }
                    }
                    if self.diff_handler.has_component(&e, &k) {
                        let mut mask = record.get(&e, &k).unwrap().duplicate();
                        let mut p: u16 = if dropped == 65535 { 0 } else { dropped + 1 };
                        let ghost mut n: nat = 0;
                        proof {
                            assert(p == nth_after(dropped, 0));
                        }
                        while p != self.last_update_packet_index
                            invariant
                                self.wf(),
                                dropped != last,
                                last == self.last_update_packet_index,
                                p == nth_after(dropped, n as int),
                                n <= steps_between(dropped, last),
                                key == (e, k),
                                rec.contains_key(key),
                                mask@ == nand_later(rec[key], self.sent(), key, dropped, n),
                            decreases steps_between(dropped, last) - n,
                        {
                            proof {
                                self.lemma_sent_view();
                                assert(n != steps_between(dropped, last)) by {
                                    if n == steps_between(dropped, last) {
                                        assert(nth_after(dropped, n as int) == last);
                                    }
                                }
                            }
                            let ghost prev = mask@;
                            let ghost p0 = p;
                            match self.sent_updates.get(&p) {
                                Some(later) => {
                                    proof {
                                        assert(self.sent_updates@.contains_key(p0));
                                        assert(*later == self.sent_updates@[p0]);
                                        assert(self.sent()[p0].1 == later.1.view_masks());
                                    }
                                    match later.1.get(&e, &k) {
                                        Some(next_mask) => {
                                            mask.nand(next_mask);
                                            proof {
                                                assert(self.sent()[p0].1.contains_key(key));
                                                assert(next_mask@ == self.sent()[p0].1[key]);
                                            }
                                        },
                                        None => {
                                            proof {
                                                assert(!self.sent()[p0].1.contains_key(key));
                                            }
                                        },
                                    }
                                },
                                None => {
                                    proof {
                                        assert(!self.sent().contains_key(p0));
                                    }
                                },
                            }
                            proof {
                                let sv = self.sent();
                                if sv.contains_key(p0) && sv[p0].1.contains_key(key) {
                                    assert(mask@ == mask_nand(prev, sv[p0].1[key]));
                                } else {
                                    assert(mask@ == prev);
                                }
                                assert(p0 == nth_after(dropped, n as int));
                                assert(nand_later(rec[key], sv, key, dropped, n + 1) == (
                                    if sv.contains_key(p0) && sv[p0].1.contains_key(key) {
                                        mask_nand(prev, sv[p0].1[key])
                                    } else {
                                        prev
                                    }));
                            }
                            p = if p == 65535 { 0 } else { p + 1 };
                            proof {
                                n = n + 1;
                                assert(p == nth_after(dropped, n as int));
                                assert(mask@ == nand_later(rec[key], self.sent(), key, dropped, n));
                            }
                        }
                        proof {
                            assert(n == steps_between(dropped, last)) by {
                                assert(nth_after(dropped, n as int) == last);
                            }
                            assert(mask@ == resend_mask(sent0, dropped, last, key));
                        }
                        self.diff_handler.or_diff_mask(&e, &k, &mask);
                    }
                    i += 1;
                }
                proof {
                    assert(keys@.take(keys@.len() as int) =~= keys@);
                    let target = after_cleanup(handler0, sent0, dropped, last);
                    assert forall|k: (E, ComponentKind)| #[trigger] keys@.contains(k) <==> rec.contains_key(k) by {
                        assert(keys@.to_set().contains(k) == rec.dom().contains(k));
                    }
                    assert(self.handler() =~= target);
                }
            },
        }
    }
}

} // verus!
