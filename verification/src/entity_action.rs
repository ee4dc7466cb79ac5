//! Entity actions awaiting delivery, and the queue that orders them by their
//! wrapping action ids for the next packet.

use vstd::prelude::*;

use crate::keys::ComponentKind;
use crate::sequence_list::{sequence_greater_than, spec_sequence_greater_than};

verus! {

/// An entity action awaiting delivery; `Noop` stands in for one that was
/// superseded before it was acknowledged.
#[derive(Clone, Copy, PartialEq, Eq, Debug, Structural)]
pub enum EntityAction<E> {
    SpawnEntity(E),
    DespawnEntity(E),
    InsertComponent(E, ComponentKind),
    RemoveComponent(E, ComponentKind),
    Noop,
}

/// The kind of an entity action, written ahead of it on the wire.
#[derive(Clone, Copy, PartialEq, Eq, Debug, Structural)]
pub enum EntityActionType {
    SpawnEntity,
    DespawnEntity,
    InsertComponent,
    RemoveComponent,
    Noop,
}

/// The type tag of an action.
pub open spec fn action_type<E>(a: EntityAction<E>) -> EntityActionType {
    match a {
        EntityAction::SpawnEntity(..) => EntityActionType::SpawnEntity,
        EntityAction::DespawnEntity(..) => EntityActionType::DespawnEntity,
        EntityAction::InsertComponent(..) => EntityActionType::InsertComponent,
        EntityAction::RemoveComponent(..) => EntityActionType::RemoveComponent,
        EntityAction::Noop => EntityActionType::Noop,
    }
}

impl<E: Copy> EntityAction<E> {
    /// The action's type tag.
    pub fn as_type(&self) -> (r: EntityActionType)
        ensures
            r == action_type(*self),
    {
        match self {
            EntityAction::SpawnEntity(_) => EntityActionType::SpawnEntity,
            EntityAction::DespawnEntity(_) => EntityActionType::DespawnEntity,
            EntityAction::InsertComponent(_, _) => EntityActionType::InsertComponent,
            EntityAction::RemoveComponent(_, _) => EntityActionType::RemoveComponent,
            EntityAction::Noop => EntityActionType::Noop,
        }
    }
}

/// Where `push` places id `id` in `list`, scanning from `from`: before the
/// first entry whose id comes after `id`, or at the end when none does.
pub open spec fn push_index<T>(list: Seq<(u16, T)>, id: u16, from: int) -> int
    decreases list.len() - from,
{
    if from < 0 || from >= list.len() {
        list.len() as int
    } else if spec_sequence_greater_than(list[from].0, id) {
        from
    } else {
        push_index(list, id, from + 1)
    }
}

pub proof fn lemma_push_index_range<T>(list: Seq<(u16, T)>, id: u16, from: int)
    requires
        0 <= from <= list.len(),
    ensures
        from <= push_index(list, id, from) <= list.len(),
    decreases list.len() - from,
{
    if from < list.len() && !spec_sequence_greater_than(list[from].0, id) {
        lemma_push_index_range(list, id, from + 1);
    }
}

/// How far `x` lies after `base` going forward through the wrapping 16-bit
/// id space.
pub open spec fn id_distance(base: u16, x: u16) -> int {
    (x as int - base as int + 65536) % 65536
}

/// Within a window of fewer than half the id space after `base`, sequence
/// order is the order of distance from `base`.
pub proof fn lemma_window_order(base: u16, x: u16, y: u16)
    requires
        id_distance(base, x) < 32768,
        id_distance(base, y) < 32768,
    ensures
        spec_sequence_greater_than(x, y) <==> id_distance(base, x) > id_distance(base, y),
        id_distance(base, x) == id_distance(base, y) <==> x == y,
{
    assert(((x as int - base as int + 65536) % 65536 < 32768 && (y as int - base as int + 65536) % 65536 < 32768)
        ==> ((((x > y && x - y <= 32768) || (x < y && y - x > 32768)) <==> (x as int - base as int + 65536) % 65536
            > (y as int - base as int + 65536) % 65536) && (((x as int - base as int + 65536) % 65536
            == (y as int - base as int + 65536) % 65536) <==> x == y))) by (bit_vector);
}

/// Every id in `list` lies within half the id space after `base`, and the
/// ids increase strictly in distance from `base`: the list is in sequence
/// order.
pub open spec fn in_window_order<T>(list: Seq<(u16, T)>, base: u16) -> bool {
    &&& forall|i: int| 0 <= i < list.len() ==> id_distance(base, #[trigger] list[i].0) < 32768
    &&& forall|i: int, j: int| 0 <= i < j < list.len() ==> id_distance(base, #[trigger] list[i].0) < id_distance(base, #[trigger] list[j].0)
}

proof fn lemma_push_index_is_first_greater<T>(list: Seq<(u16, T)>, id: u16, from: int)
    requires
        0 <= from <= list.len(),
    ensures
        forall|j: int| from <= j < push_index(list, id, from) ==> !spec_sequence_greater_than(#[trigger] list[j].0, id),
        push_index(list, id, from) < list.len() ==> spec_sequence_greater_than(list[push_index(list, id, from)].0, id),
    decreases list.len() - from,
{
    lemma_push_index_range(list, id, from);
    if from < list.len() && !spec_sequence_greater_than(list[from].0, id) {
        lemma_push_index_is_first_greater(list, id, from + 1);
    }
}

/// Pushing keeps a queue in sequence order while all its ids and the new
/// one lie within half the id space after some `base`.
pub proof fn lemma_push_keeps_order<T>(list: Seq<(u16, T)>, id: u16, item: T, base: u16)
    requires
        in_window_order(list, base),
        id_distance(base, id) < 32768,
        forall|j: int| 0 <= j < list.len() ==> #[trigger] list[j].0 != id,
    ensures
        in_window_order(list.insert(push_index(list, id, 0), (id, item)), base),
{
    let p = push_index(list, id, 0);
    lemma_push_index_range(list, id, 0);
    lemma_push_index_is_first_greater(list, id, 0);
    let l2 = list.insert(p, (id, item));
    assert forall|j: int| 0 <= j < p implies id_distance(base, #[trigger] list[j].0) < id_distance(base, id) by {
        lemma_window_order(base, list[j].0, id);
    }
    assert forall|j: int| p <= j < list.len() implies id_distance(base, #[trigger] list[j].0) > id_distance(base, id) by {
        lemma_window_order(base, list[p].0, id);
        if j > p {
            assert(id_distance(base, list[p].0) < id_distance(base, list[j].0));
        }
    }
    assert forall|i: int| 0 <= i < l2.len() implies id_distance(base, #[trigger] l2[i].0) < 32768 by {
        if i < p {
            assert(l2[i] == list[i]);
        } else if i > p {
            assert(l2[i] == list[i - 1]);
        }
    }
    assert forall|i: int, j: int| 0 <= i < j < l2.len() implies id_distance(base, #[trigger] l2[i].0) < id_distance(base, #[trigger] l2[j].0) by {
        if j < p {
            assert(l2[i] == list[i] && l2[j] == list[j]);
        } else if j == p {
            assert(l2[i] == list[i]);
        } else if i < p {
            assert(l2[i] == list[i] && l2[j] == list[j - 1]);
        } else if i == p {
            assert(l2[j] == list[j - 1]);
        } else {
            assert(l2[i] == list[i - 1] && l2[j] == list[j - 1]);
        }
    }
}

/// The signed distance from action id `from` to `to` going the short way
/// round the wrapping id space: in `-32768 ..= 32767`.
pub open spec fn wrapping_diff(from: u16, to: u16) -> int {
    (to as int - from as int + 32768) % 65536 - 32768
}

/// How an action id is written into a packet.
#[derive(Clone, Copy, PartialEq, Eq, Debug, Structural)]
pub enum ActionIdCode {
    /// The first id of the packet, written whole.
    Full(u16),
    /// A later id, written as its distance from the previous one.
    Diff(i32),
}

/// How `current` is written after the id `last` written before it in the
/// same packet (if any), and the id to remember as written last.
pub fn write_action_id(last: Option<u16>, current: u16) -> (r: (ActionIdCode, Option<u16>))
    ensures
        r.0 == match last {
            Some(l) => ActionIdCode::Diff(wrapping_diff(l, current) as i32),
            None => ActionIdCode::Full(current),
        },
        r.1 == Some(current),
        match last {
            Some(l) => -32768 <= wrapping_diff(l, current) <= 32767,
            None => true,
        },
{
    match last {
        Some(l) => {
            let d: i32 = (current as i32 - l as i32 + 98304) % 65536 - 32768;
            proof {
                let x: int = current as int - l as int + 32768;
                assert((x + 65536) % 65536 == x % 65536) by (nonlinear_arith)
                    requires -65536 < x < 131072;
            }
            (ActionIdCode::Diff(d), Some(current))
        },
        None => (ActionIdCode::Full(current), Some(current)),
    }
}

/// Reading back: the previous id moved by the written distance is the id
/// written, so a packet's ids are recovered from the first one and the
/// distances.
pub proof fn lemma_diff_recovers_id(from: u16, to: u16)
    ensures
        (from as int + wrapping_diff(from, to)) % 65536 == to as int,
{
    let x: int = to as int - from as int + 32768;
    assert((from as int + (x % 65536 - 32768)) % 65536 == to as int) by (nonlinear_arith)
        requires
            x == to as int - from as int + 32768,
            0 <= from < 65536,
            0 <= to < 65536,
    ;
}

/// Actions queued for the next packet, kept in action id order.
pub struct NextSendActions<E> {
    list: Vec<(u16, EntityAction<E>)>,
}

impl<E> View for NextSendActions<E> {
    type V = Seq<(u16, EntityAction<E>)>;

    closed spec fn view(&self) -> Seq<(u16, EntityAction<E>)> {
        self.list@
    }
}

impl<E: Copy> NextSendActions<E> {
    /// An empty queue.
    pub fn new() -> (r: Self)
        ensures
            r@ == Seq::<(u16, EntityAction<E>)>::empty(),
    {
        NextSendActions { list: Vec::new() }
    }

    /// Removes and returns the first queued action, if any.
    pub fn pop(&mut self) -> (r: Option<(u16, EntityAction<E>)>)
        ensures
            old(self)@.len() == 0 ==> r is None && final(self)@ == old(self)@,
            old(self)@.len() > 0 ==> r == Some(old(self)@[0]) && final(self)@ == old(self)@.drop_first(),
    {
        if self.list.len() == 0 {
            None
        } else {
            let r = self.list.remove(0);
            proof {
                assert(self.list@ =~= old(self)@.drop_first());
            }
            Some(r)
        }
    }

    /// How many actions are queued.
    pub fn len(&self) -> (r: usize)
        ensures
            r == self@.len(),
    {
        self.list.len()
    }

    /// The queued action at `index`, if there is one.
    pub fn get(&self, index: usize) -> (r: Option<&(u16, EntityAction<E>)>)
        ensures
            index < self@.len() ==> r == Some(&self@[index as int]),
            index >= self@.len() ==> r is None,
    {
        if index < self.list.len() {
            Some(&self.list[index])
        } else {
            None
        }
    }

    /// Queues `action` with id `message_id` before the first queued action
    /// whose id comes after it. No action scanned before that point may
    /// have the same id.
    pub fn push(&mut self, message_id: u16, action: EntityAction<E>)
        requires
            forall|j: int| 0 <= j < push_index(old(self)@, message_id, 0) ==> #[trigger] old(self)@[j].0 != message_id,
        ensures
            final(self)@ == old(self)@.insert(push_index(old(self)@, message_id, 0), (message_id, action)),
    {
        let ghost l = self@;
        let mut index: usize = 0;
        proof {
            lemma_push_index_range(l, message_id, 0);
        }
        loop
            invariant_except_break
                l == self@,
                l == old(self)@,
                index <= l.len(),
                push_index(l, message_id, 0) == push_index(l, message_id, index as int),
                index <= push_index(l, message_id, 0),
                forall|j: int| 0 <= j < push_index(l, message_id, 0) ==> #[trigger] l[j].0 != message_id,
            ensures
                l == old(self)@,
                index == push_index(l, message_id, 0),
                index <= l.len(),
                self@ == l,
            decreases l.len() - index,
        {
            proof {
                lemma_push_index_range(l, message_id, index as int);
            }
            if index < self.list.len() {
                let old_id = self.list[index].0;
                if sequence_greater_than(old_id, message_id) {
                    break;
                }
            } else {
                break;
            }
            proof {
                lemma_push_index_range(l, message_id, index + 1);
            }
            index += 1;
        }
        self.list.insert(index, (message_id, action));
    }
}

/// The bits of the first `n` items, given each item's size in bits.
pub open spec fn bits_of_first(sizes: Seq<u64>, n: int) -> int
    decreases n,
{
    if n <= 0 {
        0
    } else {
        bits_of_first(sizes, n - 1) + sizes[n - 1]
    }
}

/// How many items a packet takes, in order: a packet already `packet_bits`
/// long that would add a list header of `header_bits` and then items of
/// `item_bits` each stays within `mtu_bits`. A packet already over the
/// limit, or with no room for the header, takes none; otherwise it takes
/// items while the packet still fits, up to the first that does not.
pub fn count_fitting(packet_bits: u64, header_bits: u64, item_bits: &Vec<u64>, mtu_bits: u64) -> (r: usize)
    ensures
        (packet_bits > mtu_bits || packet_bits + header_bits > mtu_bits) ==> r == 0,
        r <= item_bits@.len(),
        r > 0 ==> packet_bits + header_bits + bits_of_first(item_bits@, r as int) <= mtu_bits,
        !(packet_bits > mtu_bits || packet_bits + header_bits > mtu_bits) && r < item_bits@.len()
            ==> packet_bits + header_bits + bits_of_first(item_bits@, r + 1) > mtu_bits,
{
    if packet_bits > mtu_bits || header_bits > mtu_bits - packet_bits {
        return 0;
    }
    let room: u64 = mtu_bits - packet_bits - header_bits;
    let mut used: u64 = 0;
    let mut n: usize = 0;
    while n < item_bits.len()
        invariant
            n <= item_bits@.len(),
            used == bits_of_first(item_bits@, n as int),
            used <= room,
            room == mtu_bits - packet_bits - header_bits,
        decreases item_bits@.len() - n,
    {
        if item_bits[n] > room - used {
            return n;
        }
        used = used + item_bits[n];
        n += 1;
    }
    n
}

} // verus!
