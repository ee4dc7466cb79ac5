//! A read-only view of the registered entities and their components, from
//! which the per-tick snapshot of the game world is built.
//!
//! The view is a safe superset of what sending reads: every registered
//! entity, and every `(entity, component kind)` pair with a record,
//! regardless of per-user scope.

use std::hash::Hash;

use vstd::prelude::*;

use crate::coord::{CoordHandle, ServerShared};
use crate::keys::ComponentKind;
use crate::world_manager::RecordView;

verus! {

/// The world entities whose global entity has a replication record.
pub open spec fn live_set<E>(records: Map<u64, RecordView>, to_world: Map<u64, E>) -> Set<E> {
    Set::new(|e: E| exists|g: u64| #[trigger] records.contains_key(g) && to_world.contains_key(g) && to_world[g] == e)
}

/// The `(world entity, component kind)` pairs recorded for live entities.
pub open spec fn entry_set<E>(records: Map<u64, RecordView>, to_world: Map<u64, E>) -> Set<(E, ComponentKind)> {
    Set::new(
        |p: (E, ComponentKind)|
            exists|g: u64|
                #[trigger] records.contains_key(g) && to_world.contains_key(g) && to_world[g] == p.0
                    && records[g].components.contains(p.1),
    )
}

/// The numbers of `q` rise strictly.
pub open spec fn strictly_rising(q: Seq<u64>) -> bool {
    forall|i: int, j: int| 0 <= i < j < q.len() ==> #[trigger] q[i] < #[trigger] q[j]
}

/// The numbers of `s` in rising order.
pub open spec fn rising_order(s: Set<u64>) -> Seq<u64> {
    choose|q: Seq<u64>| strictly_rising(q) && q.to_set() == s
}

/// The world entities of the global entities `order`, in that order,
/// leaving out those `to_world` does not resolve.
pub open spec fn live_in_order<E>(order: Seq<u64>, to_world: Map<u64, E>) -> Seq<E>
    decreases order.len(),
{
    if order.len() == 0 {
        Seq::empty()
    } else {
        let rest = live_in_order(order.drop_last(), to_world);
        if to_world.contains_key(order.last()) {
            rest.push(to_world[order.last()])
        } else {
            rest
        }
    }
}

/// The `(world entity, component kind)` pairs of the global entities
/// `order` that resolve, entity by entity in that order and, within an
/// entity, in the order of its record's kinds.
pub open spec fn entries_in_order<E>(order: Seq<u64>, records: Map<u64, RecordView>, to_world: Map<u64, E>) -> Seq<(E, ComponentKind)>
    decreases order.len(),
{
    if order.len() == 0 {
        Seq::empty()
    } else {
        let rest = entries_in_order(order.drop_last(), records, to_world);
        let g = order.last();
        if to_world.contains_key(g) {
            rest + records[g].components.map_values(|k: ComponentKind| (to_world[g], k))
        } else {
            rest
        }
    }
}

/// Two strictly rising sequences with the same numbers are the same.
proof fn lemma_rising_unique(a: Seq<u64>, b: Seq<u64>)
    requires
        strictly_rising(a),
        strictly_rising(b),
        a.to_set() == b.to_set(),
    ensures
        a == b,
    decreases a.len(),
{
    if a.len() == 0 {
        if b.len() > 0 {
            assert(b.to_set().contains(b[0]));
        }
        assert(a =~= b);
    } else {
        assert(a.to_set().contains(a[0]));
        assert(b.len() > 0);
        assert(b.to_set().contains(b[0]));
        assert(b.contains(a[0]));
        assert(a.contains(b[0]));
        let ia = choose|k: int| 0 <= k < a.len() && a[k] == b[0];
        let ib = choose|k: int| 0 <= k < b.len() && b[k] == a[0];
        if ia > 0 {
            assert(a[0] < a[ia]);
        }
        if ib > 0 {
            assert(b[0] < b[ib]);
        }
        assert(a[0] == b[0]);
        let ra = a.drop_first();
        let rb = b.drop_first();
        assert forall|x: u64| ra.to_set().contains(x) <==> rb.to_set().contains(x) by {
            if ra.contains(x) {
                let k = choose|k: int| 0 <= k < ra.len() && ra[k] == x;
                assert(a[k + 1] == x);
                assert(a[0] < x);
                assert(a.contains(x));
                assert(b.to_set().contains(x));
                let kb = choose|kb: int| 0 <= kb < b.len() && b[kb] == x;
                assert(kb != 0);
                assert(rb[kb - 1] == x);
            }
            if rb.contains(x) {
                let k = choose|k: int| 0 <= k < rb.len() && rb[k] == x;
                assert(b[k + 1] == x);
                assert(b[0] < x);
                assert(b.contains(x));
                assert(a.to_set().contains(x));
                let ka = choose|ka: int| 0 <= ka < a.len() && a[ka] == x;
                assert(ka != 0);
                assert(ra[ka - 1] == x);
            }
        }
        assert(ra.to_set() =~= rb.to_set());
        lemma_rising_unique(ra, rb);
        assert(a =~= b) by {
            assert forall|k: int| 0 <= k < a.len() implies a[k] == b[k] by {
                if k > 0 {
                    assert(a[k] == ra[k - 1]);
                    assert(b[k] == rb[k - 1]);
                }
            }
        }
    }
}

/// A strictly rising sequence is the rising order of its numbers.
proof fn lemma_is_rising_order(q: Seq<u64>)
    requires
        strictly_rising(q),
    ensures
        rising_order(q.to_set()) == q,
{
    let r = rising_order(q.to_set());
    assert(strictly_rising(r) && r.to_set() == q.to_set());
    lemma_rising_unique(r, q);
}

/// The numbers of `ids`, rising.
fn rising_numbers(ids: &Vec<crate::keys::GlobalEntity>) -> (r: Vec<u64>)
    ensures
        strictly_rising(r@),
        r@.to_set() == ids@.map_values(|g: crate::keys::GlobalEntity| g.0).to_set(),
{
    let ghost src = ids@.map_values(|g: crate::keys::GlobalEntity| g.0);
    let mut out: Vec<u64> = Vec::new();
    let mut i: usize = 0;
    while i < ids.len()
        invariant
            i <= ids@.len(),
            src == ids@.map_values(|g: crate::keys::GlobalEntity| g.0),
            strictly_rising(out@),
            out@.to_set() == src.take(i as int).to_set(),
        decreases ids@.len() - i,
    {
        let x = ids[i].0;
        proof {
            assert(src[i as int] == x);
            assert(src.take(i + 1) =~= src.take(i as int).push(x));
        }
        // the first place holding a larger number
        let mut p: usize = 0;
        while p < out.len() && out[p] < x
            invariant
                p <= out@.len(),
                forall|k: int| 0 <= k < p ==> out@[k] < x,
            decreases out@.len() - p,
        {
            p += 1;
        }
        let present = p < out.len() && out[p] == x;
        if present {
            proof {
                assert(out@[p as int] == x);
                assert(out@.contains(x));
                assert(out@.to_set().contains(x));
                assert(out@.to_set() =~= src.take(i + 1).to_set());
            }
        } else {
            let ghost before = out@;
            out.insert(p, x);
            proof {
                assert(forall|k: int| p <= k < before.len() ==> before[k] > x) by {
                    assert forall|k: int| p <= k < before.len() implies before[k] > x by {
                        if k > p {
                            assert(before[p as int] < before[k]);
                        }
                    }
                }
                assert forall|a: int, b: int| 0 <= a < b < out@.len() implies #[trigger] out@[a] < #[trigger] out@[b] by {
                    let oa = if a < p { a } else if a == p { -1 } else { a - 1 };
                    let ob = if b < p { b } else if b == p { -1 } else { b - 1 };
                    if oa >= 0 {
                        assert(out@[a] == before[oa]);
                    }
                    if ob >= 0 {
                        assert(out@[b] == before[ob]);
                    }
                }
                assert forall|y: u64| out@.to_set().contains(y) <==> src.take(i + 1).to_set().contains(y) by {
                    if out@.contains(y) {
                        let k = choose|k: int| 0 <= k < out@.len() && out@[k] == y;
                        if k != p {
                            let ok = if k < p { k } else { k - 1 };
                            assert(before[ok] == y);
                            assert(before.to_set().contains(y));
                        }
                        assert(src.take(i + 1).contains(y) <==> src.take(i + 1).to_set().contains(y));
                        if k != p {
                            assert(src.take(i as int).contains(y));
                            let q = choose|q: int| 0 <= q < i && #[trigger] src.take(i as int)[q] == y;
                            assert(src.take(i + 1)[q] == y);
                        } else {
                            assert(src.take(i + 1)[i as int] == y);
                        }
                    }
                    if src.take(i + 1).contains(y) {
                        let q = choose|q: int| 0 <= q < i + 1 && #[trigger] src.take(i + 1)[q] == y;
                        if q == i {
                            assert(out@[p as int] == y);
                        } else {
                            assert(src.take(i as int)[q] == y);
                            assert(src.take(i as int).to_set().contains(y));
                            assert(before.contains(y));
                            let k = choose|k: int| 0 <= k < before.len() && before[k] == y;
                            let nk = if k < p { k } else { k + 1 };
                            assert(out@[nk] == y);
                        }
                    }
                }
                assert(out@.to_set() =~= src.take(i + 1).to_set());
            }
        }
        i += 1;
    }
    proof {
        assert(src.take(ids@.len() as int) =~= src);
    }
    out
}

/// The live entities and snapshot entries of the registries, as they stood
/// when the view was taken.
pub struct SendStateView<E> {
    live: Vec<E>,
    required: Vec<(E, ComponentKind)>,
}

impl<E: Copy> Clone for SendStateView<E> {
    fn clone(&self) -> (r: Self)
        ensures
            r.live_seq() == self.live_seq(),
            r.required_seq() == self.required_seq(),
    {
        let mut live: Vec<E> = Vec::new();
        let mut i: usize = 0;
        while i < self.live.len()
            invariant
                i <= self.live@.len(),
                live@ == self.live@.take(i as int),
            decreases self.live@.len() - i,
        {
            live.push(self.live[i]);
            proof {
                assert(self.live@.take(i + 1) =~= self.live@.take(i as int).push(self.live@[i as int]));
            }
            i += 1;
        }
        let mut required: Vec<(E, ComponentKind)> = Vec::new();
        let mut j: usize = 0;
        while j < self.required.len()
            invariant
                j <= self.required@.len(),
                required@ == self.required@.take(j as int),
            decreases self.required@.len() - j,
        {
            required.push(self.required[j]);
            proof {
                assert(self.required@.take(j + 1) =~= self.required@.take(j as int).push(self.required@[j as int]));
            }
            j += 1;
        }
        proof {
            assert(self.live@.take(self.live@.len() as int) =~= self.live@);
            assert(self.required@.take(self.required@.len() as int) =~= self.required@);
        }
        SendStateView { live, required }
    }
}

impl<E> SendStateView<E> {
    /// The live entities, each once.
    pub closed spec fn live_seq(&self) -> Seq<E> {
        self.live@
    }

    /// The snapshot entries.
    pub closed spec fn required_seq(&self) -> Seq<(E, ComponentKind)> {
        self.required@
    }

    /// The view lists the live entities and the snapshot entries of
    /// `records` and `to_world`, each once: entities in rising order of
    /// their global entity number, and an entity's entries in the order of
    /// its record's component kinds.
    pub open spec fn describes(&self, records: Map<u64, RecordView>, to_world: Map<u64, E>) -> bool {
        &&& self.live_seq().to_set() == live_set(records, to_world)
        &&& self.live_seq().no_duplicates()
        &&& self.required_seq().to_set() == entry_set(records, to_world)
        &&& self.required_seq().no_duplicates()
        &&& self.live_seq() == live_in_order(rising_order(records.dom()), to_world)
        &&& self.required_seq() == entries_in_order(rising_order(records.dom()), records, to_world)
    }
}

/// Two views of the same registries, such as one taken from the shared
/// state directly and one taken through the coordination handle, list the
/// same live entities and the same snapshot entries in the same order.
pub proof fn lemma_views_of_same_registries_agree<E>(
    a: SendStateView<E>,
    b: SendStateView<E>,
    records: Map<u64, RecordView>,
    to_world: Map<u64, E>,
)
    requires
        a.describes(records, to_world),
        b.describes(records, to_world),
    ensures
        a.live_seq() == b.live_seq(),
        a.required_seq() == b.required_seq(),
{
}

impl<E: Copy + Eq + Hash> SendStateView<E> {
    /// Takes a view of `shared`.
    pub fn from_shared(shared: &ServerShared<E>) -> (r: Self)
        requires
            shared.global_entity_map.wf(),
            shared.global_world_manager.wf(),
        ensures
            r.describes(shared.global_world_manager.records(), shared.global_entity_map.global_to_world()),
    {
        let gwm = &shared.global_world_manager;
        let gem = &shared.global_entity_map;
        let ghost records = gwm.records();
        let ghost to_world = gem.global_to_world();
        let globals = gwm.all_global_entities();
        let order = rising_numbers(&globals);
        let ghost ids = order@;
        proof {
            assert forall|a: int, b: int| 0 <= a < b < ids.len() implies ids[a] != ids[b] by {
                assert(ids[a] < ids[b]);
            }
        }
        let mut live: Vec<E> = Vec::new();
        let mut required: Vec<(E, ComponentKind)> = Vec::new();
        let mut i: usize = 0;
        proof {
            assert(ids.take(0) =~= Seq::<u64>::empty());
        }
        while i < order.len()
            invariant
                gem.wf(),
                i <= ids.len(),
                ids == order@,
                strictly_rising(ids),
                live@ == live_in_order(ids.take(i as int), to_world),
                required@ == entries_in_order(ids.take(i as int), records, to_world),
                ids.to_set() == records.dom(),
                ids.no_duplicates(),
                records == gwm.records(),
                gwm.wf(),
                to_world == gem.global_to_world(),
                live@.no_duplicates(),
                required@.no_duplicates(),
                forall|e: E| live@.contains(e) <==> exists|k: int| 0 <= k < i && to_world.contains_key(#[trigger] ids[k]) && to_world[ids[k]] == e,
                forall|p: (E, ComponentKind)| required@.contains(p) <==> exists|k: int|
                    0 <= k < i && to_world.contains_key(#[trigger] ids[k]) && to_world[ids[k]] == p.0
                        && records[ids[k]].components.contains(p.1),
            decreases ids.len() - i,
        {
            let ge = crate::keys::GlobalEntity(order[i]);
            proof {
                assert(ids[i as int] == ge.0);
                assert(ids.take(i + 1).drop_last() =~= ids.take(i as int));
                assert(ids.take(i + 1).last() == ge.0);
                assert(records.contains_key(ge.0)) by {
                    assert(ids.contains(ge.0));
                }
            }
            match gem.global_entity_to_entity(&ge) {
                Some(world_entity) => {
                    proof {
                        // no earlier global entity resolves to the same world entity
                        if live@.contains(world_entity) {
                            let k = choose|k: int| 0 <= k < i && to_world.contains_key(#[trigger] ids[k]) && to_world[ids[k]] == world_entity;
                            assert(ids[k] == ids[i as int]);
                        }
                    }
                    let ghost live0 = live@;
                    live.push(world_entity);
                    proof {
                        assert forall|e: E| live@.contains(e) <==> exists|k: int| 0 <= k < i + 1 && to_world.contains_key(#[trigger] ids[k]) && to_world[ids[k]] == e by {
                            if live@.contains(e) && !live0.contains(e) {
                                assert(e == world_entity);
                                assert(to_world.contains_key(ids[i as int]));
                            }
                            if exists|k: int| 0 <= k < i + 1 && to_world.contains_key(#[trigger] ids[k]) && to_world[ids[k]] == e {
                                let k = choose|k: int| 0 <= k < i + 1 && to_world.contains_key(#[trigger] ids[k]) && to_world[ids[k]] == e;
                                if k == i {
                                    assert(live@[live@.len() - 1] == e);
                                } else {
                                    assert(live0.contains(e));
                                    let j = choose|j: int| 0 <= j < live0.len() && live0[j] == e;
                                    assert(live@[j] == e);
                                }
                            }
                        }
                    }
                    let kinds = gwm.component_kinds(&ge).unwrap();
                    let ghost req0 = required@;
                    proof {
                        assert(kinds@.no_duplicates());
                        assert forall|p: (E, ComponentKind)| req0.contains(p) implies p.0 != world_entity by {
                            let k = choose|k: int| 0 <= k < i && to_world.contains_key(#[trigger] ids[k]) && to_world[ids[k]] == p.0
                                && records[ids[k]].components.contains(p.1);
                            assert(live0.contains(p.0));
                        }
                    }
                    let mut j: usize = 0;
                    while j < kinds.len()
                        invariant
                            j <= kinds@.len(),
                            kinds@ == records[ge.0].components,
                            kinds@.no_duplicates(),
                            required@.no_duplicates(),
                            required@ == req0 + kinds@.take(j as int).map_values(|k: ComponentKind| (world_entity, k)),
                            forall|p: (E, ComponentKind)| req0.contains(p) ==> p.0 != world_entity,
                            forall|p: (E, ComponentKind)| #[trigger] required@.contains(p) <==> (req0.contains(p) || (p.0 == world_entity
                                && kinds@.take(j as int).contains(p.1))),
                        decreases kinds@.len() - j,
                    {
                        let ghost r0 = required@;
                        proof {
                            let newp = (world_entity, kinds@[j as int]);
                            if r0.contains(newp) {
                                assert(!req0.contains(newp));
                                let q = choose|q: int| 0 <= q < j && #[trigger] kinds@.take(j as int)[q] == newp.1;
                                assert(kinds@[q] == kinds@[j as int]);
                            }
                        }
                        required.push((world_entity, kinds[j]));
                        proof {
                            assert(required@ =~= req0 + kinds@.take(j + 1).map_values(|k: ComponentKind| (world_entity, k)));
                            assert forall|p: (E, ComponentKind)| #[trigger] required@.contains(p) <==> (req0.contains(p) || (p.0
                                == world_entity && kinds@.take(j + 1).contains(p.1))) by {
                                let newp = (world_entity, kinds@[j as int]);
                                assert(required@ == r0.push(newp));
                                if required@.contains(p) {
                                    let q = choose|q: int| 0 <= q < required@.len() && required@[q] == p;
                                    if q == r0.len() {
                                        assert(p == newp);
                                        assert(kinds@.take(j + 1)[j as int] == p.1);
                                    } else {
                                        assert(r0[q] == p);
                                        assert(r0.contains(p));
                                        if !req0.contains(p) {
                                            let q2 = choose|q2: int| 0 <= q2 < j && #[trigger] kinds@.take(j as int)[q2] == p.1;
                                            assert(kinds@.take(j + 1)[q2] == p.1);
                                        }
                                    }
                                }
                                if req0.contains(p) || (p.0 == world_entity && kinds@.take(j + 1).contains(p.1)) {
                                    if p == newp {
                                        assert(required@[r0.len() as int] == p);
                                    } else {
                                        if !req0.contains(p) {
                                            let q = choose|q: int| 0 <= q < j + 1 && #[trigger] kinds@.take(j + 1)[q] == p.1;
                                            assert(q != j);
                                            assert(kinds@.take(j as int)[q] == p.1);
                                        }
                                        assert(r0.contains(p));
                                        let q3 = choose|q3: int| 0 <= q3 < r0.len() && r0[q3] == p;
                                        assert(required@[q3] == p);
                                    }
                                }
                            }
                        }
                        j += 1;
                    }
                    proof {
                        assert(kinds@.take(kinds@.len() as int) =~= kinds@);
                        assert(required@ == entries_in_order(ids.take(i + 1), records, to_world));
                        assert(live@ == live_in_order(ids.take(i + 1), to_world));
                        assert forall|p: (E, ComponentKind)| required@.contains(p) <==> exists|k: int|
                            0 <= k < i + 1 && to_world.contains_key(#[trigger] ids[k]) && to_world[ids[k]] == p.0
                                && records[ids[k]].components.contains(p.1) by {
                            assert(to_world.contains_key(ids[i as int]) && to_world[ids[i as int]] == world_entity);
                            if exists|k: int| 0 <= k < i + 1 && to_world.contains_key(#[trigger] ids[k]) && to_world[ids[k]] == p.0
                                && records[ids[k]].components.contains(p.1) {
                                let k = choose|k: int| 0 <= k < i + 1 && to_world.contains_key(#[trigger] ids[k]) && to_world[ids[k]] == p.0
                                    && records[ids[k]].components.contains(p.1);
                                if k < i {
                                    assert(req0.contains(p));
                                } else {
                                    assert(kinds@.contains(p.1));
                                }
                            }
                            if required@.contains(p) && !req0.contains(p) {
                                assert(kinds@.contains(p.1));
                                assert(records[ids[i as int]].components.contains(p.1));
                            }
                            if required@.contains(p) && req0.contains(p) {
                                let k = choose|k: int| 0 <= k < i && to_world.contains_key(#[trigger] ids[k]) && to_world[ids[k]] == p.0
                                    && records[ids[k]].components.contains(p.1);
                                assert(0 <= k < i + 1);
                            }
                        }
                    }
                },
                None => {
                    proof {
                        assert(required@ == entries_in_order(ids.take(i + 1), records, to_world));
                        assert(live@ == live_in_order(ids.take(i + 1), to_world));
                        assert forall|e: E| live@.contains(e) <==> exists|k: int| 0 <= k < i + 1 && to_world.contains_key(#[trigger] ids[k]) && to_world[ids[k]] == e by {
                            if exists|k: int| 0 <= k < i + 1 && to_world.contains_key(#[trigger] ids[k]) && to_world[ids[k]] == e {
                                let k = choose|k: int| 0 <= k < i + 1 && to_world.contains_key(#[trigger] ids[k]) && to_world[ids[k]] == e;
                                assert(k != i);
                            }
                        }
                        assert forall|p: (E, ComponentKind)| required@.contains(p) <==> exists|k: int|
                            0 <= k < i + 1 && to_world.contains_key(#[trigger] ids[k]) && to_world[ids[k]] == p.0
                                && records[ids[k]].components.contains(p.1) by {
                            if exists|k: int| 0 <= k < i + 1 && to_world.contains_key(#[trigger] ids[k]) && to_world[ids[k]] == p.0
                                && records[ids[k]].components.contains(p.1) {
                                let k = choose|k: int| 0 <= k < i + 1 && to_world.contains_key(#[trigger] ids[k]) && to_world[ids[k]] == p.0
                                    && records[ids[k]].components.contains(p.1);
                                assert(k != i);
                            }
                        }
                    }
                },
            }
            i += 1;
        }
        proof {
            assert(ids.take(ids.len() as int) =~= ids);
            lemma_is_rising_order(ids);
            assert forall|e: E| live@.to_set().contains(e) <==> live_set(records, to_world).contains(e) by {
                if live_set(records, to_world).contains(e) {
                    let g = choose|g: u64| #[trigger] records.contains_key(g) && to_world.contains_key(g) && to_world[g] == e;
                    assert(ids.to_set().contains(g));
                    let k = choose|k: int| 0 <= k < ids.len() && ids[k] == g;
                    assert(to_world.contains_key(ids[k]));
                }
                if live@.contains(e) {
                    let k = choose|k: int| 0 <= k < ids.len() && to_world.contains_key(#[trigger] ids[k]) && to_world[ids[k]] == e;
                    assert(ids.to_set().contains(ids[k]));
                    assert(records.contains_key(ids[k]));
                }
            }
            assert(live@.to_set() =~= live_set(records, to_world));
            assert forall|p: (E, ComponentKind)| required@.to_set().contains(p) <==> entry_set(records, to_world).contains(p) by {
                if entry_set(records, to_world).contains(p) {
                    let g = choose|g: u64| #[trigger] records.contains_key(g) && to_world.contains_key(g) && to_world[g] == p.0
                        && records[g].components.contains(p.1);
                    assert(ids.to_set().contains(g));
                    let k = choose|k: int| 0 <= k < ids.len() && ids[k] == g;
                    assert(to_world.contains_key(ids[k]));
                }
                if required@.contains(p) {
                    let k = choose|k: int| 0 <= k < ids.len() && to_world.contains_key(#[trigger] ids[k]) && to_world[ids[k]] == p.0
                        && records[ids[k]].components.contains(p.1);
                    assert(ids.to_set().contains(ids[k]));
                    assert(records.contains_key(ids[k]));
                }
            }
            assert(required@.to_set() =~= entry_set(records, to_world));
        }
        SendStateView { live, required }
    }

    /// Every registered world entity with a replication record, each once.
    pub fn live_entities(&self) -> (r: Vec<E>)
        ensures
            r@ == self.live_seq(),
    {
        let mut out: Vec<E> = Vec::new();
        let mut i: usize = 0;
        while i < self.live.len()
            invariant
                i <= self.live@.len(),
                out@ == self.live@.take(i as int),
            decreases self.live@.len() - i,
        {
            out.push(self.live[i]);
            proof {
                assert(self.live@.take(i + 1) =~= self.live@.take(i as int).push(self.live@[i as int]));
            }
            i += 1;
        }
        proof {
            assert(self.live@.take(self.live@.len() as int) =~= self.live@);
        }
        out
    }

    /// Every `(world entity, component kind)` pair recorded for a live entity.
    pub fn required_snapshot_entries(&self) -> (r: Vec<(E, ComponentKind)>)
        ensures
            r@ == self.required_seq(),
    {
        let mut out: Vec<(E, ComponentKind)> = Vec::new();
        let mut i: usize = 0;
        while i < self.required.len()
            invariant
                i <= self.required@.len(),
                out@ == self.required@.take(i as int),
            decreases self.required@.len() - i,
        {
            out.push(self.required[i]);
            proof {
                assert(self.required@.take(i + 1) =~= self.required@.take(i as int).push(self.required@[i as int]));
            }
            i += 1;
        }
        proof {
            assert(self.required@.take(self.required@.len() as int) =~= self.required@);
        }
        out
    }
}

impl<E: Copy + Eq + Hash> CoordHandle<E> {
    /// A view of this handle's registries as they stand now.
    pub fn send_state_view(&self) -> (r: SendStateView<E>)
        requires
            self.wf(),
        ensures
            r.describes(self.records(), self.to_world()),
    {
        SendStateView::from_shared(&self.shared)
    }
}

} // verus!
