//! Small sets and maps keyed by component kind, kept in insertion order so
//! that walking them is deterministic.

use std::collections::HashMap;

use vstd::prelude::*;
use vstd::std_specs::hash::obeys_key_model;

use crate::keys::ComponentKind;
use crate::maps::keys_of;

verus! {

/// A set of component kinds, in insertion order.
pub struct KindSet {
    kinds: Vec<ComponentKind>,
}

impl View for KindSet {
    type V = Set<ComponentKind>;

    closed spec fn view(&self) -> Set<ComponentKind> {
        self.kinds@.to_set()
    }
}

impl KindSet {
    /// The kinds in insertion order.
    pub closed spec fn order(&self) -> Seq<ComponentKind> {
        self.kinds@
    }

    /// No kind is listed twice.
    pub closed spec fn wf(&self) -> bool {
        self.kinds@.no_duplicates()
    }

    /// An empty set.
    pub fn new() -> (r: KindSet)
        ensures
            r.wf(),
            r@ == Set::<ComponentKind>::empty(),
            r.order() == Seq::<ComponentKind>::empty(),
    {
        let r = KindSet { kinds: Vec::new() };
        proof {
            assert(r.kinds@.to_set() =~= Set::<ComponentKind>::empty());
        }
        r
    }

    /// Whether `kind` is in the set.
    pub fn contains(&self, kind: &ComponentKind) -> (r: bool)
        ensures
            r == self@.contains(*kind),
    {
        let mut i: usize = 0;
        while i < self.kinds.len()
            invariant
                i <= self.kinds@.len(),
                forall|j: int| 0 <= j < i ==> self.kinds@[j] != *kind,
            decreases self.kinds@.len() - i,
        {
            if self.kinds[i] == *kind {
                proof {
                    assert(self.kinds@.contains(*kind));
                }
                return true;
            }
            i += 1;
        }
        false
    }

    /// Adds `kind`; nothing changes if it is there.
    pub fn insert(&mut self, kind: ComponentKind)
        requires
            old(self).wf(),
        ensures
            final(self).wf(),
            final(self)@ == old(self)@.insert(kind),
            old(self)@.contains(kind) ==> final(self).order() == old(self).order(),
            !old(self)@.contains(kind) ==> final(self).order() == old(self).order().push(kind),
    {
        if !self.contains(&kind) {
            self.kinds.push(kind);
            proof {
                old(self).kinds@.lemma_push_to_set_commute(kind);
                assert forall|i: int, j: int| 0 <= i < j < self.kinds@.len() implies self.kinds@[i] != self.kinds@[j] by {
                    if j == self.kinds@.len() - 1 && self.kinds@[i] == kind {
                        assert(old(self).kinds@.contains(kind));
                    }
                }
            }
        } else {
            proof {
                assert(old(self)@.insert(kind) =~= old(self)@);
            }
        }
    }

    /// Removes `kind`; nothing changes if it is absent.
    pub fn remove(&mut self, kind: &ComponentKind)
        requires
            old(self).wf(),
        ensures
            final(self).wf(),
            final(self)@ == old(self)@.remove(*kind),
            final(self).order() == old(self).order().filter(other_kind(*kind)),
    {
        let mut kept: Vec<ComponentKind> = Vec::new();
        let mut i: usize = 0;
        while i < self.kinds.len()
            invariant
                i <= self.kinds@.len(),
                self.kinds@ == old(self).kinds@,
                kept@ == self.kinds@.take(i as int).filter(other_kind(*kind)),
            decreases self.kinds@.len() - i,
        {
            proof {
                assert(self.kinds@.take(i + 1) =~= self.kinds@.take(i as int).push(self.kinds@[i as int]));
                self.kinds@.take(i as int).lemma_filter_push(self.kinds@[i as int], other_kind(*kind));
            }
            if self.kinds[i] != *kind {
                kept.push(self.kinds[i]);
            }
            i += 1;
        }
        proof {
            assert(self.kinds@.take(self.kinds@.len() as int) =~= self.kinds@);
            let f = old(self).kinds@.filter(other_kind(*kind));
            old(self).kinds@.filter_lemma(other_kind(*kind));
            assert forall|x: ComponentKind| f.to_set().contains(x) <==> old(self)@.remove(*kind).contains(x) by {
                if old(self).kinds@.contains(x) && x != *kind {
                    let j = choose|j: int| 0 <= j < old(self).kinds@.len() && old(self).kinds@[j] == x;
                    old(self).kinds@.lemma_filter_contains(other_kind(*kind), j);
                }
                if f.contains(x) {
                    old(self).kinds@.lemma_filter_contains_rev(other_kind(*kind), x);
                    let j = choose|j: int| 0 <= j < f.len() && f[j] == x;
                    assert(other_kind(*kind)(f[j]));
                }
            }
            assert(f.to_set() =~= old(self)@.remove(*kind));
            lemma_filter_no_duplicates(old(self).kinds@, other_kind(*kind));
        }
        self.kinds = kept;
    }

    /// The kinds in insertion order.
    pub fn to_vec(&self) -> (r: Vec<ComponentKind>)
        ensures
            r@ == self.order(),
    {
        let mut out: Vec<ComponentKind> = Vec::new();
        let mut i: usize = 0;
        while i < self.kinds.len()
            invariant
                i <= self.kinds@.len(),
                out@ == self.kinds@.take(i as int),
            decreases self.kinds@.len() - i,
        {
            out.push(self.kinds[i]);
            proof {
                assert(self.kinds@.take(i + 1) =~= self.kinds@.take(i as int).push(self.kinds@[i as int]));
            }
            i += 1;
        }
        proof {
            assert(self.kinds@.take(self.kinds@.len() as int) =~= self.kinds@);
        }
        out
    }

    pub proof fn lemma_order_matches(&self)
        ensures
            self.order().to_set() == self@,
    {
    }

    /// A well-formed set lists no kind twice.
    pub proof fn lemma_order_unique(&self)
        requires
            self.wf(),
        ensures
            self.order().no_duplicates(),
    {
    }
}

/// The `(key, kind)` pairs of a map of kind sets.
pub open spec fn kind_pairs<K>(m: Map<K, KindSet>) -> Set<(K, ComponentKind)> {
    Set::new(|p: (K, ComponentKind)| m.contains_key(p.0) && m[p.0]@.contains(p.1))
}

/// Every `(key, kind)` pair of `m`, each once, in no particular order of
/// keys and in each set's order of kinds.
pub fn pairs_of<K: Copy + Eq + std::hash::Hash>(m: &HashMap<K, KindSet>) -> (r: Vec<(K, ComponentKind)>)
    requires
        obeys_key_model::<K>(),
        forall|k: K| #[trigger] m@.contains_key(k) ==> m@[k].wf(),
    ensures
        r@.to_set() == kind_pairs(m@),
        r@.no_duplicates(),
{
    broadcast use vstd::std_specs::hash::group_hash_axioms;
    let keys = keys_of(m);
    let mut r: Vec<(K, ComponentKind)> = Vec::new();
    let mut i: usize = 0;
    while i < keys.len()
        invariant
            obeys_key_model::<K>(),
            forall|k: K| #[trigger] m@.contains_key(k) ==> m@[k].wf(),
            i <= keys@.len(),
            keys@.to_set() == m@.dom(),
            keys@.no_duplicates(),
            r@.no_duplicates(),
            forall|p: (K, ComponentKind)| #[trigger] r@.contains(p) <==> (
                kind_pairs(m@).contains(p) && exists|j: int| 0 <= j < i && keys@[j] == p.0),
        decreases keys@.len() - i,
    {
        let e = keys[i];
        proof {
            assert(keys@.contains(e));
        }
        let set = m.get(&e).unwrap();
        let kinds = set.to_vec();
        let ghost before = r@;
        proof {
            set.lemma_order_unique();
            set.lemma_order_matches();
            assert forall|x: int| 0 <= x < before.len() implies before[x].0 != e by {
                assert(r@.contains(before[x]));
                if before[x].0 == e {
                    let j2 = choose|j2: int| 0 <= j2 < i && keys@[j2] == before[x].0;
                    assert(keys@[j2] == keys@[i as int]);
                }
            }
        }
        let mut j: usize = 0;
        while j < kinds.len()
            invariant
                j <= kinds@.len(),
                kinds@.no_duplicates(),
                r@ == before + Seq::new(j as nat, |x: int| (e, kinds@[x])),
            decreases kinds@.len() - j,
        {
            r.push((e, kinds[j]));
            j += 1;
            proof {
                assert(r@ =~= before + Seq::new(j as nat, |x: int| (e, kinds@[x])));
            }
        }
        proof {
            let added = Seq::new(kinds@.len(), |x: int| (e, kinds@[x]));
            assert(r@ == before + added);
            assert forall|a: int, b: int| 0 <= a < b < r@.len() implies r@[a] != r@[b] by {
                if b < before.len() {
                } else if a < before.len() {
                    assert(r@[a].0 != e);
                } else {
                    assert(kinds@[a - before.len()] != kinds@[b - before.len()]);
                }
            }
            assert forall|p: (K, ComponentKind)| #[trigger] r@.contains(p) <==> (
                kind_pairs(m@).contains(p) && exists|j2: int| 0 <= j2 < i + 1 && keys@[j2] == p.0)
            by {
                if r@.contains(p) {
                    let x = choose|x: int| 0 <= x < r@.len() && r@[x] == p;
                    if x < before.len() {
                        assert(before.contains(p));
                    } else {
                        assert(p == added[x - before.len()]);
                        assert(kinds@.contains(kinds@[x - before.len()]));
                        assert(keys@[i as int] == p.0);
                    }
                }
                if kind_pairs(m@).contains(p) && exists|j2: int| 0 <= j2 < i + 1 && keys@[j2] == p.0 {
                    if p.0 == e {
                        assert(set@.contains(p.1));
                        assert(kinds@.to_set().contains(p.1));
                        let y = choose|y: int| 0 <= y < kinds@.len() && kinds@[y] == p.1;
                        assert(r@[before.len() + y] == p);
                    } else {
                        let j2 = choose|j2: int| 0 <= j2 < i + 1 && keys@[j2] == p.0;
                        assert(j2 != i);
                        assert(before.contains(p));
                        let x = choose|x: int| 0 <= x < before.len() && before[x] == p;
                        assert(r@[x] == p);
                    }
                }
            }
        }
        i += 1;
    }
    proof {
        assert forall|p: (K, ComponentKind)| r@.to_set().contains(p) <==> kind_pairs(m@).contains(p) by {
            if kind_pairs(m@).contains(p) {
                assert(keys@.to_set().contains(p.0));
                let j = choose|j: int| 0 <= j < keys@.len() && keys@[j] == p.0;
                assert(r@.contains(p));
            }
        }
        assert(r@.to_set() =~= kind_pairs(m@));
    }
    r
}

/// Filtering keeps a sequence free of duplicates.
pub proof fn lemma_filter_no_duplicates<A>(s: Seq<A>, p: spec_fn(A) -> bool)
    requires
        s.no_duplicates(),
    ensures
        s.filter(p).no_duplicates(),
    decreases s.len(),
{
    reveal(Seq::filter);
    if s.len() > 0 {
        let d = s.drop_last();
        assert(d.no_duplicates()) by {
            assert forall|i: int, j: int| 0 <= i < j < d.len() implies d[i] != d[j] by {
                assert(d[i] == s[i] && d[j] == s[j]);
            }
        }
        lemma_filter_no_duplicates(d, p);
        if p(s.last()) {
            if d.filter(p).contains(s.last()) {
                d.lemma_filter_contains_rev(p, s.last());
                let k = choose|k: int| 0 <= k < d.len() && d[k] == s.last();
                assert(s[k] == s[s.len() - 1]);
            }
            let f = d.filter(p);
            assert forall|i: int, j: int| 0 <= i < j < f.push(s.last()).len() implies f.push(s.last())[i] != f.push(s.last())[j] by {
                if j == f.len() {
                    assert(f.contains(f[i]));
                }
            }
        }
    }
}

/// Keeps every component kind but `kind`.
pub open spec fn other_kind(kind: ComponentKind) -> spec_fn(ComponentKind) -> bool {
    |k: ComponentKind| k != kind
}

} // verus!
