//! Wrapping 16-bit sequence numbers and a list of items kept in the order
//! their sequence numbers were issued.

use vstd::prelude::*;

verus! {

/// Half of the 16-bit sequence space: the largest forward distance that still
/// counts as "later".
pub const SEQUENCE_HALF_RANGE: u16 = 32768;

/// `s1` comes after `s2` in wrapping sequence order: it is ahead by at most half
/// the sequence space, counting across the wrap.
pub open spec fn spec_sequence_greater_than(s1: u16, s2: u16) -> bool {
    ||| (s1 > s2 && s1 - s2 <= 32768)
    ||| (s1 < s2 && s2 - s1 > 32768)
}

/// `s1` comes before `s2` in wrapping sequence order.
pub open spec fn spec_sequence_less_than(s1: u16, s2: u16) -> bool {
    spec_sequence_greater_than(s2, s1)
}

/// Whether `s1` comes after `s2` in wrapping sequence order.
pub fn sequence_greater_than(s1: u16, s2: u16) -> (r: bool)
    ensures
        r == spec_sequence_greater_than(s1, s2),
{
    (s1 > s2 && s1 - s2 <= SEQUENCE_HALF_RANGE) || (s1 < s2 && s2 - s1 > SEQUENCE_HALF_RANGE)
}

/// Whether `s1` comes before `s2` in wrapping sequence order.
pub fn sequence_less_than(s1: u16, s2: u16) -> (r: bool)
    ensures
        r == spec_sequence_less_than(s1, s2),
{
    sequence_greater_than(s2, s1)
}

/// Sequence order is irreflexive and asymmetric: no number comes after
/// itself, and of two numbers at most one comes after the other.
pub proof fn lemma_sequence_order_asymmetric(a: u16, b: u16)
    ensures
        !spec_sequence_greater_than(a, a),
        !(spec_sequence_greater_than(a, b) && spec_sequence_greater_than(b, a)),
        spec_sequence_less_than(a, b) == spec_sequence_greater_than(b, a),
{
}

/// The index at which a scan from the back of `list`, over its first `n`
/// entries, stops looking for `id`: the last index whose id equals `id` or
/// comes before it, or -1 when no such index exists.
pub open spec fn scan_back_stop<T>(list: Seq<(u16, T)>, id: u16, n: int) -> int
    decreases n,
{
    if n <= 0 {
        -1
    } else if list[n - 1].0 == id || spec_sequence_less_than(list[n - 1].0, id) {
        n - 1
    } else {
        scan_back_stop(list, id, n - 1)
    }
}

/// Whether a scan from the back of `list` finds an entry with id `id` before
/// reaching an entry that comes earlier than `id`.
pub open spec fn scan_back_finds<T>(list: Seq<(u16, T)>, id: u16) -> bool {
    let k = scan_back_stop(list, id, list.len() as int);
    k >= 0 && list[k].0 == id
}

/// The smallest index at or after `from` whose entry has id `id`, or -1.
pub open spec fn first_index_of<T>(list: Seq<(u16, T)>, id: u16, from: int) -> int
    decreases list.len() - from,
{
    if from < 0 || from >= list.len() {
        -1
    } else if list[from].0 == id {
        from
    } else {
        first_index_of(list, id, from + 1)
    }
}

pub proof fn lemma_scan_back_stop_range<T>(list: Seq<(u16, T)>, id: u16, n: int)
    requires
        n <= list.len(),
    ensures
        -1 <= scan_back_stop(list, id, n) < n || (n <= 0 && scan_back_stop(list, id, n) == -1),
        scan_back_stop(list, id, n) >= 0 ==> scan_back_stop(list, id, n) < n,
    decreases n,
{
    if n > 0 {
        lemma_scan_back_stop_range(list, id, n - 1);
    }
}

pub proof fn lemma_first_index_range<T>(list: Seq<(u16, T)>, id: u16, from: int)
    requires
        0 <= from,
    ensures
        first_index_of(list, id, from) == -1 || (from <= first_index_of(list, id, from)
            < list.len() && list[first_index_of(list, id, from)].0 == id),
    decreases list.len() - from,
{
    if from < list.len() && list[from].0 != id {
        lemma_first_index_range(list, id, from + 1);
    }
}

/// Scanning from the back stops at the same index in two lists whose ids
/// agree position by position.
pub proof fn lemma_scan_back_stop_same_ids<T, U>(l1: Seq<(u16, T)>, l2: Seq<(u16, U)>, id: u16, n: int)
    requires
        l1.len() == l2.len(),
        n <= l1.len(),
        forall|i: int| 0 <= i < l1.len() ==> #[trigger] l1[i].0 == l2[i].0,
    ensures
        scan_back_stop(l1, id, n) == scan_back_stop(l2, id, n),
    decreases n,
{
    if n > 0 {
        lemma_scan_back_stop_same_ids(l1, l2, id, n - 1);
        assert(l1[n - 1].0 == l2[n - 1].0);
    }
}

/// The first index of an id is the same in two lists whose ids agree
/// position by position.
pub proof fn lemma_first_index_same_ids<T, U>(l1: Seq<(u16, T)>, l2: Seq<(u16, U)>, id: u16, from: int)
    requires
        l1.len() == l2.len(),
        forall|i: int| 0 <= i < l1.len() ==> #[trigger] l1[i].0 == l2[i].0,
    ensures
        first_index_of(l1, id, from) == first_index_of(l2, id, from),
    decreases l1.len() - from,
{
    if 0 <= from < l1.len() {
        assert(l1[from].0 == l2[from].0);
        lemma_first_index_same_ids(l1, l2, id, from + 1);
    }
}

/// No id occurs twice in `list`.
pub open spec fn ids_unique<T>(list: Seq<(u16, T)>) -> bool {
    forall|i: int, j: int| 0 <= i < j < list.len() ==> #[trigger] list[i].0 != #[trigger] list[j].0
}

proof fn lemma_first_index_finds<T>(list: Seq<(u16, T)>, id: u16, from: int, k: int)
    requires
        0 <= from <= k < list.len(),
        list[k].0 == id,
    ensures
        from <= first_index_of(list, id, from) <= k,
        list[first_index_of(list, id, from)].0 == id,
    decreases k - from,
{
    if list[from].0 != id {
        lemma_first_index_finds(list, id, from + 1, k);
    }
}

/// When ids are unique, the entry a scan from the back finds for `id` is
/// the one a scan from the front removes.
pub proof fn lemma_unique_id_found_from_both_ends<T>(list: Seq<(u16, T)>, id: u16)
    requires
        scan_back_finds(list, id),
        ids_unique(list),
    ensures
        first_index_of(list, id, 0) == scan_back_stop(list, id, list.len() as int),
{
    lemma_scan_back_stop_range(list, id, list.len() as int);
    let k = scan_back_stop(list, id, list.len() as int);
    lemma_first_index_finds(list, id, 0, k);
    let f = first_index_of(list, id, 0);
    if f != k {
        assert(list[f].0 == list[k].0);
    }
}

/// Whether a scan from the back finds `id` depends on the ids alone.
pub proof fn lemma_scan_back_finds_same_ids<T>(l1: Seq<(u16, T)>, l2: Seq<(u16, T)>, id: u16)
    requires
        l1.len() == l2.len(),
        forall|i: int| 0 <= i < l1.len() ==> #[trigger] l1[i].0 == l2[i].0,
    ensures
        scan_back_finds(l1, id) == scan_back_finds(l2, id),
{
    lemma_scan_back_stop_same_ids(l1, l2, id, l1.len() as int);
    lemma_scan_back_stop_range(l1, id, l1.len() as int);
    let k = scan_back_stop(l1, id, l1.len() as int);
    if k >= 0 {
        assert(l1[k].0 == l2[k].0);
    }
}

/// A scan from the back over any longer prefix than where the full scan
/// stops, stops at the same place.
proof fn lemma_scan_back_stop_suffix<T>(l: Seq<(u16, T)>, id: u16, n: int)
    requires
        0 <= n <= l.len(),
        scan_back_stop(l, id, l.len() as int) < n,
    ensures
        scan_back_stop(l, id, n) == scan_back_stop(l, id, l.len() as int),
    decreases l.len() - n,
{
    if n < l.len() {
        lemma_scan_back_stop_suffix(l, id, n + 1);
    }
}

proof fn lemma_insert_stop<T>(l: Seq<(u16, T)>, id: u16, item: T, m: int)
    requires
        -1 <= scan_back_stop(l, id, l.len() as int) < l.len(),
        scan_back_stop(l, id, l.len() as int) + 2 <= m <= l.len() + 1,
    ensures
        scan_back_stop(l.insert(scan_back_stop(l, id, l.len() as int) + 1, (id, item)), id, m)
            == scan_back_stop(l, id, l.len() as int) + 1,
    decreases m,
{
    let k = scan_back_stop(l, id, l.len() as int);
    let l2 = l.insert(k + 1, (id, item));
    if m > k + 2 {
        lemma_insert_stop(l, id, item, m - 1);
        let j = m - 2;
        lemma_scan_back_stop_suffix(l, id, j + 1);
        assert(l2[m - 1] == l[j]);
    } else {
        assert(l2[k + 1] == (id, item));
    }
}

/// After inserting `(id, item)` where a scan from the back places it, a scan
/// from the back finds `id`.
pub proof fn lemma_insert_then_finds<T>(l: Seq<(u16, T)>, id: u16, item: T)
    ensures
        scan_back_finds(l.insert(scan_back_stop(l, id, l.len() as int) + 1, (id, item)), id),
{
    lemma_scan_back_stop_range(l, id, l.len() as int);
    let k = scan_back_stop(l, id, l.len() as int);
    lemma_insert_stop(l, id, item, l.len() as int + 1);
    let l2 = l.insert(k + 1, (id, item));
    assert(l2.len() == l.len() + 1);
    assert(l2[k + 1].0 == id);
}

/// The ids of `list` rise strictly in sequence order: each comes before
/// every later one.
pub open spec fn ids_increasing<T>(list: Seq<(u16, T)>) -> bool {
    forall|i: int, j: int| 0 <= i < j < list.len() ==> spec_sequence_less_than(#[trigger] list[i].0, #[trigger] list[j].0)
}

/// How far `x` lies ahead of `base`, counting across the wrap.
pub open spec fn window_offset(x: u16, base: u16) -> int {
    if x >= base {
        x - base
    } else {
        x - base + 65536
    }
}

/// Every id of `list` lies less than half the sequence space ahead of `base`.
pub open spec fn ids_within_window<T>(list: Seq<(u16, T)>, base: u16) -> bool {
    forall|i: int| 0 <= i < list.len() ==> window_offset(#[trigger] list[i].0, base) < 32768
}

/// Within half the sequence space of a common base, sequence order is the
/// order of the distances from the base.
proof fn lemma_window_order(x: u16, y: u16, base: u16)
    requires
        window_offset(x, base) < 32768,
        window_offset(y, base) < 32768,
    ensures
        spec_sequence_less_than(x, y) <==> window_offset(x, base) < window_offset(y, base),
        window_offset(x, base) == window_offset(y, base) ==> x == y,
{
}

/// The entry a scan from the back stops at has id `id` or an id before it.
proof fn lemma_scan_back_stop_qualifies<T>(l: Seq<(u16, T)>, id: u16, n: int)
    requires
        n <= l.len(),
        scan_back_stop(l, id, n) >= 0,
    ensures
        l[scan_back_stop(l, id, n)].0 == id || spec_sequence_less_than(l[scan_back_stop(l, id, n)].0, id),
    decreases n,
{
    if n > 0 && !(l[n - 1].0 == id || spec_sequence_less_than(l[n - 1].0, id)) {
        lemma_scan_back_stop_qualifies(l, id, n - 1);
    }
}

/// A scan from the back over the first `n` entries passes over every entry
/// after the one it stops at: none has id `id` or an id before it.
proof fn lemma_scan_back_skips<T>(l: Seq<(u16, T)>, id: u16, n: int, i: int)
    requires
        n <= l.len(),
        scan_back_stop(l, id, n) < i < n,
    ensures
        !(l[i].0 == id || spec_sequence_less_than(l[i].0, id)),
    decreases n,
{
    if n > 0 && i < n - 1 {
        lemma_scan_back_skips(l, id, n - 1, i);
    }
}

/// On a list whose ids rise in sequence order, a scan from the back finds
/// `id` exactly when some entry has that id.
pub proof fn lemma_scan_back_finds_iff_present<T>(l: Seq<(u16, T)>, id: u16)
    requires
        ids_increasing(l),
    ensures
        scan_back_finds(l, id) <==> exists|i: int| 0 <= i < l.len() && #[trigger] l[i].0 == id,
{
    lemma_scan_back_stop_range(l, id, l.len() as int);
    let k = scan_back_stop(l, id, l.len() as int);
    if scan_back_finds(l, id) {
        assert(l[k].0 == id);
    }
    if exists|i: int| 0 <= i < l.len() && #[trigger] l[i].0 == id {
        let i = choose|i: int| 0 <= i < l.len() && #[trigger] l[i].0 == id;
        if k < i {
            lemma_scan_back_skips(l, id, l.len() as int, i);
        }
        if k > i && l[k].0 != id {
            lemma_scan_back_stop_qualifies(l, id, l.len() as int);
            assert(spec_sequence_less_than(l[i].0, l[k].0));
            lemma_sequence_order_asymmetric(l[k].0, id);
        }
    }
}

/// Inserting where a scan from the back places a new id keeps the ids
/// rising in sequence order, as long as the new id and every id already
/// there lie less than half the sequence space ahead of a common base.
pub proof fn lemma_insert_keeps_order<T>(l: Seq<(u16, T)>, id: u16, item: T, base: u16)
    requires
        ids_increasing(l),
        ids_within_window(l, base),
        window_offset(id, base) < 32768,
        !scan_back_finds(l, id),
    ensures
        ids_increasing(l.insert(scan_back_stop(l, id, l.len() as int) + 1, (id, item))),
        ids_within_window(l.insert(scan_back_stop(l, id, l.len() as int) + 1, (id, item)), base),
{
    lemma_scan_back_stop_range(l, id, l.len() as int);
    let k = scan_back_stop(l, id, l.len() as int);
    let l2 = l.insert(k + 1, (id, item));
    assert(l2.len() == l.len() + 1);
    // distances from the base rise along the old list
    assert forall|i: int, j: int| 0 <= i < j < l.len() implies window_offset(l[i].0, base) < window_offset(l[j].0, base) by {
        assert(spec_sequence_less_than(l[i].0, l[j].0));
        lemma_window_order(l[i].0, l[j].0, base);
    }
    // the entries up to the stop come before `id`, those after it after
    assert forall|i: int| 0 <= i < l.len() implies (i <= k ==> window_offset(l[i].0, base) < window_offset(id, base))
        && (i > k ==> window_offset(l[i].0, base) > window_offset(id, base)) by {
        lemma_window_order(l[i].0, id, base);
        if i > k {
            lemma_scan_back_skips(l, id, l.len() as int, i);
        } else {
            assert(l[k].0 != id);
            lemma_scan_back_stop_qualifies(l, id, l.len() as int);
            lemma_window_order(l[k].0, id, base);
            if i < k {
                assert(spec_sequence_less_than(l[i].0, l[k].0));
                lemma_window_order(l[i].0, l[k].0, base);
            }
        }
    }
    assert forall|i: int| 0 <= i < l2.len() implies window_offset(#[trigger] l2[i].0, base) < 32768 by {
        if i > k + 1 {
            assert(l2[i] == l[i - 1]);
        } else if i < k + 1 {
            assert(l2[i] == l[i]);
        }
    }
    assert forall|i: int, j: int| 0 <= i < j < l2.len() implies spec_sequence_less_than(#[trigger] l2[i].0, #[trigger] l2[j].0) by {
        let oi = if i <= k { i } else if i == k + 1 { -1 } else { i - 1 };
        let oj = if j <= k { j } else if j == k + 1 { -1 } else { j - 1 };
        if oi >= 0 {
            assert(l2[i] == l[oi]);
        } else {
            assert(l2[i] == (id, item));
        }
        if oj >= 0 {
            assert(l2[j] == l[oj]);
        } else {
            assert(l2[j] == (id, item));
        }
        lemma_window_order(l2[i].0, l2[j].0, base);
    }
}

/// A list of `(sequence number, item)` pairs, searched from whichever end
/// is nearer to the ids being looked up.
pub struct SequenceList<T> {
    list: Vec<(u16, T)>,
}

impl<T> View for SequenceList<T> {
    type V = Seq<(u16, T)>;

    closed spec fn view(&self) -> Seq<(u16, T)> {
        self.list@
    }
}

impl<T> SequenceList<T> {
    /// An empty list.
    pub fn new() -> (r: Self)
        ensures
            r@ == Seq::<(u16, T)>::empty(),
    {
        Self { list: Vec::new() }
    }

    /// The oldest entry, or `None` when the list is empty.
    pub fn front(&self) -> (r: Option<&(u16, T)>)
        ensures
            self@.len() == 0 ==> r is None,
            self@.len() > 0 ==> r == Some(&self@[0]),
    {
        if self.list.len() == 0 {
            None
        } else {
            Some(&self.list[0])
        }
    }

    /// Removes and returns the oldest entry.
    pub fn pop_front(&mut self) -> (r: (u16, T))
        requires
            old(self)@.len() > 0,
        ensures
            r == old(self)@[0],
            final(self)@ == old(self)@.subrange(1, old(self)@.len() as int),
    {
        let r = self.list.remove(0);
        proof {
            assert(old(self)@.remove(0) =~= old(self)@.subrange(1, old(self)@.len() as int));
        }
        r
    }

    /// Scans from the newest entry towards the oldest and reports whether an
    /// entry with id `id` is found before an entry whose id comes earlier.
    pub fn contains_scan_from_back(&self, id: &u16) -> (r: bool)
        ensures
            r == scan_back_finds(self@, *id),
    {
        let ghost l = self@;
        let mut index = self.list.len();
        loop
            invariant
                l == self@,
                index <= l.len(),
                scan_back_stop(l, *id, l.len() as int) == scan_back_stop(l, *id, index as int),
            decreases index,
        {
            if index == 0 {
                return false;
            }
            index -= 1;
            let old_id = self.list[index].0;
            if old_id == *id {
                return true;
            }
            if sequence_less_than(old_id, *id) {
                return false;
            }
        }
    }

    /// Scans from the newest entry towards the oldest for an entry with id
    /// `id`, stopping at the first entry whose id comes earlier, and gives
    /// mutable access to the item found.
    pub fn get_mut_scan_from_back<'a>(&'a mut self, id: &u16) -> (r: Option<&'a mut T>)
        ensures
            scan_back_finds(old(self)@, *id) == r is Some,
            !scan_back_finds(old(self)@, *id) ==> final(self)@ == old(self)@,
            scan_back_finds(old(self)@, *id) ==> ({
                let k = scan_back_stop(old(self)@, *id, old(self)@.len() as int);
                &&& *r->0 == old(self)@[k].1
                &&& final(self)@ == old(self)@.update(k, (*id, *final(r->0)))
            }),
    {
        let ghost l = self@;
        let mut index = self.list.len();
        loop
            invariant_except_break
                l == self@,
                index <= l.len(),
                scan_back_stop(l, *id, l.len() as int) == scan_back_stop(l, *id, index as int),
            ensures
                l == self@,
                index < l.len(),
                scan_back_stop(l, *id, l.len() as int) == index,
                l[index as int].0 == *id,
            decreases index,
        {
            if index == 0 {
                return None;
            }
            index -= 1;
            let old_id = self.list[index].0;
            if old_id == *id {
                break;
            }
            if sequence_less_than(old_id, *id) {
                return None;
            }
        }
        let entry = &mut self.list[index];
        Some(&mut entry.1)
    }

    /// Inserts `(id, item)` just after the newest entry whose id comes
    /// earlier than `id`, scanning from the back; at the front when there is
    /// none.
    pub fn insert_scan_from_back(&mut self, id: u16, item: T)
        requires
            !scan_back_finds(old(self)@, id),
        ensures
            final(self)@ == old(self)@.insert(
                scan_back_stop(old(self)@, id, old(self)@.len() as int) + 1,
                (id, item),
            ),
    {
        let ghost l = self@;
        let mut index = self.list.len();
        proof {
            lemma_scan_back_stop_range(l, id, l.len() as int);
        }
        loop
            invariant_except_break
                l == self@,
                index <= l.len(),
                scan_back_stop(l, id, l.len() as int) == scan_back_stop(l, id, index as int),
                !scan_back_finds(l, id),
            ensures
                l == self@,
                index <= l.len(),
                scan_back_stop(l, id, l.len() as int) + 1 == index,
            decreases index,
        {
            if index == 0 {
                break;
            }
            let old_id = self.list[index - 1].0;
            if old_id == id || sequence_less_than(old_id, id) {
                break;
            }
            index -= 1;
        }
        self.list.insert(index, (id, item));
    }

    /// Removes and returns the item of the oldest entry with id `id`, or
    /// `None` when no entry has that id.
    pub fn remove_scan_from_front(&mut self, id: &u16) -> (r: Option<T>)
        ensures
            first_index_of(old(self)@, *id, 0) == -1 ==> (r is None && final(self)@ == old(self)@),
            first_index_of(old(self)@, *id, 0) != -1 ==> ({
                let k = first_index_of(old(self)@, *id, 0);
                &&& r == Some(old(self)@[k].1)
                &&& final(self)@ == old(self)@.remove(k)
            }),
    {
        let ghost l = self@;
        let mut index: usize = 0;
        loop
            invariant
                l == self@,
                l == old(self)@,
                index <= l.len(),
                first_index_of(l, *id, 0) == first_index_of(l, *id, index as int),
            decreases l.len() - index,
        {
            if index >= self.list.len() {
                return None;
            }
            if self.list[index].0 == *id {
                let entry = self.list.remove(index);
                return Some(entry.1);
            }
            index += 1;
        }
    }
}

} // verus!
