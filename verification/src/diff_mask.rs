//! A component's change mask: one bit per property, set when the property
//! changed since it was last sent.

use vstd::prelude::*;

verus! {

/// `n` zero bytes.
pub open spec fn zeros(n: nat) -> Seq<u8> {
    Seq::new(n, |i: int| 0u8)
}

/// The bit of property `index` within its byte.
pub open spec fn bit_of(index: u8) -> u8 {
    (1u8 << (index % 8)) as u8
}

/// Whether property `index` is marked in `m`, or `None` past its end.
pub open spec fn mask_bit(m: Seq<u8>, index: u8) -> Option<bool> {
    if (index / 8) < m.len() {
        Some(m[(index / 8) as int] & bit_of(index) != 0)
    } else {
        None
    }
}

/// `m` with property `index` marked (`value`) or unmarked; unchanged past
/// its end.
pub open spec fn mask_set_bit(m: Seq<u8>, index: u8, value: bool) -> Seq<u8> {
    if (index / 8) < m.len() {
        let b = m[(index / 8) as int];
        m.update((index / 8) as int, if value { b | bit_of(index) } else { b & !bit_of(index) })
    } else {
        m
    }
}

/// Every property marked in `a` or `b`; `a` unchanged when the lengths
/// differ.
pub open spec fn mask_or(a: Seq<u8>, b: Seq<u8>) -> Seq<u8> {
    if a.len() != b.len() {
        a
    } else {
        Seq::new(a.len(), |i: int| a[i] | b[i])
    }
}

/// The properties marked in `a` and not in `b`; `a` unchanged when the
/// lengths differ.
pub open spec fn mask_nand(a: Seq<u8>, b: Seq<u8>) -> Seq<u8> {
    if a.len() != b.len() {
        a
    } else {
        Seq::new(a.len(), |i: int| a[i] & !b[i])
    }
}

/// No property is marked.
pub open spec fn mask_is_clear(m: Seq<u8>) -> bool {
    forall|i: int| 0 <= i < m.len() ==> m[i] == 0
}

/// Every property marked in `a` is marked in `b` (same length).
pub open spec fn mask_within(a: Seq<u8>, b: Seq<u8>) -> bool {
    &&& a.len() == b.len()
    &&& forall|i: int| 0 <= i < a.len() ==> #[trigger] (a[i] & !b[i]) == 0
}

/// A change mask of whole bytes.
pub struct DiffMask {
    mask: Vec<u8>,
}

impl View for DiffMask {
    type V = Seq<u8>;

    closed spec fn view(&self) -> Seq<u8> {
        self.mask@
    }
}

impl DiffMask {
    /// A clear mask of `bytes` bytes.
    pub fn new(bytes: u8) -> (r: DiffMask)
        ensures
            r@ == zeros(bytes as nat),
    {
        let mut mask: Vec<u8> = Vec::new();
        let mut i: u8 = 0;
        while i < bytes
            invariant
                i <= bytes,
                mask@ == zeros(i as nat),
            decreases bytes - i,
        {
            mask.push(0u8);
            i += 1;
            proof {
                assert(mask@ =~= zeros(i as nat));
            }
        }
        DiffMask { mask }
    }

    /// The mask whose bytes are `bytes`.
    pub fn from_bytes(bytes: Vec<u8>) -> (r: DiffMask)
        ensures
            r@ == bytes@,
    {
        DiffMask { mask: bytes }
    }

    /// The mask's bytes.
    pub fn into_bytes(self) -> (r: Vec<u8>)
        ensures
            r@ == self@,
    {
        self.mask
    }

    /// A mask with the same marks.
    pub fn duplicate(&self) -> (r: DiffMask)
        ensures
            r@ == self@,
    {
        let mut mask: Vec<u8> = Vec::new();
        let mut i: usize = 0;
        while i < self.mask.len()
            invariant
                i <= self.mask@.len(),
                mask@ == self.mask@.take(i as int),
            decreases self.mask@.len() - i,
        {
            mask.push(self.mask[i]);
            i += 1;
            proof {
                assert(mask@ =~= self.mask@.take(i as int));
            }
        }
        proof {
            assert(self.mask@.take(self.mask@.len() as int) =~= self.mask@);
        }
        DiffMask { mask }
    }

    /// The number of bytes.
    pub fn byte_number(&self) -> (r: usize)
        ensures
            r == self@.len(),
    {
        self.mask.len()
    }

    /// Byte `index`.
    pub fn byte(&self, index: usize) -> (r: u8)
        requires
            index < self@.len(),
        ensures
            r == self@[index as int],
    {
        self.mask[index]
    }

    /// Whether property `index` is marked, or `None` past the end.
    pub fn bit(&self, index: u8) -> (r: Option<bool>)
        ensures
            r == mask_bit(self@, index),
    {
        let byte_index = (index / 8) as usize;
        if byte_index < self.mask.len() {
            let bit: u8 = 1u8 << (index % 8);
            Some(self.mask[byte_index] & bit != 0)
        } else {
            None
        }
    }

    /// Marks (`value`) or unmarks property `index`; past the end nothing
    /// changes.
    pub fn set_bit(&mut self, index: u8, value: bool)
        ensures
            final(self)@ == mask_set_bit(old(self)@, index, value),
    {
        let byte_index = (index / 8) as usize;
        if byte_index < self.mask.len() {
            let bit: u8 = 1u8 << (index % 8);
            let b = self.mask[byte_index];
            let nb = if value { b | bit } else { b & !bit };
            self.mask.set(byte_index, nb);
        }
    }

    /// Unmarks every property.
    pub fn clear(&mut self)
        ensures
            final(self)@ == zeros(old(self)@.len()),
    {
        let mut i: usize = 0;
        while i < self.mask.len()
            invariant
                i <= self.mask@.len(),
                self.mask@.len() == old(self).mask@.len(),
                forall|j: int| 0 <= j < i ==> self.mask@[j] == 0,
            decreases self.mask@.len() - i,
        {
            self.mask.set(i, 0u8);
            i += 1;
        }
        proof {
            assert(self.mask@ =~= zeros(old(self)@.len()));
        }
    }

    /// Whether no property is marked.
    pub fn is_clear(&self) -> (r: bool)
        ensures
            r == mask_is_clear(self@),
    {
        let mut i: usize = 0;
        while i < self.mask.len()
            invariant
                i <= self.mask@.len(),
                forall|j: int| 0 <= j < i ==> self.mask@[j] == 0,
            decreases self.mask@.len() - i,
        {
            if self.mask[i] != 0 {
                return false;
            }
            i += 1;
        }
        true
    }

    /// Takes over the marks of `other`; nothing changes when the lengths
    /// differ.
    pub fn copy_contents(&mut self, other: &DiffMask)
        ensures
            final(self)@ == if old(self)@.len() == other@.len() { other@ } else { old(self)@ },
    {
        if other.mask.len() != self.mask.len() {
            return;
        }
        let mut i: usize = 0;
        while i < self.mask.len()
            invariant
                i <= self.mask@.len(),
                self.mask@.len() == old(self).mask@.len(),
                other.mask@.len() == old(self).mask@.len(),
                forall|j: int| 0 <= j < i ==> self.mask@[j] == other.mask@[j],
            decreases self.mask@.len() - i,
        {
            self.mask.set(i, other.mask[i]);
            i += 1;
        }
        proof {
            assert(self.mask@ =~= other.mask@);
        }
    }

    /// Keeps only the properties not marked in `other`; nothing changes
    /// when the lengths differ.
    pub fn nand(&mut self, other: &DiffMask)
        ensures
            final(self)@ == mask_nand(old(self)@, other@),
    {
        if other.mask.len() != self.mask.len() {
            return;
        }
        let mut i: usize = 0;
        while i < self.mask.len()
            invariant
                i <= self.mask@.len(),
                self.mask@.len() == old(self).mask@.len(),
                other.mask@.len() == old(self).mask@.len(),
                forall|j: int| 0 <= j < i ==> self.mask@[j] == (old(self).mask@[j] & !other.mask@[j]),
                forall|j: int| i <= j < self.mask@.len() ==> self.mask@[j] == old(self).mask@[j],
            decreases self.mask@.len() - i,
        {
            let b = self.mask[i] & !other.mask[i];
            self.mask.set(i, b);
            i += 1;
        }
        proof {
            assert(self.mask@ =~= mask_nand(old(self)@, other@));
        }
    }

    /// Also marks every property marked in `other`; nothing changes when
    /// the lengths differ.
    pub fn or(&mut self, other: &DiffMask)
        ensures
            final(self)@ == mask_or(old(self)@, other@),
    {
        if other.mask.len() != self.mask.len() {
            return;
        }
        let mut i: usize = 0;
        while i < self.mask.len()
            invariant
                i <= self.mask@.len(),
                self.mask@.len() == old(self).mask@.len(),
                other.mask@.len() == old(self).mask@.len(),
                forall|j: int| 0 <= j < i ==> self.mask@[j] == (old(self).mask@[j] | other.mask@[j]),
                forall|j: int| i <= j < self.mask@.len() ==> self.mask@[j] == old(self).mask@[j],
            decreases self.mask@.len() - i,
        {
            let b = self.mask[i] | other.mask[i];
            self.mask.set(i, b);
            i += 1;
        }
        proof {
            assert(self.mask@ =~= mask_or(old(self)@, other@));
        }
    }
}

/// Marking a property and reading it back: the property reads as marked
/// (or unmarked), and every other property reads as before.
pub proof fn lemma_set_bit_reads_back(m: Seq<u8>, index: u8, value: bool, other: u8)
    requires
        (index / 8) < m.len(),
    ensures
        mask_bit(mask_set_bit(m, index, value), index) == Some(value),
        other != index ==> mask_bit(mask_set_bit(m, index, value), other) == mask_bit(m, other),
{
    let b = m[(index / 8) as int];
    let s = (index % 8) as u8;
    assert((b | ((1u8 << s) as u8)) & ((1u8 << s) as u8) != 0) by (bit_vector)
        requires s < 8;
    assert((b & !((1u8 << s) as u8)) & ((1u8 << s) as u8) == 0) by (bit_vector)
        requires s < 8;
    if other != index && (other / 8) < m.len() {
        let t = (other % 8) as u8;
        if other / 8 == index / 8 {
            assert(s != t);
            assert(((b | ((1u8 << s) as u8)) & ((1u8 << t) as u8) != 0) == (b & ((1u8 << t) as u8) != 0))
                by (bit_vector)
                requires s < 8, t < 8, s != t;
            assert(((b & !((1u8 << s) as u8)) & ((1u8 << t) as u8) != 0) == (b & ((1u8 << t) as u8) != 0))
                by (bit_vector)
                requires s < 8, t < 8, s != t;
        }
    }
}

/// Or-ing in a mask of the same length keeps every mark and adds no mark
/// the other mask does not hold.
pub proof fn lemma_or_bounds(a: Seq<u8>, b: Seq<u8>)
    requires
        a.len() == b.len(),
    ensures
        mask_within(a, mask_or(a, b)),
        forall|i: int| 0 <= i < a.len() ==> #[trigger] mask_or(a, b)[i] == (a[i] | b[i]),
{
    assert forall|i: int| 0 <= i < a.len() implies #[trigger] (a[i] & !mask_or(a, b)[i]) == 0 by {
        let x = a[i];
        let y = b[i];
        assert(x & !(x | y) == 0) by (bit_vector);
    }
}

/// What survives a nand is within what was there.
pub proof fn lemma_nand_within(a: Seq<u8>, b: Seq<u8>)
    ensures
        mask_within(mask_nand(a, b), a),
{
    if a.len() == b.len() {
        assert forall|i: int| 0 <= i < a.len() implies #[trigger] (mask_nand(a, b)[i] & !a[i]) == 0 by {
            let x = a[i];
            let y = b[i];
            assert((x & !y) & !x == 0) by (bit_vector);
        }
    } else {
        assert forall|i: int| 0 <= i < a.len() implies #[trigger] (mask_nand(a, b)[i] & !a[i]) == 0 by {
            let x = a[i];
            assert(x & !x == 0) by (bit_vector);
        }
    }
}

/// Whether bit `b` of byte `i` of `m` is marked.
pub open spec fn has_bit(m: Seq<u8>, i: int, b: u8) -> bool {
    (m[i] & ((1u8 << b) as u8)) != 0
}

/// Every mask holds its own marks.
pub proof fn lemma_within_refl(a: Seq<u8>)
    ensures
        mask_within(a, a),
{
    assert forall|i: int| 0 <= i < a.len() implies #[trigger] (a[i] & !a[i]) == 0 by {
        let x = a[i];
        assert(x & !x == 0) by (bit_vector);
    }
}

/// Holding marks is transitive.
pub proof fn lemma_within_trans(a: Seq<u8>, b: Seq<u8>, c: Seq<u8>)
    requires
        mask_within(a, b),
        mask_within(b, c),
    ensures
        mask_within(a, c),
{
    assert forall|i: int| 0 <= i < a.len() implies #[trigger] (a[i] & !c[i]) == 0 by {
        let x = a[i];
        let y = b[i];
        let z = c[i];
        assert((x & !y) == 0 && (y & !z) == 0 ==> (x & !z) == 0) by (bit_vector);
        assert((a[i] & !b[i]) == 0);
        assert((b[i] & !c[i]) == 0);
    }
}

/// A mark of `a` is a mark of any mask holding `a`'s marks.
pub proof fn lemma_within_bit(a: Seq<u8>, b: Seq<u8>, i: int, bit: u8)
    requires
        mask_within(a, b),
        0 <= i < a.len(),
        bit < 8,
        has_bit(a, i, bit),
    ensures
        has_bit(b, i, bit),
{
    let x = a[i];
    let y = b[i];
    assert((x & !y) == 0);
    assert((x & !y) == 0 && (x & ((1u8 << bit) as u8)) != 0 ==> (y & ((1u8 << bit) as u8)) != 0) by (bit_vector)
        requires bit < 8;
}

/// A mark of `a` or-ed with `b` is a mark of one of them.
pub proof fn lemma_or_bit(a: Seq<u8>, b: Seq<u8>, i: int, bit: u8)
    requires
        a.len() == b.len(),
        0 <= i < a.len(),
        bit < 8,
        has_bit(mask_or(a, b), i, bit),
    ensures
        has_bit(a, i, bit) || has_bit(b, i, bit),
{
    let x = a[i];
    let y = b[i];
    assert(mask_or(a, b)[i] == (x | y));
    assert(((x | y) & ((1u8 << bit) as u8)) != 0 ==> (x & ((1u8 << bit) as u8)) != 0 || (y & ((1u8 << bit) as u8)) != 0)
        by (bit_vector)
        requires bit < 8;
}

} // verus!
