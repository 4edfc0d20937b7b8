//! Unbounded bit string backing [`crate::version_vector::BitmappedVersion`].
//!
//! Bit `i` of a `Bitmap` stands for the event number `base + 1 + i` of one
//! actor. The store keeps one `bool` per bit and is always trimmed: the last
//! stored element, when there is one, is `true`. Trimming makes the
//! representation canonical, so two bitmaps holding the same set of bits are
//! equal element by element.

use vstd::prelude::*;

verus! {

/// Whether bit `i` of the 32-bit word `x` is set.
pub open spec fn u32_bit(x: u32, i: int) -> bool {
    0 <= i < 32 && (x >> (i as u32)) & 1 == 1
}

/// An unbounded string of bits in trimmed form.
#[derive(Clone, Debug)]
pub struct Bitmap {
    bits: Vec<bool>,
}

impl Bitmap {
    /// The stored bits, lowest index first.
    pub closed spec fn seq(&self) -> Seq<bool> {
        self.bits@
    }

    /// Whether bit `i` is set. Bits outside the stored range are clear.
    pub open spec fn bit(&self, i: int) -> bool {
        0 <= i < self.seq().len() && self.seq()[i]
    }

    /// Trimmed form: the last stored element, when present, is `true`.
    pub open spec fn wf(&self) -> bool {
        self.seq().len() > 0 ==> self.seq()[self.seq().len() - 1]
    }

    /// The empty bitmap: every bit clear.
    pub fn new() -> (r: Self)
        ensures
            r.wf(),
            r.seq().len() == 0,
            forall|i: int| !r.bit(i),
    {
        Bitmap { bits: Vec::new() }
    }

    /// The bitmap holding exactly the given bits, which must come trimmed.
    pub fn from_bools(bits: Vec<bool>) -> (r: Self)
        requires
            bits@.len() > 0 ==> bits@[bits@.len() - 1],
        ensures
            r.wf(),
            r.seq() == bits@,
    {
        Bitmap { bits }
    }

    /// The bitmap holding the bits of a 32-bit word.
    pub fn from_u32(x: u32) -> (r: Self)
        ensures
            r.wf(),
            forall|i: int| r.bit(i) == u32_bit(x, i),
    {
        let mut bits: Vec<bool> = Vec::new();
        let mut i: u32 = 0;
        while i < 32
            invariant
                i <= 32,
                bits@.len() == i,
                forall|j: int| 0 <= j < i ==> bits@[j] == u32_bit(x, j),
            decreases 32 - i,
        {
            bits.push((x >> i) & 1 == 1);
            i = i + 1;
        }
        let ghost full = bits@;
        while bits.len() > 0 && !bits[bits.len() - 1]
            invariant
                bits@.len() <= full.len(),
                bits@ == full.take(bits@.len() as int),
                forall|j: int| bits@.len() <= j < full.len() ==> !full[j],
            decreases bits@.len(),
        {
            let ghost n = bits@.len() as int;
            proof {
                assert(bits@[n - 1] == full[n - 1]);
            }
            bits.pop();
            proof {
                assert(bits@ =~= full.take(n - 1));
            }
        }
        let r = Bitmap { bits };
        proof {
            assert forall|i: int| r.bit(i) == u32_bit(x, i) by {
                if 0 <= i < r.seq().len() {
                    assert(r.seq()[i] == full[i]);
                    assert(full[i] == u32_bit(x, i));
                } else if 0 <= i < full.len() {
                    assert(!full[i]);
                    assert(full[i] == u32_bit(x, i));
                }
            }
        }
        r
    }

    /// How many bits are stored.
    pub fn size(&self) -> (r: usize)
        ensures
            r == self.seq().len(),
    {
        self.bits.len()
    }

    /// Reads bit `i`.
    pub fn get(&self, i: usize) -> (r: bool)
        ensures
            r == self.bit(i as int),
    {
        if i < self.bits.len() {
            self.bits[i]
        } else {
            false
        }
    }

    /// Whether no bit is set.
    pub fn is_zero(&self) -> (r: bool)
        requires
            self.wf(),
        ensures
            r == (self.seq().len() == 0),
            r == forall|i: int| !self.bit(i),
    {
        proof {
            if self.seq().len() > 0 {
                assert(self.bit(self.seq().len() - 1));
            }
        }
        self.bits.len() == 0
    }

    /// Sets bit `i`.
    pub fn set(&mut self, i: usize)
        requires
            old(self).wf(),
        ensures
            final(self).wf(),
            forall|j: int| final(self).bit(j) == (old(self).bit(j) || j == i),
            final(self).seq().len() >= i + 1,
            final(self).seq().len() >= old(self).seq().len(),
            final(self).seq().len() <= old(self).seq().len() || final(self).seq().len() == i + 1,
    {
        if i < self.bits.len() {
            self.bits.set(i, true);
        } else {
            let ghost pre = self.bits@;
            while self.bits.len() < i
                invariant
                    pre.len() <= i,
                    pre.len() <= self.bits@.len() <= i,
                    self.bits@.take(pre.len() as int) == pre,
                    forall|j: int| pre.len() <= j < self.bits@.len() ==> !self.bits@[j],
                decreases i - self.bits@.len(),
            {
                self.bits.push(false);
            }
            self.bits.push(true);
            proof {
                assert forall|j: int| self.bit(j) == (old(self).bit(j) || j == i) by {
                    if 0 <= j < pre.len() {
                        assert(self.bits@[j] == pre[j]);
                    }
                }
            }
        }
    }

    /// Discards the lowest `k` bits, shifting the rest down.
    pub fn shift_down(&mut self, k: usize)
        requires
            old(self).wf(),
        ensures
            final(self).wf(),
            forall|j: int| 0 <= j ==> final(self).bit(j) == old(self).bit(j + k),
            final(self).seq().len() <= old(self).seq().len(),
            final(self).seq().len() + k <= old(self).seq().len() || final(self).seq().len() == 0,
    {
        if k >= self.bits.len() {
            proof {
                if self.seq().len() > 0 {
                    assert(self.bit(self.seq().len() - 1));
                }
            }
            self.bits = Vec::new();
        } else {
            let mut out: Vec<bool> = Vec::new();
            let mut idx: usize = k;
            while idx < self.bits.len()
                invariant
                    k <= idx <= self.bits@.len(),
                    out@.len() == idx - k,
                    forall|j: int| 0 <= j < out@.len() ==> out@[j] == self.bits@[j + k],
                decreases self.bits@.len() - idx,
            {
                out.push(self.bits[idx]);
                idx = idx + 1;
            }
            self.bits = out;
        }
    }

    /// Ors `other`, shifted down by `k`, into `self`.
    pub fn or_shifted(&mut self, other: &Bitmap, k: usize)
        requires
            old(self).wf(),
            other.wf(),
        ensures
            final(self).wf(),
            forall|j: int| 0 <= j ==> final(self).bit(j) == (old(self).bit(j) || other.bit(j + k)),
            final(self).seq().len() <= old(self).seq().len() || final(self).seq().len() + k
                <= other.seq().len(),
    {
        let mut shifted: Vec<bool> = Vec::new();
        let mut idx: usize = k;
        while idx < other.bits.len()
            invariant
                k <= idx,
                idx > k ==> idx <= other.bits@.len(),
                shifted@.len() == idx - k,
                forall|j: int| 0 <= j < shifted@.len() ==> shifted@[j] == other.bits@[j + k],
            decreases other.bits@.len() - idx,
        {
            shifted.push(other.bits[idx]);
            idx = idx + 1;
        }
        let slen = self.bits.len();
        let hlen = shifted.len();
        let m = if slen > hlen {
            slen
        } else {
            hlen
        };
        let mut out: Vec<bool> = Vec::new();
        let mut j: usize = 0;
        while j < m
            invariant
                j <= m,
                m == if self.bits@.len() > shifted@.len() {
                    self.bits@.len()
                } else {
                    shifted@.len()
                },
                out@.len() == j,
                forall|jj: int|
                    0 <= jj < j ==> out@[jj] == ((jj < self.bits@.len() && self.bits@[jj]) || (jj
                        < shifted@.len() && shifted@[jj])),
            decreases m - j,
        {
            let a = if j < self.bits.len() {
                self.bits[j]
            } else {
                false
            };
            let b = if j < shifted.len() {
                shifted[j]
            } else {
                false
            };
            out.push(a || b);
            j = j + 1;
        }
        proof {
            if m > 0 {
                if self.bits@.len() == m {
                    assert(self.bits@[m - 1]);
                } else {
                    assert(shifted@.len() == m);
                    assert(shifted@[m - 1] == other.bits@[m - 1 + k]);
                    assert(m - 1 + k == other.bits@.len() - 1);
                    assert(other.bits@[other.bits@.len() - 1]);
                }
                assert(out@[m - 1]);
            }
        }
        self.bits = out;
        proof {
            assert forall|j: int| 0 <= j implies self.bit(j) == (old(self).bit(j) || other.bit(
                j + k,
            )) by {
                if j < m {
                    assert(out@[j] == ((j < old(self).seq().len() && old(self).seq()[j]) || (j
                        < shifted@.len() && shifted@[j])));
                    if j < shifted@.len() {
                        assert(shifted@[j] == other.bits@[j + k]);
                    }
                } else {
                    assert(j >= shifted@.len());
                }
            }
        }
    }

    /// An elementwise copy.
    pub fn duplicate(&self) -> (r: Self)
        ensures
            r.seq() == self.seq(),
    {
        let mut bits: Vec<bool> = Vec::new();
        let mut i: usize = 0;
        while i < self.bits.len()
            invariant
                i <= self.bits@.len(),
                bits@ == self.bits@.take(i as int),
            decreases self.bits@.len() - i,
        {
            bits.push(self.bits[i]);
            proof {
                assert(bits@ =~= self.bits@.take(i + 1));
            }
            i = i + 1;
        }
        proof {
            assert(bits@ =~= self.bits@);
        }
        Bitmap { bits }
    }

    /// How many set bits stand at the bottom, before the first clear bit.
    pub fn trailing_ones(&self) -> (r: usize)
        ensures
            0 <= r <= self.seq().len(),
            forall|j: int| 0 <= j < r ==> self.bit(j),
            r < self.seq().len() ==> !self.bit(r as int),
    {
        let mut i: usize = 0;
        while i < self.bits.len() && self.bits[i]
            invariant
                i <= self.bits@.len(),
                forall|j: int| 0 <= j < i ==> self.bits@[j],
            decreases self.bits@.len() - i,
        {
            i = i + 1;
        }
        i
    }

    /// Two trimmed bitmaps with the same bits store the same elements.
    pub proof fn lemma_canonical(a: &Bitmap, b: &Bitmap)
        requires
            a.wf(),
            b.wf(),
            forall|i: int| a.bit(i) == b.bit(i),
        ensures
            a.seq() == b.seq(),
    {
        if a.seq().len() < b.seq().len() {
            assert(b.bit(b.seq().len() - 1));
            assert(a.bit(b.seq().len() - 1));
            assert(false);
        }
        if b.seq().len() < a.seq().len() {
            assert(a.bit(a.seq().len() - 1));
            assert(b.bit(a.seq().len() - 1));
            assert(false);
        }
        assert forall|i: int| 0 <= i < a.seq().len() implies a.seq()[i] == b.seq()[i] by {
            assert(a.bit(i) == b.bit(i));
        }
        assert(a.seq() =~= b.seq());
    }
}

impl PartialEq for Bitmap {
    /// Whether the two bitmaps hold the same bits.
    fn eq(&self, other: &Self) -> (r: bool) {
        if self.bits.len() != other.bits.len() {
            return false;
        }
        let mut i: usize = 0;
        while i < self.bits.len()
            invariant
                self.bits@.len() == other.bits@.len(),
                i <= self.bits@.len(),
                forall|j: int| 0 <= j < i ==> self.bits@[j] == other.bits@[j],
            decreases self.bits@.len() - i,
        {
            if self.bits[i] != other.bits[i] {
                return false;
            }
            i = i + 1;
        }
        proof {
            assert(self.bits@ =~= other.bits@);
        }
        true
    }
}

impl vstd::std_specs::cmp::PartialEqSpecImpl for Bitmap {
    open spec fn obeys_eq_spec() -> bool {
        true
    }

    open spec fn eq_spec(&self, other: &Self) -> bool {
        self.seq() == other.seq()
    }
}

impl Eq for Bitmap {}

} // verus!
