//! The causal data types: version vectors, bitmapped version vectors and
//! dotted causal containers.
//!
//! Every type stores its map as a vector of pairs in strictly increasing key
//! order (see [`crate::assoc`]), and every bitmapped version is kept
//! normalized and trimmed, so equal causal values are equal element by
//! element.

use vstd::prelude::*;

use crate::assoc::{
    assoc_get, assoc_get_dot, dot_lt, lemma_assoc_canonical, lemma_assoc_get,
    lemma_assoc_get_dot, lemma_assoc_insert, lemma_assoc_insert_dot, lemma_assoc_keys_canonical,
    lemma_assoc_remove, lemma_assoc_update, lemma_assoc_update_dot, sorted_by_dot, sorted_by_id,
};
use crate::bitmap::Bitmap;
use crate::{Id, Version};
use vstd::std_specs::cmp::PartialEqSpec;

verus! {

/// The larger of two versions.
pub open spec fn max64(a: u64, b: u64) -> u64 {
    if a >= b {
        a
    } else {
        b
    }
}

/// How two optional versions combine under elementwise maximum.
pub open spec fn merged_version(a: Option<Version>, b: Option<Version>) -> Option<Version> {
    match (a, b) {
        (None, None) => None,
        (Some(x), None) => Some(x),
        (None, Some(y)) => Some(y),
        (Some(x), Some(y)) => Some(max64(x, y)),
    }
}

/// A dense causal frontier: for each actor, every event up to the recorded
/// version has been observed.
#[derive(Clone, Debug)]
pub struct VersionVector {
    entries: Vec<(Id, Version)>,
}

impl VersionVector {
    /// The stored pairs, in increasing actor order.
    pub closed spec fn entries_seq(&self) -> Seq<(Id, Version)> {
        self.entries@
    }

    /// Entries are sorted strictly by actor id.
    pub open spec fn wf(&self) -> bool {
        sorted_by_id(self.entries_seq())
    }

    /// The version recorded for `id`, when there is one.
    pub open spec fn get_opt(&self, id: Id) -> Option<Version> {
        assoc_get(self.entries_seq(), id)
    }

    /// The frontier for `id`: the recorded version, 0 when none is recorded.
    pub open spec fn frontier(&self, id: Id) -> Version {
        match self.get_opt(id) {
            Some(v) => v,
            None => 0,
        }
    }

    /// An empty version vector.
    pub fn new() -> (r: Self)
        ensures
            r.wf(),
            r.entries_seq().len() == 0,
            forall|k: Id| (#[trigger] r.get_opt(k)) is None,
    {
        let r = VersionVector { entries: Vec::new() };
        proof {
            lemma_assoc_get(r.entries_seq());
        }
        r
    }

    /// How many actors are recorded.
    pub fn len(&self) -> (r: usize)
        ensures
            r == self.entries_seq().len(),
    {
        self.entries.len()
    }

    /// The pair at position `i`.
    pub fn entry_at(&self, i: usize) -> (r: (Id, Version))
        requires
            i < self.entries_seq().len(),
        ensures
            r == self.entries_seq()[i as int],
    {
        self.entries[i]
    }

    /// An elementwise copy.
    pub fn duplicate(&self) -> (r: Self)
        ensures
            r.entries_seq() == self.entries_seq(),
    {
        let mut entries: Vec<(Id, Version)> = Vec::new();
        let mut i: usize = 0;
        while i < self.entries.len()
            invariant
                i <= self.entries@.len(),
                entries@ == self.entries@.take(i as int),
            decreases self.entries@.len() - i,
        {
            entries.push(self.entries[i]);
            proof {
                assert(entries@ =~= self.entries@.take(i + 1));
            }
            i = i + 1;
        }
        proof {
            assert(entries@ =~= self.entries@);
        }
        VersionVector { entries }
    }

    /// The position of the first entry whose actor is not below `id`.
    fn position(&self, id: Id) -> (r: usize)
        requires
            self.wf(),
        ensures
            r <= self.entries_seq().len(),
            forall|j: int| 0 <= j < r ==> self.entries_seq()[j].0 < id,
            r < self.entries_seq().len() ==> self.entries_seq()[r as int].0 >= id,
    {
        let mut i: usize = 0;
        while i < self.entries.len() && self.entries[i].0 < id
            invariant
                i <= self.entries@.len(),
                forall|j: int| 0 <= j < i ==> self.entries@[j].0 < id,
            decreases self.entries@.len() - i,
        {
            i = i + 1;
        }
        i
    }

    /// The version recorded for `id`.
    pub fn get(&self, id: Id) -> (r: Option<Version>)
        requires
            self.wf(),
        ensures
            r == self.get_opt(id),
    {
        let i = self.position(id);
        proof {
            lemma_assoc_get(self.entries_seq());
        }
        if i < self.entries.len() && self.entries[i].0 == id {
            Some(self.entries[i].1)
        } else {
            proof {
                if self.get_opt(id) is Some {
                    let j = choose|j: int|
                        0 <= j < self.entries_seq().len() && self.entries_seq()[j].0 == id;
                    assert(false);
                }
            }
            None
        }
    }

    /// The frontier for `id`: the recorded version, 0 when none is recorded.
    pub fn get_or_zero(&self, id: Id) -> (r: Version)
        requires
            self.wf(),
        ensures
            r == self.frontier(id),
    {
        match self.get(id) {
            Some(v) => v,
            None => 0,
        }
    }

    /// Removes the entry for `id`, returning the recorded version.
    pub fn remove(&mut self, id: Id) -> (r: Option<Version>)
        requires
            old(self).wf(),
        ensures
            final(self).wf(),
            r == old(self).get_opt(id),
            final(self).get_opt(id) is None,
            forall|k: Id| k != id ==> final(self).get_opt(k) == #[trigger] old(self).get_opt(k),
    {
        let i = self.position(id);
        proof {
            lemma_assoc_get(self.entries_seq());
        }
        if i < self.entries.len() && self.entries[i].0 == id {
            let ghost pre = self.entries@;
            let e = self.entries.remove(i);
            proof {
                lemma_assoc_remove(pre, i as int);
            }
            Some(e.1)
        } else {
            proof {
                if self.get_opt(id) is Some {
                    let j = choose|j: int|
                        0 <= j < self.entries_seq().len() && self.entries_seq()[j].0 == id;
                    assert(false);
                }
            }
            None
        }
    }

    /// Records that `id` reached `version`, keeping the larger of the
    /// recorded and the given version.
    pub fn add(&mut self, id: Id, version: Version)
        requires
            old(self).wf(),
        ensures
            final(self).wf(),
            final(self).get_opt(id) == Some(max64(version, old(self).frontier(id))),
            forall|k: Id| k != id ==> final(self).get_opt(k) == #[trigger] old(self).get_opt(k),
    {
        let i = self.position(id);
        proof {
            lemma_assoc_get(self.entries_seq());
        }
        if i < self.entries.len() && self.entries[i].0 == id {
            if self.entries[i].1 < version {
                let ghost pre = self.entries@;
                self.entries.set(i, (id, version));
                proof {
                    lemma_assoc_update(pre, i as int, version);
                }
            }
        } else {
            proof {
                if self.get_opt(id) is Some {
                    let j = choose|j: int|
                        0 <= j < self.entries_seq().len() && self.entries_seq()[j].0 == id;
                    assert(false);
                }
            }
            let ghost pre = self.entries@;
            self.entries.insert(i, (id, version));
            proof {
                lemma_assoc_insert(pre, i as int, id, version);
            }
        }
    }

    /// Merges `other` in: the union of the actors, each at the larger of the
    /// two recorded versions.
    pub fn merge(&mut self, other: &VersionVector)
        requires
            old(self).wf(),
            other.wf(),
        ensures
            final(self).wf(),
            forall|k: Id| #[trigger]
                final(self).get_opt(k) == merged_version(old(self).get_opt(k), other.get_opt(k)),
    {
        let ghost sb = other.entries@;
        let mut j: usize = 0;
        proof {
            assert(sb.take(0) =~= Seq::<(Id, Version)>::empty());
        }
        while j < other.entries.len()
            invariant
                other.entries@ == sb,
                sorted_by_id(sb),
                j <= sb.len(),
                self.wf(),
                forall|k: Id| #[trigger]
                    self.get_opt(k) == merged_version(
                        old(self).get_opt(k),
                        assoc_get(sb.take(j as int), k),
                    ),
            decreases sb.len() - j,
        {
            let (id, vb) = other.entries[j];
            let ghost mid = *self;
            self.add(id, vb);
            proof {
                lemma_assoc_get(sb.take(j as int));
                lemma_assoc_insert(sb.take(j as int), j as int, id, vb);
                assert(sb.take(j + 1) =~= sb.take(j as int).insert(j as int, (id, vb)));
                if assoc_get(sb.take(j as int), id) is Some {
                    let m = choose|m: int| 0 <= m < j && sb.take(j as int)[m].0 == id;
                    assert(sb[m].0 < sb[j as int].0);
                    assert(false);
                }
                assert forall|k: Id| #[trigger]
                    self.get_opt(k) == merged_version(
                        old(self).get_opt(k),
                        assoc_get(sb.take(j + 1), k),
                    ) by {
                    if k == id {
                        assert(mid.get_opt(k) == merged_version(
                            old(self).get_opt(k),
                            assoc_get(sb.take(j as int), k),
                        ));
                        assert(assoc_get(sb.take(j + 1), k) == Some(vb));
                        assert(self.get_opt(id) == Some(max64(vb, mid.frontier(id))));
                    } else {
                        assert(self.get_opt(k) == mid.get_opt(k));
                        assert(assoc_get(sb.take(j + 1), k) == assoc_get(sb.take(j as int), k));
                        assert(mid.get_opt(k) == merged_version(
                            old(self).get_opt(k),
                            assoc_get(sb.take(j as int), k),
                        ));
                    }
                }
            }
            j = j + 1;
        }
        proof {
            assert(sb.take(sb.len() as int) =~= sb);
        }
    }

    /// The smallest recorded version, over all actors.
    pub fn min_version(&self) -> (r: Option<Version>)
        requires
            self.wf(),
        ensures
            r is None <==> self.entries_seq().len() == 0,
            match r {
                Some(m) => (exists|k: Id| #[trigger] self.get_opt(k) == Some(m)) && forall|k: Id|
                    #[trigger] self.get_opt(k) is Some ==> m <= self.frontier(k),
                None => true,
            },
    {
        proof {
            lemma_assoc_get(self.entries_seq());
        }
        if self.entries.len() == 0 {
            return None;
        }
        let mut best: Version = self.entries[0].1;
        let mut i: usize = 1;
        while i < self.entries.len()
            invariant
                self.wf(),
                1 <= i <= self.entries@.len(),
                exists|l: int| 0 <= l < i && self.entries@[l].1 == best,
                forall|l: int| 0 <= l < i ==> best <= self.entries@[l].1,
            decreases self.entries@.len() - i,
        {
            if self.entries[i].1 < best {
                best = self.entries[i].1;
            }
            i = i + 1;
        }
        proof {
            let l = choose|l: int|
                0 <= l < self.entries_seq().len() && self.entries_seq()[l].1 == best;
            assert(self.get_opt(self.entries_seq()[l].0) == Some(best));
            assert forall|k: Id| #[trigger] self.get_opt(k) is Some implies best <= self.frontier(
                k,
            ) by {
                let m = choose|m: int|
                    0 <= m < self.entries_seq().len() && self.entries_seq()[m].0 == k;
                assert(self.get_opt(k) == Some(self.entries_seq()[m].1));
            }
        }
        Some(best)
    }

    /// The actor with the smallest recorded version, ties broken by the
    /// smaller actor id.
    pub fn min_id(&self) -> (r: Option<Id>)
        requires
            self.wf(),
        ensures
            r is None <==> self.entries_seq().len() == 0,
            match r {
                Some(id) => self.get_opt(id) is Some && forall|k: Id|
                    #[trigger] self.get_opt(k) is Some ==> (self.frontier(id) < self.frontier(k)
                        || (self.frontier(id) == self.frontier(k) && id <= k)),
                None => true,
            },
    {
        proof {
            lemma_assoc_get(self.entries_seq());
        }
        if self.entries.len() == 0 {
            return None;
        }
        let mut best_id: Id = self.entries[0].0;
        let mut best_v: Version = self.entries[0].1;
        let mut i: usize = 1;
        while i < self.entries.len()
            invariant
                self.wf(),
                1 <= i <= self.entries@.len(),
                exists|l: int|
                    0 <= l < i && self.entries@[l].0 == best_id && self.entries@[l].1 == best_v,
                forall|l: int|
                    0 <= l < i ==> (best_v < self.entries@[l].1 || (best_v == self.entries@[l].1
                        && best_id <= self.entries@[l].0)),
            decreases self.entries@.len() - i,
        {
            let (id, v) = self.entries[i];
            if v < best_v || (v == best_v && id < best_id) {
                best_id = id;
                best_v = v;
            }
            i = i + 1;
        }
        proof {
            let l = choose|l: int|
                0 <= l < self.entries_seq().len() && self.entries_seq()[l].0 == best_id
                    && self.entries_seq()[l].1 == best_v;
            assert(self.get_opt(best_id) == Some(best_v));
            assert forall|k: Id| #[trigger] self.get_opt(k) is Some implies (self.frontier(best_id)
                < self.frontier(k) || (self.frontier(best_id) == self.frontier(k) && best_id
                <= k)) by {
                let m = choose|m: int|
                    0 <= m < self.entries_seq().len() && self.entries_seq()[m].0 == k;
                assert(self.get_opt(k) == Some(self.entries_seq()[m].1));
            }
        }
        Some(best_id)
    }

    /// Sets every recorded version to 0, keeping the set of actors.
    pub fn reset(&mut self)
        requires
            old(self).wf(),
        ensures
            final(self).wf(),
            forall|k: Id|
                #[trigger] final(self).get_opt(k) == match old(self).get_opt(k) {
                    Some(_) => Some(0u64),
                    None => None::<Version>,
                },
    {
        let ghost orig = self.entries@;
        let mut i: usize = 0;
        proof {
            lemma_assoc_get(orig);
        }
        while i < self.entries.len()
            invariant
                sorted_by_id(orig),
                i <= self.entries@.len(),
                self.entries@.len() == orig.len(),
                forall|l: int| 0 <= l < orig.len() ==> self.entries@[l].0 == orig[l].0,
                forall|l: int| 0 <= l < i ==> self.entries@[l].1 == 0,
                forall|l: int| i <= l < orig.len() ==> self.entries@[l].1 == orig[l].1,
            decreases orig.len() - i,
        {
            let id = self.entries[i].0;
            self.entries.set(i, (id, 0));
            i = i + 1;
        }
        proof {
            assert forall|x: int, y: int|
                0 <= x < y < self.entries_seq().len() implies self.entries_seq()[x].0
                < self.entries_seq()[y].0 by {
                assert(orig[x].0 < orig[y].0);
            }
            lemma_assoc_get(self.entries_seq());
            assert forall|k: Id| #[trigger]
                final(self).get_opt(k) == match old(self).get_opt(k) {
                    Some(_) => Some(0u64),
                    None => None::<Version>,
                } by {
                if assoc_get(orig, k) is Some {
                    let m = choose|m: int| 0 <= m < orig.len() && orig[m].0 == k;
                    assert(self.entries_seq()[m].0 == k);
                    assert(self.get_opt(k) == Some(self.entries_seq()[m].1));
                } else {
                    if assoc_get(self.entries_seq(), k) is Some {
                        let m = choose|m: int|
                            0 <= m < self.entries_seq().len() && self.entries_seq()[m].0 == k;
                        assert(orig[m].0 == k);
                        assert(false);
                    }
                }
            }
        }
    }

    /// Two well-formed version vectors that agree on every lookup are equal.
    pub proof fn lemma_canonical(a: &VersionVector, b: &VersionVector)
        requires
            a.wf(),
            b.wf(),
            forall|k: Id| #[trigger] a.get_opt(k) == b.get_opt(k),
        ensures
            a.entries_seq() == b.entries_seq(),
    {
        assert forall|k: u64| #[trigger]
            assoc_get(a.entries_seq(), k) == assoc_get(b.entries_seq(), k) by {
            assert(a.get_opt(k) == b.get_opt(k));
        }
        lemma_assoc_canonical(a.entries_seq(), b.entries_seq());
    }
}

impl PartialEq for VersionVector {
    /// Whether the two vectors record the same versions for the same actors.
    fn eq(&self, other: &Self) -> (r: bool) {
        if self.entries.len() != other.entries.len() {
            return false;
        }
        let mut i: usize = 0;
        while i < self.entries.len()
            invariant
                self.entries@.len() == other.entries@.len(),
                i <= self.entries@.len(),
                forall|j: int| 0 <= j < i ==> self.entries@[j] == other.entries@[j],
            decreases self.entries@.len() - i,
        {
            let (ka, va) = self.entries[i];
            let (kb, vb) = other.entries[i];
            if ka != kb || va != vb {
                return false;
            }
            i = i + 1;
        }
        proof {
            assert(self.entries@ =~= other.entries@);
        }
        true
    }
}

impl vstd::std_specs::cmp::PartialEqSpecImpl for VersionVector {
    open spec fn obeys_eq_spec() -> bool {
        true
    }

    open spec fn eq_spec(&self, other: &Self) -> bool {
        self.entries_seq() == other.entries_seq()
    }
}

impl Eq for VersionVector {}

/// The set of event numbers observed for one actor, as a dense base plus a
/// bitmap of sparse later events: every event in `[1, base]` is present, and
/// bit `i` of the bitmap stands for event `base + 1 + i`.
#[derive(Clone, Debug)]
pub struct BitmappedVersion {
    base: Version,
    bitmap: Bitmap,
}

impl BitmappedVersion {
    /// The dense base.
    pub closed spec fn base_val(&self) -> Version {
        self.base
    }

    /// The stored bits of the sparse part.
    pub closed spec fn bits(&self) -> Seq<bool> {
        self.bitmap.seq()
    }

    /// Whether event `v` has been observed.
    pub open spec fn contains(&self, v: int) -> bool {
        (1 <= v <= self.base_val()) || (v > self.base_val() && 0 <= v - self.base_val() - 1
            < self.bits().len() && self.bits()[v - self.base_val() - 1])
    }

    /// The bitmap is trimmed and every named event number fits a version.
    pub open spec fn wf(&self) -> bool {
        &&& (self.bits().len() > 0 ==> self.bits()[self.bits().len() - 1])
        &&& self.base_val() + self.bits().len() <= u64::MAX
    }

    /// No gap-free run sits at the bottom of the bitmap: bit 0 is clear, or
    /// the bitmap is empty.
    pub open spec fn normalized(&self) -> bool {
        self.bits().len() > 0 ==> !self.bits()[0]
    }

    /// The value holding `[1, base]` plus the bits of a 32-bit word.
    pub fn new(base: Version, bitmap: u32) -> (r: Self)
        requires
            base <= u64::MAX - 32,
        ensures
            r.wf(),
            r.base_val() == base,
            forall|v: int| #[trigger]
                r.contains(v) == (1 <= v <= base || (v > base && crate::bitmap::u32_bit(
                    bitmap,
                    v - base - 1,
                ))),
            bitmap == 0 ==> r.bits().len() == 0,
    {
        let b = Bitmap::from_u32(bitmap);
        proof {
            if b.seq().len() > 32 {
                assert(b.bit(b.seq().len() - 1));
                assert(crate::bitmap::u32_bit(bitmap, b.seq().len() - 1));
                assert(false);
            }
            if bitmap == 0 {
                assert forall|i: int| 0 <= i < 32 implies !crate::bitmap::u32_bit(0u32, i) by {
                    let j = i as u32;
                    assert(j < 32 ==> ((0u32 >> j) & 1) != 1) by (bit_vector);
                }
                if b.seq().len() > 0 {
                    assert(b.bit(b.seq().len() - 1));
                    assert(false);
                }
            }
        }
        let r = BitmappedVersion { base, bitmap: b };
        proof {
            assert forall|v: int| #[trigger]
                r.contains(v) == (1 <= v <= base || (v > base && crate::bitmap::u32_bit(
                    bitmap,
                    v - base - 1,
                ))) by {
                if v > base {
                    assert(b.bit(v - base - 1) == crate::bitmap::u32_bit(bitmap, v - base - 1));
                }
            }
        }
        r
    }

    /// The value holding `[1, base]` plus the given sparse bits.
    pub fn from_parts(base: Version, bitmap: Bitmap) -> (r: Self)
        requires
            bitmap.wf(),
            base + bitmap.seq().len() <= u64::MAX,
        ensures
            r.wf(),
            r.base_val() == base,
            r.bits() == bitmap.seq(),
    {
        BitmappedVersion { base, bitmap }
    }

    /// The dense base.
    pub fn base(&self) -> (r: Version)
        ensures
            r == self.base_val(),
    {
        self.base
    }

    /// How many sparse bits are stored.
    pub fn bits_len(&self) -> (r: usize)
        ensures
            r == self.bits().len(),
    {
        self.bitmap.size()
    }

    /// Reads sparse bit `i`.
    pub fn bit_at(&self, i: usize) -> (r: bool)
        requires
            i < self.bits().len(),
        ensures
            r == self.bits()[i as int],
    {
        self.bitmap.get(i)
    }

    /// Whether event `v` has been observed.
    pub fn contains_version(&self, v: Version) -> (r: bool)
        requires
            self.wf(),
        ensures
            r == self.contains(v as int),
    {
        if v == 0 {
            false
        } else if v <= self.base {
            true
        } else {
            let off = v - self.base - 1;
            if off >= (self.bitmap.size() as u64) {
                false
            } else {
                self.bitmap.get(off as usize)
            }
        }
    }

    /// Whether the sparse part is empty.
    pub fn bitmap_is_zero(&self) -> (r: bool)
        requires
            self.wf(),
        ensures
            r == (self.bits().len() == 0),
    {
        self.bitmap.is_zero()
    }

    /// An elementwise copy.
    pub fn duplicate(&self) -> (r: Self)
        ensures
            r.base_val() == self.base_val(),
            r.bits() == self.bits(),
    {
        BitmappedVersion { base: self.base, bitmap: self.bitmap.duplicate() }
    }

    /// Folds any gap-free run at the bottom of the bitmap into the base.
    /// The set of observed events does not change.
    pub fn norm(&mut self)
        requires
            old(self).wf(),
        ensures
            final(self).wf(),
            final(self).normalized(),
            final(self).base_val() >= old(self).base_val(),
            forall|v: int| #[trigger] final(self).contains(v) == old(self).contains(v),
    {
        let k = self.bitmap.trailing_ones();
        let ghost pre = *self;
        if k > 0 {
            self.base = self.base + (k as u64);
            self.bitmap.shift_down(k);
            proof {
                assert forall|v: int| #[trigger] self.contains(v) == pre.contains(v) by {
                    if 1 <= v <= pre.base_val() {
                    } else if pre.base_val() < v <= pre.base_val() + k {
                        assert(pre.bitmap.bit(v - pre.base_val() - 1));
                    } else if v > pre.base_val() + k {
                        assert(self.bitmap.bit(v - self.base_val() - 1) == pre.bitmap.bit(
                            v - pre.base_val() - 1,
                        ));
                    }
                }
                if self.bits().len() > 0 {
                    assert(self.bitmap.bit(0) == pre.bitmap.bit(k as int));
                    assert(k < pre.bits().len() ==> !pre.bitmap.bit(k as int));
                    assert(!self.bits()[0]);
                }
            }
        } else {
            proof {
                if self.bits().len() > 0 {
                    assert(!self.bitmap.bit(0));
                }
            }
        }
    }

    /// Records event `version`. Event numbers start at 1; recording 0 changes
    /// nothing.
    pub fn add(&mut self, version: Version)
        requires
            old(self).wf(),
            version > old(self).base_val() ==> version - old(self).base_val() - 1 < 0x1_0000_0000,
        ensures
            final(self).wf(),
            final(self).normalized(),
            final(self).base_val() >= old(self).base_val(),
            forall|v: int| #[trigger]
                final(self).contains(v) == (old(self).contains(v) || (v == version && version
                    >= 1)),
    {
        if version > self.base {
            let ghost pre = *self;
            let idx = (version - self.base - 1) as usize;
            self.bitmap.set(idx);
            proof {
                assert(self.bitmap.seq().len() <= pre.bits().len() || self.bitmap.seq().len()
                    == idx + 1);
                assert forall|v: int| #[trigger]
                    self.contains(v) == (pre.contains(v) || v == version) by {
                    if v > self.base_val() {
                        assert(self.bitmap.bit(v - self.base_val() - 1) == (pre.bitmap.bit(
                            v - pre.base_val() - 1,
                        ) || v - self.base_val() - 1 == idx));
                    }
                }
            }
            self.norm();
        } else {
            proof {
                assert forall|v: int| #[trigger]
                    self.contains(v) == (old(self).contains(v) || (v == version && version
                        >= 1)) by {
                    if v == version && version >= 1 {
                        assert(old(self).contains(v));
                    }
                }
            }
            self.norm();
        }
    }

    /// Joins `other` in: afterwards an event is observed here exactly when
    /// either side had observed it.
    pub fn join(&mut self, other: &Self)
        requires
            old(self).wf(),
            other.wf(),
        ensures
            final(self).wf(),
            final(self).normalized(),
            forall|v: int| #[trigger]
                final(self).contains(v) == (old(self).contains(v) || other.contains(v)),
    {
        let ghost pre = *self;
        if self.base >= other.base {
            let delta = self.base - other.base;
            let osize = other.bitmap.size();
            let k = if delta >= (osize as u64) {
                osize
            } else {
                delta as usize
            };
            self.bitmap.or_shifted(&other.bitmap, k);
            proof {
                assert forall|v: int| #[trigger]
                    self.contains(v) == (pre.contains(v) || other.contains(v)) by {
                    if v > self.base_val() {
                        assert(self.bitmap.bit(v - self.base_val() - 1) == (pre.bitmap.bit(
                            v - pre.base_val() - 1,
                        ) || other.bitmap.bit(v - self.base_val() - 1 + k)));
                        if (k as u64) == delta {
                            assert(v - self.base_val() - 1 + k == v - other.base_val() - 1);
                        } else {
                            assert(!other.bitmap.bit(v - self.base_val() - 1 + k));
                            assert(v - other.base_val() - 1 >= osize);
                            assert(!other.bitmap.bit(v - other.base_val() - 1));
                        }
                    } else if 1 <= v {
                        assert(pre.contains(v));
                    }
                }
            }
        } else {
            let delta = other.base - self.base;
            let ssize = self.bitmap.size();
            let k = if delta >= (ssize as u64) {
                ssize
            } else {
                delta as usize
            };
            self.bitmap.shift_down(k);
            self.bitmap.or_shifted(&other.bitmap, 0);
            self.base = other.base;
            proof {
                assert forall|v: int| #[trigger]
                    self.contains(v) == (pre.contains(v) || other.contains(v)) by {
                    if v > self.base_val() {
                        assert(self.bitmap.bit(v - self.base_val() - 1) == (pre.bitmap.bit(
                            v - self.base_val() - 1 + k,
                        ) || other.bitmap.bit(v - self.base_val() - 1)));
                        if (k as u64) == delta {
                            assert(v - self.base_val() - 1 + k == v - pre.base_val() - 1);
                        } else {
                            assert(!pre.bitmap.bit(v - self.base_val() - 1 + k));
                            assert(v - pre.base_val() - 1 >= ssize);
                            assert(!pre.bitmap.bit(v - pre.base_val() - 1));
                        }
                    } else if 1 <= v {
                        assert(other.contains(v) || pre.contains(v));
                        if pre.contains(v) && !other.contains(v) {
                            assert(v <= pre.base_val() || pre.bits()[v - pre.base_val() - 1]);
                        }
                    }
                }
            }
        }
        self.norm();
    }

    /// Two well-formed normalized values observing the same events are equal
    /// in base and bits.
    pub proof fn lemma_canonical(a: &BitmappedVersion, b: &BitmappedVersion)
        requires
            a.wf(),
            b.wf(),
            a.normalized(),
            b.normalized(),
            forall|v: int| #[trigger] a.contains(v) == b.contains(v),
        ensures
            a.base_val() == b.base_val(),
            a.bits() == b.bits(),
    {
        if a.base_val() < b.base_val() {
            let v = a.base_val() + 1;
            assert(b.contains(v));
            assert(a.contains(v));
            assert(false);
        }
        if b.base_val() < a.base_val() {
            let v = b.base_val() + 1;
            assert(a.contains(v));
            assert(b.contains(v));
            assert(false);
        }
        let base = a.base_val();
        if a.bits().len() < b.bits().len() {
            let v = base + b.bits().len();
            assert(b.contains(v));
            assert(a.contains(v));
            assert(false);
        }
        if b.bits().len() < a.bits().len() {
            let v = base + a.bits().len();
            assert(a.contains(v));
            assert(b.contains(v));
            assert(false);
        }
        assert forall|i: int| 0 <= i < a.bits().len() implies a.bits()[i] == b.bits()[i] by {
            assert(a.contains(base + 1 + i) == b.contains(base + 1 + i));
        }
        assert(a.bits() =~= b.bits());
    }
}

impl PartialEq for BitmappedVersion {
    /// Whether base and bitmap agree exactly.
    fn eq(&self, other: &Self) -> (r: bool) {
        self.base == other.base && self.bitmap == other.bitmap
    }
}

impl vstd::std_specs::cmp::PartialEqSpecImpl for BitmappedVersion {
    open spec fn obeys_eq_spec() -> bool {
        true
    }

    open spec fn eq_spec(&self, other: &Self) -> bool {
        self.base_val() == other.base_val() && self.bits() == other.bits()
    }
}

impl Eq for BitmappedVersion {}


/// A node clock: for each actor, the set of observed events as a
/// [`BitmappedVersion`].
#[derive(Clone, Debug)]
pub struct BitmappedVersionVector {
    entries: Vec<(Id, BitmappedVersion)>,
}

impl BitmappedVersionVector {
    /// The stored pairs, in increasing actor order.
    pub closed spec fn entries_seq(&self) -> Seq<(Id, BitmappedVersion)> {
        self.entries@
    }

    /// Entries are sorted by actor id and each value is well-formed.
    pub open spec fn wf(&self) -> bool {
        &&& sorted_by_id(self.entries_seq())
        &&& forall|i: int|
            0 <= i < self.entries_seq().len() ==> (#[trigger] self.entries_seq()[i].1).wf()
    }

    /// Every stored value is normalized.
    pub open spec fn all_normalized(&self) -> bool {
        forall|i: int|
            0 <= i < self.entries_seq().len() ==> (#[trigger] self.entries_seq()[i].1).normalized()
    }

    /// The value recorded for `id`, when there is one.
    pub open spec fn get_bv(&self, id: Id) -> Option<BitmappedVersion> {
        assoc_get(self.entries_seq(), id)
    }

    /// Whether event `(id, v)` has been observed.
    pub open spec fn covers(&self, id: Id, v: int) -> bool {
        match self.get_bv(id) {
            Some(bv) => bv.contains(v),
            None => false,
        }
    }

    /// The dense base recorded for `id`, 0 when the actor is absent.
    pub open spec fn base0(&self, id: Id) -> Version {
        match self.get_bv(id) {
            Some(bv) => bv.base_val(),
            None => 0,
        }
    }

    /// Whether the two clocks record the same actors with the same bases and
    /// bits.
    pub open spec fn equiv(&self, other: &Self) -> bool {
        &&& self.entries_seq().len() == other.entries_seq().len()
        &&& forall|i: int|
            0 <= i < self.entries_seq().len() ==> (#[trigger] self.entries_seq()[i]).0
                == other.entries_seq()[i].0 && self.entries_seq()[i].1.base_val()
                == other.entries_seq()[i].1.base_val() && self.entries_seq()[i].1.bits()
                == other.entries_seq()[i].1.bits()
    }

    /// An empty clock.
    pub fn new() -> (r: Self)
        ensures
            r.wf(),
            r.entries_seq().len() == 0,
            forall|k: Id| (#[trigger] r.get_bv(k)) is None,
    {
        let r = BitmappedVersionVector { entries: Vec::new() };
        proof {
            lemma_assoc_get(r.entries_seq());
        }
        r
    }

    /// How many actors are recorded.
    pub fn len(&self) -> (r: usize)
        ensures
            r == self.entries_seq().len(),
    {
        self.entries.len()
    }

    /// The actor at position `i`.
    pub fn key_at(&self, i: usize) -> (r: Id)
        requires
            i < self.entries_seq().len(),
        ensures
            r == self.entries_seq()[i as int].0,
    {
        self.entries[i].0
    }

    /// The value at position `i`.
    pub fn bv_at(&self, i: usize) -> (r: &BitmappedVersion)
        requires
            i < self.entries_seq().len(),
        ensures
            *r == self.entries_seq()[i as int].1,
    {
        &self.entries[i].1
    }

    /// Helper: when two clocks agree on keys, bases and bits pointwise, their
    /// lookups agree.
    proof fn lemma_lookup_pair(a: &Self, b: &Self, k: Id)
        requires
            sorted_by_id(a.entries_seq()),
            sorted_by_id(b.entries_seq()),
            a.entries_seq().len() == b.entries_seq().len(),
            forall|i: int|
                0 <= i < a.entries_seq().len() ==> (#[trigger] a.entries_seq()[i]).0
                    == b.entries_seq()[i].0 && a.entries_seq()[i].1.base_val()
                    == b.entries_seq()[i].1.base_val() && a.entries_seq()[i].1.bits()
                    == b.entries_seq()[i].1.bits(),
        ensures
            a.get_bv(k) is Some <==> b.get_bv(k) is Some,
            a.base0(k) == b.base0(k),
            forall|v: int| a.covers(k, v) == b.covers(k, v),
    {
        lemma_assoc_get(a.entries_seq());
        lemma_assoc_get(b.entries_seq());
        if a.get_bv(k) is Some {
            let j = choose|j: int| 0 <= j < a.entries_seq().len() && a.entries_seq()[j].0 == k;
            assert(b.entries_seq()[j].0 == k);
            assert(a.get_bv(k) == Some(a.entries_seq()[j].1));
            assert(b.get_bv(k) == Some(b.entries_seq()[j].1));
        } else if b.get_bv(k) is Some {
            let j = choose|j: int| 0 <= j < b.entries_seq().len() && b.entries_seq()[j].0 == k;
            assert(a.entries_seq()[j].0 == k);
        }
    }

    /// An elementwise copy.
    pub fn duplicate(&self) -> (r: Self)
        requires
            self.wf(),
        ensures
            r.wf(),
            r.equiv(self),
            forall|k: Id| #[trigger] r.get_bv(k) is Some <==> self.get_bv(k) is Some,
            forall|k: Id, v: int| #[trigger] r.covers(k, v) == self.covers(k, v),
            forall|k: Id| #[trigger] r.base0(k) == self.base0(k),
            self.all_normalized() ==> r.all_normalized(),
    {
        let mut entries: Vec<(Id, BitmappedVersion)> = Vec::new();
        let mut i: usize = 0;
        while i < self.entries.len()
            invariant
                self.wf(),
                i <= self.entries@.len(),
                entries@.len() == i,
                forall|j: int|
                    0 <= j < i ==> (#[trigger] entries@[j]).0 == self.entries@[j].0
                        && entries@[j].1.base_val() == self.entries@[j].1.base_val()
                        && entries@[j].1.bits() == self.entries@[j].1.bits(),
            decreases self.entries@.len() - i,
        {
            let id = self.entries[i].0;
            let bv = self.entries[i].1.duplicate();
            entries.push((id, bv));
            i = i + 1;
        }
        let r = BitmappedVersionVector { entries };
        proof {
            assert forall|x: int, y: int|
                0 <= x < y < r.entries_seq().len() implies r.entries_seq()[x].0
                < r.entries_seq()[y].0 by {
                assert(self.entries_seq()[x].0 < self.entries_seq()[y].0);
            }
            assert forall|k: Id| #[trigger]
                r.get_bv(k) is Some <==> self.get_bv(k) is Some by {
                Self::lemma_lookup_pair(&r, self, k);
            }
            assert forall|k: Id, v: int| #[trigger] r.covers(k, v) == self.covers(k, v) by {
                Self::lemma_lookup_pair(&r, self, k);
            }
            assert forall|k: Id| #[trigger] r.base0(k) == self.base0(k) by {
                Self::lemma_lookup_pair(&r, self, k);
            }
        }
        r
    }

    /// The position of the first entry whose actor is not below `id`.
    fn position(&self, id: Id) -> (r: usize)
        requires
            self.wf(),
        ensures
            r <= self.entries_seq().len(),
            forall|j: int| 0 <= j < r ==> self.entries_seq()[j].0 < id,
            r < self.entries_seq().len() ==> self.entries_seq()[r as int].0 >= id,
    {
        let mut i: usize = 0;
        while i < self.entries.len() && self.entries[i].0 < id
            invariant
                i <= self.entries@.len(),
                forall|j: int| 0 <= j < i ==> self.entries@[j].0 < id,
            decreases self.entries@.len() - i,
        {
            i = i + 1;
        }
        i
    }

    /// The value recorded for `id`.
    pub fn get(&self, id: Id) -> (r: Option<&BitmappedVersion>)
        requires
            self.wf(),
        ensures
            match r {
                Some(bv) => self.get_bv(id) == Some(*bv),
                None => self.get_bv(id) is None,
            },
    {
        let i = self.position(id);
        proof {
            lemma_assoc_get(self.entries_seq());
        }
        if i < self.entries.len() && self.entries[i].0 == id {
            Some(&self.entries[i].1)
        } else {
            proof {
                if self.get_bv(id) is Some {
                    let j = choose|j: int|
                        0 <= j < self.entries_seq().len() && self.entries_seq()[j].0 == id;
                    assert(false);
                }
            }
            None
        }
    }

    /// Stores `bv` for `id`, replacing any recorded value.
    pub fn set_entry(&mut self, id: Id, bv: BitmappedVersion)
        requires
            old(self).wf(),
            bv.wf(),
        ensures
            final(self).wf(),
            final(self).get_bv(id) == Some(bv),
            forall|k: Id| k != id ==> final(self).get_bv(k) == #[trigger] old(self).get_bv(k),
    {
        let i = self.position(id);
        proof {
            lemma_assoc_get(self.entries_seq());
        }
        if i < self.entries.len() && self.entries[i].0 == id {
            let ghost pre = self.entries@;
            let _ = self.entries.remove(i);
            self.entries.insert(i, (id, bv));
            proof {
                assert(self.entries@ =~= pre.update(i as int, (id, bv)));
                lemma_assoc_update(pre, i as int, (id, bv).1);
            }
        } else {
            proof {
                if self.get_bv(id) is Some {
                    let j = choose|j: int|
                        0 <= j < self.entries_seq().len() && self.entries_seq()[j].0 == id;
                    assert(false);
                }
            }
            let ghost pre = self.entries@;
            self.entries.insert(i, (id, bv));
            proof {
                lemma_assoc_insert(pre, i as int, id, bv);
            }
        }
    }

    /// Records event `version` for `id`, creating the actor when absent.
    pub fn add(&mut self, id: Id, version: Version)
        requires
            old(self).wf(),
            version > old(self).base0(id) ==> version - old(self).base0(id) - 1 < 0x1_0000_0000,
        ensures
            final(self).wf(),
            forall|k: Id| k != id ==> final(self).get_bv(k) == #[trigger] old(self).get_bv(k),
            forall|k: Id|
                #[trigger] final(self).get_bv(k) is Some <==> (old(self).get_bv(k) is Some || k
                    == id),
            forall|v: int| #[trigger]
                final(self).covers(id, v) == (old(self).covers(id, v) || (v == version && version
                    >= 1)),
            forall|k: Id, v: int|
                k != id ==> #[trigger] final(self).covers(k, v) == old(self).covers(k, v),
            forall|k: Id| #[trigger] final(self).base0(k) >= old(self).base0(k),
    {
        let i = self.position(id);
        proof {
            lemma_assoc_get(self.entries_seq());
        }
        if i < self.entries.len() && self.entries[i].0 == id {
            let ghost pre = self.entries@;
            proof {
                assert(old(self).get_bv(id) == Some(pre[i as int].1));
            }
            let (key, mut nb) = self.entries.remove(i);
            nb.add(version);
            let ghost newbv = nb;
            self.entries.insert(i, (key, nb));
            proof {
                assert(key == id);
                assert(self.entries@ =~= pre.update(i as int, (id, newbv)));
                lemma_assoc_update(pre, i as int, newbv);
                assert(pre[i as int].0 == id);
                assert(pre.update(i as int, (pre[i as int].0, newbv)) == pre.update(
                    i as int,
                    (id, newbv),
                ));
                assert(self.get_bv(id) == Some(newbv));
            }
        } else {
            proof {
                if self.get_bv(id) is Some {
                    let j = choose|j: int|
                        0 <= j < self.entries_seq().len() && self.entries_seq()[j].0 == id;
                    assert(false);
                }
            }
            let mut bv = BitmappedVersion::new(0, 0);
            bv.add(version);
            let ghost newbv = bv;
            let ghost pre = self.entries@;
            self.entries.insert(i, (id, bv));
            proof {
                lemma_assoc_insert(pre, i as int, id, newbv);
            }
        }
    }

    /// Hands out the next dense event number for `id`. The actor's bitmap
    /// must be empty: its observed set is exactly `[1, base]`.
    pub fn event(&mut self, id: Id) -> (r: Version)
        requires
            old(self).wf(),
            match old(self).get_bv(id) {
                Some(bv) => bv.bits().len() == 0,
                None => true,
            },
            old(self).base0(id) < u64::MAX,
        ensures
            final(self).wf(),
            r == old(self).base0(id) + 1,
            final(self).get_bv(id) is Some,
            final(self).base0(id) == r,
            forall|k: Id| k != id ==> final(self).get_bv(k) == #[trigger] old(self).get_bv(k),
            forall|v: int| #[trigger] final(self).covers(id, v) == (1 <= v <= r),
            forall|k: Id, v: int|
                k != id ==> #[trigger] final(self).covers(k, v) == old(self).covers(k, v),
            match final(self).get_bv(id) {
                Some(bv) => bv.bits().len() == 0,
                None => false,
            },
    {
        let i = self.position(id);
        proof {
            lemma_assoc_get(self.entries_seq());
        }
        if i < self.entries.len() && self.entries[i].0 == id {
            let ghost pre = self.entries@;
            proof {
                assert(old(self).get_bv(id) == Some(pre[i as int].1));
            }
            let (key, mut nb) = self.entries.remove(i);
            let next = nb.base + 1;
            nb.base = next;
            let ghost newbv = nb;
            self.entries.insert(i, (key, nb));
            proof {
                assert(self.entries@ =~= pre.update(i as int, (id, newbv)));
                lemma_assoc_update(pre, i as int, newbv);
                assert(pre[i as int].0 == id);
                assert(pre.update(i as int, (pre[i as int].0, newbv)) == pre.update(
                    i as int,
                    (id, newbv),
                ));
                assert(self.get_bv(id) == Some(newbv));
                assert(newbv.bits().len() == 0);
                assert(newbv.base_val() == old(self).base0(id) + 1);
            }
            next
        } else {
            proof {
                if self.get_bv(id) is Some {
                    let j = choose|j: int|
                        0 <= j < self.entries_seq().len() && self.entries_seq()[j].0 == id;
                    assert(false);
                }
            }
            let bv = BitmappedVersion::new(1, 0);
            let ghost newbv = bv;
            let ghost pre = self.entries@;
            self.entries.insert(i, (id, bv));
            proof {
                lemma_assoc_insert(pre, i as int, id, newbv);
            }
            1
        }
    }

    /// Joins one actor's value in, creating the actor when absent.
    pub fn merge_one(&mut self, id: Id, bv: &BitmappedVersion)
        requires
            old(self).wf(),
            bv.wf(),
        ensures
            final(self).wf(),
            forall|k: Id| k != id ==> final(self).get_bv(k) == #[trigger] old(self).get_bv(k),
            forall|k: Id|
                #[trigger] final(self).get_bv(k) is Some <==> (old(self).get_bv(k) is Some || k
                    == id),
            forall|v: int| #[trigger]
                final(self).covers(id, v) == (old(self).covers(id, v) || bv.contains(v)),
            forall|k: Id, v: int|
                k != id ==> #[trigger] final(self).covers(k, v) == old(self).covers(k, v),
    {
        let i = self.position(id);
        proof {
            lemma_assoc_get(self.entries_seq());
        }
        if i < self.entries.len() && self.entries[i].0 == id {
            let ghost pre = self.entries@;
            proof {
                assert(old(self).get_bv(id) == Some(pre[i as int].1));
            }
            let (key, mut nb) = self.entries.remove(i);
            nb.join(bv);
            let ghost newbv = nb;
            self.entries.insert(i, (key, nb));
            proof {
                assert(self.entries@ =~= pre.update(i as int, (id, newbv)));
                lemma_assoc_update(pre, i as int, newbv);
                assert(pre[i as int].0 == id);
                assert(pre.update(i as int, (pre[i as int].0, newbv)) == pre.update(
                    i as int,
                    (id, newbv),
                ));
                assert(self.get_bv(id) == Some(newbv));
            }
        } else {
            proof {
                if self.get_bv(id) is Some {
                    let j = choose|j: int|
                        0 <= j < self.entries_seq().len() && self.entries_seq()[j].0 == id;
                    assert(false);
                }
            }
            let nbv = bv.duplicate();
            let ghost newbv = nbv;
            let ghost pre = self.entries@;
            self.entries.insert(i, (id, nbv));
            proof {
                lemma_assoc_insert(pre, i as int, id, newbv);
                assert forall|v: int| #[trigger]
                    self.covers(id, v) == (old(self).covers(id, v) || bv.contains(v)) by {
                    assert(self.get_bv(id) == Some(newbv));
                }
            }
        }
    }

    /// Merges `other` in: the union of the actors, each value joined.
    pub fn merge(&mut self, other: &Self)
        requires
            old(self).wf(),
            other.wf(),
        ensures
            final(self).wf(),
            forall|k: Id|
                #[trigger] final(self).get_bv(k) is Some <==> (old(self).get_bv(k) is Some
                    || other.get_bv(k) is Some),
            forall|k: Id, v: int| #[trigger]
                final(self).covers(k, v) == (old(self).covers(k, v) || other.covers(k, v)),
    {
        let ghost sb = other.entries@;
        let mut j: usize = 0;
        proof {
            lemma_assoc_get(sb);
            assert(sb.take(0) =~= Seq::<(Id, BitmappedVersion)>::empty());
        }
        while j < other.entries.len()
            invariant
                other.entries@ == sb,
                sorted_by_id(sb),
                other.wf(),
                j <= sb.len(),
                self.wf(),
                forall|k: Id| #[trigger]
                    self.get_bv(k) is Some <==> (old(self).get_bv(k) is Some || assoc_get(
                        sb.take(j as int),
                        k,
                    ) is Some),
                forall|k: Id, v: int| #[trigger]
                    self.covers(k, v) == (old(self).covers(k, v) || (match assoc_get(
                        sb.take(j as int),
                        k,
                    ) {
                        Some(b) => b.contains(v),
                        None => false,
                    })),
            decreases sb.len() - j,
        {
            let id = self.entries_at_other(other, j);
            let ghost mid = *self;
            self.merge_one(id, &other.entries[j].1);
            proof {
                let obv = sb[j as int].1;
                lemma_assoc_get(sb.take(j as int));
                lemma_assoc_insert(sb.take(j as int), j as int, id, obv);
                assert(sb.take(j + 1) =~= sb.take(j as int).insert(j as int, (id, obv)));
                if assoc_get(sb.take(j as int), id) is Some {
                    let m = choose|m: int| 0 <= m < j && sb.take(j as int)[m].0 == id;
                    assert(sb[m].0 < sb[j as int].0);
                    assert(false);
                }
                assert forall|k: Id| #[trigger]
                    self.get_bv(k) is Some <==> (old(self).get_bv(k) is Some || assoc_get(
                        sb.take(j + 1),
                        k,
                    ) is Some) by {
                    if k != id {
                        assert(assoc_get(sb.take(j + 1), k) == assoc_get(sb.take(j as int), k));
                        assert(self.get_bv(k) == mid.get_bv(k));
                    }
                }
                assert forall|k: Id, v: int| #[trigger]
                    self.covers(k, v) == (old(self).covers(k, v) || (match assoc_get(
                        sb.take(j + 1),
                        k,
                    ) {
                        Some(b) => b.contains(v),
                        None => false,
                    })) by {
                    if k == id {
                        assert(self.covers(id, v) == (mid.covers(id, v) || obv.contains(v)));
                        assert(assoc_get(sb.take(j + 1), id) == Some(obv));
                    } else {
                        assert(assoc_get(sb.take(j + 1), k) == assoc_get(sb.take(j as int), k));
                        assert(self.covers(k, v) == mid.covers(k, v));
                    }
                }
            }
            j = j + 1;
        }
        proof {
            assert(sb.take(sb.len() as int) =~= sb);
        }
    }

    /// Reads the actor at position `j` of `other`.
    fn entries_at_other(&self, other: &Self, j: usize) -> (r: Id)
        requires
            j < other.entries_seq().len(),
        ensures
            r == other.entries_seq()[j as int].0,
    {
        other.entries[j].0
    }

    /// Joins `other` in on the shared actors only: actors recorded only in
    /// `other` are not added.
    pub fn join(&mut self, other: &Self)
        requires
            old(self).wf(),
            other.wf(),
        ensures
            final(self).wf(),
            forall|k: Id| #[trigger] final(self).get_bv(k) is Some <==> old(self).get_bv(k) is Some,
            forall|k: Id, v: int| #[trigger]
                final(self).covers(k, v) == (old(self).covers(k, v) || (old(self).get_bv(
                    k,
                ) is Some && other.covers(k, v))),
            forall|k: Id|
                other.get_bv(k) is None ==> final(self).get_bv(k) == #[trigger] old(self).get_bv(k),
            forall|i: int|
                0 <= i < final(self).entries_seq().len() ==> (other.get_bv(
                    (#[trigger] final(self).entries_seq()[i]).0,
                ) is Some ==> final(self).entries_seq()[i].1.normalized()),
    {
        let ghost orig = self.entries@;
        let mut i: usize = 0;
        proof {
            lemma_assoc_get(orig);
        }
        while i < self.entries.len()
            invariant
                other.wf(),
                i <= self.entries@.len(),
                self.entries@.len() == orig.len(),
                sorted_by_id(orig),
                forall|l: int| 0 <= l < orig.len() ==> (#[trigger] self.entries@[l]).0 == orig[l].0,
                forall|l: int| 0 <= l < orig.len() ==> (#[trigger] self.entries@[l]).1.wf(),
                forall|l: int| i <= l < orig.len() ==> #[trigger] self.entries@[l] == orig[l],
                forall|l: int|
                    #![trigger self.entries@[l]]
                    0 <= l < i ==> (match assoc_get(other.entries_seq(), orig[l].0) {
                        Some(b) => (forall|v: int|
                            (#[trigger] self.entries@[l].1.contains(v)) == (orig[l].1.contains(v)
                                || b.contains(v))) && self.entries@[l].1.normalized(),
                        None => self.entries@[l] == orig[l],
                    }),
            decreases orig.len() - i,
        {
            let id = self.entries[i].0;
            let found = other.get(id);
            proof {
                lemma_assoc_get(other.entries_seq());
            }
            match found {
                Some(obv) => {
                    let ghost pre = self.entries@;
                    let (key, mut nb) = self.entries.remove(i);
                    nb.join(obv);
                    let ghost newbv = nb;
                    self.entries.insert(i, (key, nb));
                    proof {
                        assert(self.entries@ =~= pre.update(i as int, (id, newbv)));
                    }
                },
                None => {},
            }
            i = i + 1;
        }
        proof {
            assert forall|x: int, y: int|
                0 <= x < y < self.entries_seq().len() implies self.entries_seq()[x].0
                < self.entries_seq()[y].0 by {
                assert(orig[x].0 < orig[y].0);
            }
            lemma_assoc_get(self.entries_seq());
            lemma_assoc_get(other.entries_seq());
            assert forall|k: Id| #[trigger]
                self.get_bv(k) is Some <==> old(self).get_bv(k) is Some by {
                if self.get_bv(k) is Some {
                    let j = choose|j: int|
                        0 <= j < self.entries_seq().len() && self.entries_seq()[j].0 == k;
                    assert(orig[j].0 == k);
                }
                if old(self).get_bv(k) is Some {
                    let j = choose|j: int| 0 <= j < orig.len() && orig[j].0 == k;
                    assert(self.entries_seq()[j].0 == k);
                }
            }
            assert forall|k: Id, v: int| #[trigger]
                self.covers(k, v) == (old(self).covers(k, v) || (old(self).get_bv(k) is Some
                    && other.covers(k, v))) by {
                if self.get_bv(k) is Some {
                    let j = choose|j: int|
                        0 <= j < self.entries_seq().len() && self.entries_seq()[j].0 == k;
                    assert(orig[j].0 == k);
                    assert(self.get_bv(k) == Some(self.entries_seq()[j].1));
                    assert(old(self).get_bv(k) == Some(orig[j].1));
                }
            }
            assert forall|k: Id|
                other.get_bv(k) is None implies self.get_bv(k) == #[trigger] old(self).get_bv(
                k,
            ) by {
                if self.get_bv(k) is Some {
                    let j = choose|j: int|
                        0 <= j < self.entries_seq().len() && self.entries_seq()[j].0 == k;
                    assert(orig[j].0 == k);
                    assert(self.get_bv(k) == Some(self.entries_seq()[j].1));
                    assert(old(self).get_bv(k) == Some(orig[j].1));
                }
            }
            assert forall|i2: int|
                0 <= i2 < self.entries_seq().len() implies (other.get_bv(
                (#[trigger] self.entries_seq()[i2]).0,
            ) is Some ==> self.entries_seq()[i2].1.normalized()) by {
                if other.get_bv(self.entries_seq()[i2].0) is Some {
                    assert(self.entries_seq()[i2].0 == orig[i2].0);
                }
            }
        }
    }

    /// Clears every bitmap, keeping the bases.
    pub fn reset(&mut self)
        requires
            old(self).wf(),
        ensures
            final(self).wf(),
            final(self).all_normalized(),
            forall|k: Id| #[trigger] final(self).get_bv(k) is Some <==> old(self).get_bv(k) is Some,
            forall|k: Id| #[trigger] final(self).base0(k) == old(self).base0(k),
            forall|k: Id, v: int| #[trigger]
                final(self).covers(k, v) == (1 <= v <= old(self).base0(k) && old(self).get_bv(
                    k,
                ) is Some),
    {
        let ghost orig = self.entries@;
        let mut i: usize = 0;
        proof {
            lemma_assoc_get(orig);
        }
        while i < self.entries.len()
            invariant
                i <= self.entries@.len(),
                self.entries@.len() == orig.len(),
                sorted_by_id(orig),
                forall|l: int| 0 <= l < orig.len() ==> (#[trigger] self.entries@[l]).0 == orig[l].0,
                forall|l: int| 0 <= l < orig.len() ==> (#[trigger] orig[l]).1.wf(),
                forall|l: int| i <= l < orig.len() ==> #[trigger] self.entries@[l] == orig[l],
                forall|l: int|
                    0 <= l < i ==> (#[trigger] self.entries@[l]).1.base_val()
                        == orig[l].1.base_val() && self.entries@[l].1.bits().len() == 0,
            decreases orig.len() - i,
        {
            let ghost pre = self.entries@;
            let (key, ob) = self.entries.remove(i);
            let nb = BitmappedVersion { base: ob.base, bitmap: Bitmap::new() };
            let ghost nbg = nb;
            self.entries.insert(i, (key, nb));
            proof {
                assert(self.entries@ =~= pre.update(i as int, (key, nbg)));
            }
            i = i + 1;
        }
        proof {
            assert forall|x: int, y: int|
                0 <= x < y < self.entries_seq().len() implies self.entries_seq()[x].0
                < self.entries_seq()[y].0 by {
                assert(orig[x].0 < orig[y].0);
            }
            lemma_assoc_get(self.entries_seq());
            assert forall|k: Id| #[trigger]
                self.get_bv(k) is Some <==> old(self).get_bv(k) is Some by {
                if self.get_bv(k) is Some {
                    let j = choose|j: int|
                        0 <= j < self.entries_seq().len() && self.entries_seq()[j].0 == k;
                    assert(orig[j].0 == k);
                }
                if old(self).get_bv(k) is Some {
                    let j = choose|j: int| 0 <= j < orig.len() && orig[j].0 == k;
                    assert(self.entries_seq()[j].0 == k);
                }
            }
            assert forall|k: Id| #[trigger] self.base0(k) == old(self).base0(k) by {
                if self.get_bv(k) is Some {
                    let j = choose|j: int|
                        0 <= j < self.entries_seq().len() && self.entries_seq()[j].0 == k;
                    assert(orig[j].0 == k);
                    assert(self.get_bv(k) == Some(self.entries_seq()[j].1));
                    assert(old(self).get_bv(k) == Some(orig[j].1));
                }
            }
            assert forall|k: Id, v: int| #[trigger]
                self.covers(k, v) == (1 <= v <= old(self).base0(k) && old(self).get_bv(
                    k,
                ) is Some) by {
                if self.get_bv(k) is Some {
                    let j = choose|j: int|
                        0 <= j < self.entries_seq().len() && self.entries_seq()[j].0 == k;
                    assert(orig[j].0 == k);
                    assert(self.get_bv(k) == Some(self.entries_seq()[j].1));
                    assert(old(self).get_bv(k) == Some(orig[j].1));
                }
            }
        }
    }

    /// A fresh clock with the same actors, each holding only its dense base.
    pub fn clone_base(&self) -> (r: Self)
        requires
            self.wf(),
        ensures
            r.wf(),
            r.all_normalized(),
            forall|k: Id| #[trigger] r.get_bv(k) is Some <==> self.get_bv(k) is Some,
            forall|k: Id| #[trigger] r.base0(k) == self.base0(k),
            forall|k: Id, v: int| #[trigger]
                r.covers(k, v) == (1 <= v <= self.base0(k) && self.get_bv(k) is Some),
    {
        let mut r = self.duplicate();
        r.reset();
        r
    }

    /// Two well-formed, normalized clocks recording the same actors and the
    /// same observed events are equal in every entry.
    pub proof fn lemma_canonical(a: &Self, b: &Self)
        requires
            a.wf(),
            b.wf(),
            a.all_normalized(),
            b.all_normalized(),
            forall|k: Id| #[trigger] a.get_bv(k) is Some <==> b.get_bv(k) is Some,
            forall|k: Id, v: int| #[trigger] a.covers(k, v) == b.covers(k, v),
        ensures
            a.equiv(b),
    {
        assert forall|k: u64| #[trigger]
            assoc_get(a.entries_seq(), k) is Some <==> assoc_get(
            b.entries_seq(),
            k,
        ) is Some by {
            assert(a.get_bv(k) is Some <==> b.get_bv(k) is Some);
        }
        lemma_assoc_keys_canonical(a.entries_seq(), b.entries_seq());
        lemma_assoc_get(a.entries_seq());
        lemma_assoc_get(b.entries_seq());
        assert forall|i: int|
            0 <= i < a.entries_seq().len() implies (#[trigger] a.entries_seq()[i]).0
            == b.entries_seq()[i].0 && a.entries_seq()[i].1.base_val()
            == b.entries_seq()[i].1.base_val() && a.entries_seq()[i].1.bits()
            == b.entries_seq()[i].1.bits() by {
            let k = a.entries_seq()[i].0;
            assert(b.entries_seq()[i].0 == k);
            assert(assoc_get(a.entries_seq(), k) == Some(a.entries_seq()[i].1));
            assert(assoc_get(b.entries_seq(), k) == Some(b.entries_seq()[i].1));
            let va = a.entries_seq()[i].1;
            let vb = b.entries_seq()[i].1;
            assert forall|v: int| #[trigger] va.contains(v) == vb.contains(v) by {
                assert(a.covers(k, v) == b.covers(k, v));
            }
            BitmappedVersion::lemma_canonical(&va, &vb);
        }
    }
}

impl PartialEq for BitmappedVersionVector {
    /// Whether the two clocks hold the same actors with equal values.
    fn eq(&self, other: &Self) -> (r: bool) {
        if self.entries.len() != other.entries.len() {
            return false;
        }
        let mut i: usize = 0;
        while i < self.entries.len()
            invariant
                self.entries@.len() == other.entries@.len(),
                i <= self.entries@.len(),
                forall|j: int|
                    0 <= j < i ==> (#[trigger] self.entries@[j]).0 == other.entries@[j].0
                        && self.entries@[j].1.base_val() == other.entries@[j].1.base_val()
                        && self.entries@[j].1.bits() == other.entries@[j].1.bits(),
            decreases self.entries@.len() - i,
        {
            if self.entries[i].0 != other.entries[i].0 {
                return false;
            }
            if !(self.entries[i].1 == other.entries[i].1) {
                return false;
            }
            i = i + 1;
        }
        true
    }
}

impl vstd::std_specs::cmp::PartialEqSpecImpl for BitmappedVersionVector {
    open spec fn obeys_eq_spec() -> bool {
        true
    }

    open spec fn eq_spec(&self, other: &Self) -> bool {
        self.equiv(other)
    }
}

impl Eq for BitmappedVersionVector {}

/// Compares two dots in lexicographic order.
fn dot_before(a: (Id, Version), b: (Id, Version)) -> (r: bool)
    ensures
        r == dot_lt(a, b),
{
    a.0 < b.0 || (a.0 == b.0 && a.1 < b.1)
}

/// The position of the first entry whose dot is not below `d`.
fn dots_position<T>(entries: &Vec<((Id, Version), T)>, d: (Id, Version)) -> (r: usize)
    requires
        sorted_by_dot(entries@),
    ensures
        r <= entries@.len(),
        forall|j: int| 0 <= j < r ==> dot_lt(entries@[j].0, d),
        r < entries@.len() ==> !dot_lt(entries@[r as int].0, d),
{
    let mut i: usize = 0;
    while i < entries.len() && dot_before(entries[i].0, d)
        invariant
            i <= entries@.len(),
            forall|j: int| 0 <= j < i ==> dot_lt(entries@[j].0, d),
        decreases entries@.len() - i,
    {
        i = i + 1;
    }
    i
}

/// Whether the sorted sequence holds the dot `d`.
fn dots_find<T>(entries: &Vec<((Id, Version), T)>, d: (Id, Version)) -> (r: bool)
    requires
        sorted_by_dot(entries@),
    ensures
        r == (assoc_get_dot(entries@, d) is Some),
{
    let i = dots_position(entries, d);
    proof {
        lemma_assoc_get_dot(entries@);
    }
    if i < entries.len() && entries[i].0 .0 == d.0 && entries[i].0 .1 == d.1 {
        proof {
            assert(entries@[i as int].0 == d);
        }
        true
    } else {
        proof {
            if assoc_get_dot(entries@, d) is Some {
                let j = choose|j: int| 0 <= j < entries@.len() && entries@[j].0 == d;
                if i < entries@.len() {
                    assert(j < i || j > i || j == i);
                    if j > i {
                        assert(dot_lt(entries@[i as int].0, entries@[j].0));
                    }
                }
                assert(false);
            }
        }
        false
    }
}

/// The concurrent values of one key, each tagged by the dot that wrote it.
#[derive(Clone, Debug)]
pub struct Dots<T> {
    entries: Vec<((Id, Version), T)>,
}

impl<T> Dots<T> {
    /// The stored pairs, in increasing dot order.
    pub closed spec fn entries_seq(&self) -> Seq<((Id, Version), T)> {
        self.entries@
    }

    /// Entries are sorted strictly by dot.
    pub open spec fn wf(&self) -> bool {
        sorted_by_dot(self.entries_seq())
    }

    /// The value written at `d`, when there is one.
    pub open spec fn get_dot(&self, d: (Id, Version)) -> Option<T> {
        assoc_get_dot(self.entries_seq(), d)
    }

    /// An empty set of dots.
    pub fn new() -> (r: Self)
        ensures
            r.wf(),
            r.entries_seq().len() == 0,
            forall|d: (Id, Version)| (#[trigger] r.get_dot(d)) is None,
    {
        let r = Dots { entries: Vec::new() };
        proof {
            lemma_assoc_get_dot(r.entries_seq());
        }
        r
    }

    /// How many dots are stored.
    pub fn len(&self) -> (r: usize)
        ensures
            r == self.entries_seq().len(),
    {
        self.entries.len()
    }

    /// The dot at position `i`.
    pub fn dot_at(&self, i: usize) -> (r: (Id, Version))
        requires
            i < self.entries_seq().len(),
        ensures
            r == self.entries_seq()[i as int].0,
    {
        self.entries[i].0
    }

    /// The value at position `i`.
    pub fn value_at(&self, i: usize) -> (r: &T)
        requires
            i < self.entries_seq().len(),
        ensures
            *r == self.entries_seq()[i as int].1,
    {
        &self.entries[i].1
    }

    /// Stores `value` at `dot`, replacing any value written there.
    pub fn add(&mut self, dot: (Id, Version), value: T)
        requires
            old(self).wf(),
        ensures
            final(self).wf(),
            final(self).get_dot(dot) == Some(value),
            forall|k: (Id, Version)|
                k != dot ==> final(self).get_dot(k) == #[trigger] old(self).get_dot(k),
    {
        let i = dots_position(&self.entries, dot);
        proof {
            lemma_assoc_get_dot(self.entries_seq());
        }
        if i < self.entries.len() && self.entries[i].0 .0 == dot.0 && self.entries[i].0 .1
            == dot.1 {
            let ghost pre = self.entries@;
            proof {
                assert(pre[i as int].0 == dot);
            }
            self.entries.set(i, (dot, value));
            proof {
                lemma_assoc_update_dot(pre, i as int, value);
                assert(pre.update(i as int, (pre[i as int].0, value)) == pre.update(
                    i as int,
                    (dot, value),
                ));
            }
        } else {
            let ghost pre = self.entries@;
            proof {
                assert forall|j: int| i <= j < pre.len() implies dot_lt(dot, pre[j].0) by {
                    if j > i {
                        assert(dot_lt(pre[i as int].0, pre[j].0));
                    }
                }
            }
            self.entries.insert(i, (dot, value));
            proof {
                lemma_assoc_insert_dot(pre, i as int, dot, value);
            }
        }
    }
}

/// The per-key value of the store: concurrent sibling values tagged by their
/// dots, together with a causal context.
#[derive(Clone, Debug)]
pub struct DottedCausalContainer<T> {
    dots: Dots<T>,
    vv: VersionVector,
}

impl<T> DottedCausalContainer<T> {
    /// The stored dot-value pairs, in increasing dot order.
    pub closed spec fn dots_seq(&self) -> Seq<((Id, Version), T)> {
        self.dots.entries_seq()
    }

    /// The causal context.
    pub closed spec fn context(&self) -> VersionVector {
        self.vv
    }

    /// The value written at `d`, when there is one.
    pub open spec fn get_dot(&self, d: (Id, Version)) -> Option<T> {
        assoc_get_dot(self.dots_seq(), d)
    }

    /// Whether a value was written at `d`.
    pub open spec fn has_dot(&self, d: (Id, Version)) -> bool {
        self.get_dot(d) is Some
    }

    /// Dots are sorted and the context is well-formed.
    pub open spec fn wf(&self) -> bool {
        &&& sorted_by_dot(self.dots_seq())
        &&& self.context().wf()
    }

    /// Whether a dot survives a merge against the container `w`: it is either
    /// present in `w` or not dominated by `w`'s context.
    pub open spec fn retains(w: &Self, d: (Id, Version)) -> bool {
        w.has_dot(d) || d.1 > w.context().frontier(d.0)
    }

    /// What [`Self::sync`] leaves behind: `r` holds exactly the dots of `x`
    /// and `y` that the other side retains, each with its original value, and
    /// the merged context.
    pub open spec fn is_sync_of(r: Self, x: Self, y: Self) -> bool {
        &&& r.wf()
        &&& forall|d: (Id, Version)| #[trigger]
            r.get_dot(d) == (if x.has_dot(d) && Self::retains(&y, d) {
                x.get_dot(d)
            } else if !x.has_dot(d) && y.has_dot(d) && Self::retains(&x, d) {
                y.get_dot(d)
            } else {
                None
            })
        &&& forall|k: Id| #[trigger]
            r.context().get_opt(k) == merged_version(x.context().get_opt(k), y.context().get_opt(k))
    }

    /// A container assembled from its parts.
    pub fn from_parts(dots: Dots<T>, vv: VersionVector) -> (r: Self)
        ensures
            r.dots_seq() == dots.entries_seq(),
            r.context() == vv,
    {
        DottedCausalContainer { dots, vv }
    }

    /// An empty container.
    pub fn new() -> (r: Self)
        ensures
            r.wf(),
            r.dots_seq().len() == 0,
            r.context().entries_seq().len() == 0,
            forall|d: (Id, Version)| (#[trigger] r.get_dot(d)) is None,
            forall|k: Id| (#[trigger] r.context().get_opt(k)) is None,
    {
        DottedCausalContainer { dots: Dots::new(), vv: VersionVector::new() }
    }

    /// Whether no sibling value is stored.
    pub fn is_empty(&self) -> (r: bool)
        ensures
            r == (self.dots_seq().len() == 0),
    {
        self.dots.entries.is_empty()
    }

    /// How many sibling values are stored.
    pub fn len(&self) -> (r: usize)
        ensures
            r == self.dots_seq().len(),
    {
        self.dots.entries.len()
    }

    /// The dot at position `i`.
    pub fn dot_at(&self, i: usize) -> (r: (Id, Version))
        requires
            i < self.dots_seq().len(),
        ensures
            r == self.dots_seq()[i as int].0,
    {
        self.dots.dot_at(i)
    }

    /// The sibling value at position `i`.
    pub fn value_at(&self, i: usize) -> (r: &T)
        requires
            i < self.dots_seq().len(),
        ensures
            *r == self.dots_seq()[i as int].1,
    {
        self.dots.value_at(i)
    }

    /// The causal context.
    pub fn version_vector(&self) -> (r: &VersionVector)
        ensures
            *r == self.context(),
    {
        &self.vv
    }

    /// Stores `value` at dot `(id, version)` and records the version in the
    /// context.
    pub fn add(&mut self, id: Id, version: Version, value: T)
        requires
            old(self).wf(),
        ensures
            final(self).wf(),
            final(self).get_dot((id, version)) == Some(value),
            forall|k: (Id, Version)|
                k != (id, version) ==> final(self).get_dot(k) == #[trigger] old(self).get_dot(k),
            final(self).context().get_opt(id) == Some(
                max64(version, old(self).context().frontier(id)),
            ),
            forall|k: Id|
                k != id ==> final(self).context().get_opt(k) == #[trigger] old(
                    self,
                ).context().get_opt(k),
    {
        self.dots.add((id, version), value);
        self.vv.add(id, version);
        proof {
            assert forall|k: (Id, Version)|
                k != (id, version) implies self.get_dot(k) == #[trigger] old(self).get_dot(k) by {
                assert(self.dots.get_dot(k) == old(self).dots.get_dot(k));
            }
        }
    }

    /// Merges `other` in. A dot survives exactly when the other side also
    /// holds it or has not causally seen past it; contexts merge elementwise.
    pub fn sync(&mut self, other: Self)
        requires
            old(self).wf(),
            other.wf(),
        ensures
            final(self).wf(),
            Self::is_sync_of(*final(self), *old(self), other),
    {
        let DottedCausalContainer { dots: mut odots, vv: ovv } = other;
        let ghost sx = self.dots.entries@;
        let ghost oy = odots.entries@;
        let ghost vxs = self.vv;
        proof {
            lemma_assoc_get_dot(sx);
            lemma_assoc_get_dot(oy);
            assert(sx.take(0) =~= Seq::<((Id, Version), T)>::empty());
        }
        let mut tmp: Vec<((Id, Version), T)> = Vec::new();
        core::mem::swap(&mut tmp, &mut self.dots.entries);
        let mut kept: Vec<((Id, Version), T)> = Vec::new();
        let ghost mut i: int = 0;
        while tmp.len() > 0
            invariant
                sorted_by_dot(sx),
                sorted_by_dot(oy),
                ovv.wf(),
                vxs.wf(),
                odots.entries@ == oy,
                self.vv == vxs,
                0 <= i <= sx.len(),
                tmp@ == sx.subrange(i, sx.len() as int),
                sorted_by_dot(kept@),
                forall|x: int, l: int|
                    0 <= x < kept@.len() && i <= l < sx.len() ==> dot_lt(
                        (#[trigger] kept@[x]).0,
                        (#[trigger] sx[l]).0,
                    ),
                forall|d: (Id, Version)| #[trigger]
                    assoc_get_dot(kept@, d) == (if (assoc_get_dot(oy, d) is Some || d.1
                        > ovv.frontier(d.0)) {
                        assoc_get_dot(sx.take(i), d)
                    } else {
                        None
                    }),
            decreases tmp@.len(),
        {
            let ghost keptpre = kept@;
            let (dk, val) = tmp.remove(0);
            proof {
                assert(tmp@ =~= sx.subrange(i + 1, sx.len() as int));
                assert((dk, val) == sx[i]);
            }
            let keep = dots_find(&odots.entries, dk) || dk.1 > ovv.get_or_zero(dk.0);
            if keep {
                kept.push((dk, val));
                proof {
                    lemma_assoc_insert_dot(keptpre, keptpre.len() as int, dk, val);
                    assert(kept@ == keptpre.insert(keptpre.len() as int, (dk, val)));
                }
            }
            proof {
                lemma_assoc_get_dot(sx.take(i));
                lemma_assoc_insert_dot(sx.take(i), i, dk, val);
                assert(sx.take(i + 1) =~= sx.take(i).insert(i, (dk, val)));
                if assoc_get_dot(sx.take(i), dk) is Some {
                    let m = choose|m: int| 0 <= m < i && sx.take(i)[m].0 == dk;
                    assert(dot_lt(sx[m].0, sx[i].0));
                    assert(false);
                }
                if !keep {
                    lemma_assoc_get_dot(keptpre);
                    if assoc_get_dot(keptpre, dk) is Some {
                        let m = choose|m: int| 0 <= m < keptpre.len() && keptpre[m].0 == dk;
                        assert(dot_lt(keptpre[m].0, sx[i].0));
                        assert(false);
                    }
                }
                assert forall|d: (Id, Version)| #[trigger]
                    assoc_get_dot(kept@, d) == (if (assoc_get_dot(oy, d) is Some || d.1
                        > ovv.frontier(d.0)) {
                        assoc_get_dot(sx.take(i + 1), d)
                    } else {
                        None
                    }) by {
                    if d == dk {
                        assert(assoc_get_dot(sx.take(i + 1), dk) == Some(val));
                    } else {
                        assert(assoc_get_dot(sx.take(i + 1), d) == assoc_get_dot(sx.take(i), d));
                        if keep {
                            assert(assoc_get_dot(kept@, d) == assoc_get_dot(keptpre, d));
                        }
                    }
                }
                i = i + 1;
            }
        }
        proof {
            assert(sx.take(sx.len() as int) =~= sx);
            assert(kept@.len() == 0 || tmp@.len() == 0);
        }
        self.dots.entries = kept;
        let ghost mid = self.dots.entries@;
        let ghost mut j: int = 0;
        proof {
            lemma_assoc_get_dot(mid);
            assert(oy.take(0) =~= Seq::<((Id, Version), T)>::empty());
        }
        while odots.entries.len() > 0
            invariant
                sorted_by_dot(oy),
                vxs.wf(),
                self.vv == vxs,
                0 <= j <= oy.len(),
                odots.entries@ == oy.subrange(j, oy.len() as int),
                sorted_by_dot(self.dots.entries@),
                forall|d: (Id, Version)| #[trigger]
                    assoc_get_dot(self.dots.entries@, d) == (if (assoc_get_dot(
                        oy.take(j),
                        d,
                    ) is Some && assoc_get_dot(mid, d) is None && d.1 > vxs.frontier(d.0)) {
                        assoc_get_dot(oy.take(j), d)
                    } else {
                        assoc_get_dot(mid, d)
                    }),
            decreases odots.entries@.len(),
        {
            let ghost curpre = self.dots.entries@;
            let (dk, val) = odots.entries.remove(0);
            proof {
                assert(odots.entries@ =~= oy.subrange(j + 1, oy.len() as int));
                assert((dk, val) == oy[j]);
                lemma_assoc_get_dot(curpre);
                lemma_assoc_get_dot(oy.take(j));
                lemma_assoc_insert_dot(oy.take(j), j, dk, val);
                assert(oy.take(j + 1) =~= oy.take(j).insert(j, (dk, val)));
                if assoc_get_dot(oy.take(j), dk) is Some {
                    let m = choose|m: int| 0 <= m < j && oy.take(j)[m].0 == dk;
                    assert(dot_lt(oy[m].0, oy[j].0));
                    assert(false);
                }
            }
            let pos = dots_position(&self.dots.entries, dk);
            let found = pos < self.dots.entries.len() && self.dots.entries[pos].0 .0 == dk.0
                && self.dots.entries[pos].0 .1 == dk.1;
            proof {
                if !found && assoc_get_dot(curpre, dk) is Some {
                    let m = choose|m: int| 0 <= m < curpre.len() && curpre[m].0 == dk;
                    if m > pos {
                        assert(dot_lt(curpre[pos as int].0, curpre[m].0));
                    }
                    assert(false);
                }
                if found {
                    assert(curpre[pos as int].0 == dk);
                    assert(assoc_get_dot(curpre, dk) is Some);
                }
            }
            if !found && dk.1 > self.vv.get_or_zero(dk.0) {
                proof {
                    assert forall|l: int|
                        pos <= l < curpre.len() implies dot_lt(dk, curpre[l].0) by {
                        if l > pos {
                            assert(dot_lt(curpre[pos as int].0, curpre[l].0));
                        }
                    }
                }
                self.dots.entries.insert(pos, (dk, val));
                proof {
                    lemma_assoc_insert_dot(curpre, pos as int, dk, val);
                }
            }
            proof {
                assert forall|d: (Id, Version)| #[trigger]
                    assoc_get_dot(self.dots.entries@, d) == (if (assoc_get_dot(
                        oy.take(j + 1),
                        d,
                    ) is Some && assoc_get_dot(mid, d) is None && d.1 > vxs.frontier(d.0)) {
                        assoc_get_dot(oy.take(j + 1), d)
                    } else {
                        assoc_get_dot(mid, d)
                    }) by {
                    if d == dk {
                        assert(assoc_get_dot(oy.take(j + 1), dk) == Some(val));
                        if assoc_get_dot(mid, dk) is Some {
                            assert(assoc_get_dot(curpre, dk) == assoc_get_dot(mid, dk));
                        }
                    } else {
                        assert(assoc_get_dot(oy.take(j + 1), d) == assoc_get_dot(oy.take(j), d));
                        if !found && dk.1 > vxs.frontier(dk.0) {
                            assert(assoc_get_dot(self.dots.entries@, d) == assoc_get_dot(
                                curpre,
                                d,
                            ));
                        }
                    }
                }
                j = j + 1;
            }
        }
        proof {
            assert(oy.take(oy.len() as int) =~= oy);
        }
        self.vv.merge(&ovv);
        proof {
            assert forall|d: (Id, Version)| #[trigger]
                final(self).get_dot(d) == (if old(self).has_dot(d) && Self::retains(&other, d) {
                    old(self).get_dot(d)
                } else if !old(self).has_dot(d) && other.has_dot(d) && Self::retains(
                    &*old(self),
                    d,
                ) {
                    other.get_dot(d)
                } else {
                    None
                }) by {
                assert(old(self).get_dot(d) == assoc_get_dot(sx, d));
                assert(other.get_dot(d) == assoc_get_dot(oy, d));
                assert(other.context() == ovv);
                assert(old(self).context() == vxs);
            }
        }
    }
}

impl<T> DottedCausalContainer<T> {
    /// Records every dot of this container in the node clock `other`.
    pub fn add_to_bvv(&self, other: &mut BitmappedVersionVector)
        requires
            self.wf(),
            old(other).wf(),
            forall|d: (Id, Version)|
                #[trigger] self.has_dot(d) && d.1 > old(other).base0(d.0) ==> d.1 - old(
                    other,
                ).base0(d.0) - 1 < 0x1_0000_0000,
        ensures
            final(other).wf(),
            forall|k: Id| #[trigger]
                final(other).get_bv(k) is Some <==> (old(other).get_bv(k) is Some || exists|w: u64|
                    #[trigger] self.has_dot((k, w))),
            forall|k: Id, v: int| #[trigger]
                final(other).covers(k, v) == (old(other).covers(k, v) || (1 <= v <= u64::MAX
                    && self.has_dot((k, v as u64)))),
            forall|k: Id| #[trigger] final(other).base0(k) >= old(other).base0(k),
    {
        let ghost sx = self.dots.entries@;
        let mut i: usize = 0;
        proof {
            lemma_assoc_get_dot(sx);
            assert(sx.take(0) =~= Seq::<((Id, Version), T)>::empty());
            lemma_assoc_get_dot(sx.take(0));
            assert forall|d: (Id, Version)|
                #[trigger] assoc_get_dot(sx, d) is Some && d.1 > old(other).base0(
                    d.0,
                ) implies d.1 - old(other).base0(d.0) - 1 < 0x1_0000_0000 by {
                assert(self.has_dot(d));
            }
        }
        while i < self.dots.entries.len()
            invariant
                self.wf(),
                self.dots.entries@ == sx,
                i <= sx.len(),
                other.wf(),
                forall|d: (Id, Version)|
                    #[trigger] assoc_get_dot(sx, d) is Some && d.1 > old(other).base0(d.0) ==> d.1
                        - old(other).base0(d.0) - 1 < 0x1_0000_0000,
                forall|k: Id| #[trigger] other.base0(k) >= old(other).base0(k),
                forall|k: Id| #[trigger]
                    other.get_bv(k) is Some <==> (old(other).get_bv(k) is Some || exists|w: u64|
                        #[trigger] assoc_get_dot(sx.take(i as int), (k, w)) is Some),
                forall|k: Id, v: int| #[trigger]
                    other.covers(k, v) == (old(other).covers(k, v) || (1 <= v <= u64::MAX
                        && assoc_get_dot(sx.take(i as int), (k, v as u64)) is Some)),
            decreases sx.len() - i,
        {
            let (dk, _) = self.dots.entries[i];
            let ghost mid = *other;
            proof {
                if dk.1 > mid.base0(dk.0) {
                    assert(sx[i as int].0 == dk);
                    lemma_assoc_get_dot(sx);
                    assert(assoc_get_dot(sx, dk) is Some);
                    assert(dk.1 - old(other).base0(dk.0) - 1 < 0x1_0000_0000);
                    assert(mid.base0(dk.0) >= old(other).base0(dk.0));
                }
            }
            other.add(dk.0, dk.1);
            proof {
                lemma_assoc_get_dot(sx.take(i as int));
                lemma_assoc_insert_dot(sx.take(i as int), i as int, dk, sx[i as int].1);
                assert(sx.take(i + 1) =~= sx.take(i as int).insert(i as int, sx[i as int]));
                assert(sx[i as int] == (dk, sx[i as int].1));
                lemma_assoc_get_dot(sx.take(i + 1));
                assert forall|k: Id| #[trigger]
                    other.get_bv(k) is Some <==> (old(other).get_bv(k) is Some || exists|w: u64|
                        #[trigger] assoc_get_dot(sx.take(i + 1), (k, w)) is Some) by {
                    if k == dk.0 {
                        assert(assoc_get_dot(sx.take(i + 1), (dk.0, dk.1)) is Some);
                    } else {
                        assert forall|w: u64| #[trigger]
                            assoc_get_dot(sx.take(i + 1), (k, w)) is Some <==> assoc_get_dot(
                            sx.take(i as int),
                            (k, w),
                        ) is Some by {
                            assert((k, w) != dk);
                            assert(assoc_get_dot(sx.take(i + 1), (k, w)) == assoc_get_dot(
                                sx.take(i as int),
                                (k, w),
                            ));
                        }
                        assert(other.get_bv(k) == mid.get_bv(k));
                    }
                }
                assert forall|k: Id, v: int| #[trigger]
                    other.covers(k, v) == (old(other).covers(k, v) || (1 <= v <= u64::MAX
                        && assoc_get_dot(sx.take(i + 1), (k, v as u64)) is Some)) by {
                    if k == dk.0 {
                        assert(other.covers(k, v) == (mid.covers(k, v) || (v == dk.1 && dk.1
                            >= 1)));
                        if v != dk.1 && 1 <= v <= u64::MAX {
                            assert((k, v as u64) != dk);
                            assert(assoc_get_dot(sx.take(i + 1), (k, v as u64)) == assoc_get_dot(
                                sx.take(i as int),
                                (k, v as u64),
                            ));
                        }
                        if v == dk.1 && dk.1 >= 1 {
                            assert(assoc_get_dot(sx.take(i + 1), (k, v as u64)) is Some);
                        }
                    } else {
                        assert(other.covers(k, v) == mid.covers(k, v));
                        if 1 <= v <= u64::MAX {
                            assert((k, v as u64) != dk);
                            assert(assoc_get_dot(sx.take(i + 1), (k, v as u64)) == assoc_get_dot(
                                sx.take(i as int),
                                (k, v as u64),
                            ));
                        }
                    }
                }
            }
            i = i + 1;
        }
        proof {
            assert(sx.take(sx.len() as int) =~= sx);
            assert forall|k: Id| #[trigger]
                other.get_bv(k) is Some <==> (old(other).get_bv(k) is Some || exists|w: u64|
                    #[trigger] self.has_dot((k, w))) by {
                if exists|w: u64| #[trigger] self.has_dot((k, w)) {
                    let w = choose|w: u64| #[trigger] self.has_dot((k, w));
                    assert(assoc_get_dot(sx.take(sx.len() as int), (k, w)) is Some);
                }
                if exists|w: u64| #[trigger] assoc_get_dot(sx.take(sx.len() as int), (k, w)) is Some {
                    let w = choose|w: u64| #[trigger]
                        assoc_get_dot(sx.take(sx.len() as int), (k, w)) is Some;
                    assert(self.has_dot((k, w)));
                }
            }
        }
    }

    /// Drops every sibling whose dot is dominated by `ctx`, and merges `ctx`
    /// into the context.
    pub fn discard(&mut self, ctx: &VersionVector)
        requires
            old(self).wf(),
            ctx.wf(),
        ensures
            final(self).wf(),
            forall|d: (Id, Version)| #[trigger]
                final(self).get_dot(d) == (if d.1 > ctx.frontier(d.0) {
                    old(self).get_dot(d)
                } else {
                    None
                }),
            forall|k: Id| #[trigger]
                final(self).context().get_opt(k) == merged_version(
                    old(self).context().get_opt(k),
                    ctx.get_opt(k),
                ),
    {
        let ghost sx = self.dots.entries@;
        proof {
            lemma_assoc_get_dot(sx);
            assert(sx.take(0) =~= Seq::<((Id, Version), T)>::empty());
        }
        let mut tmp: Vec<((Id, Version), T)> = Vec::new();
        core::mem::swap(&mut tmp, &mut self.dots.entries);
        let mut kept: Vec<((Id, Version), T)> = Vec::new();
        let ghost mut i: int = 0;
        while tmp.len() > 0
            invariant
                sorted_by_dot(sx),
                ctx.wf(),
                0 <= i <= sx.len(),
                tmp@ == sx.subrange(i, sx.len() as int),
                sorted_by_dot(kept@),
                forall|x: int, l: int|
                    0 <= x < kept@.len() && i <= l < sx.len() ==> dot_lt(
                        (#[trigger] kept@[x]).0,
                        (#[trigger] sx[l]).0,
                    ),
                forall|d: (Id, Version)| #[trigger]
                    assoc_get_dot(kept@, d) == (if d.1 > ctx.frontier(d.0) {
                        assoc_get_dot(sx.take(i), d)
                    } else {
                        None
                    }),
            decreases tmp@.len(),
        {
            let ghost keptpre = kept@;
            let (dk, val) = tmp.remove(0);
            proof {
                assert(tmp@ =~= sx.subrange(i + 1, sx.len() as int));
                assert((dk, val) == sx[i]);
            }
            let keep = dk.1 > ctx.get_or_zero(dk.0);
            if keep {
                kept.push((dk, val));
                proof {
                    lemma_assoc_insert_dot(keptpre, keptpre.len() as int, dk, val);
                    assert(kept@ == keptpre.insert(keptpre.len() as int, (dk, val)));
                }
            }
            proof {
                lemma_assoc_get_dot(sx.take(i));
                lemma_assoc_insert_dot(sx.take(i), i, dk, val);
                assert(sx.take(i + 1) =~= sx.take(i).insert(i, (dk, val)));
                if assoc_get_dot(sx.take(i), dk) is Some {
                    let m = choose|m: int| 0 <= m < i && sx.take(i)[m].0 == dk;
                    assert(dot_lt(sx[m].0, sx[i].0));
                    assert(false);
                }
                if !keep {
                    lemma_assoc_get_dot(keptpre);
                    if assoc_get_dot(keptpre, dk) is Some {
                        let m = choose|m: int| 0 <= m < keptpre.len() && keptpre[m].0 == dk;
                        assert(dot_lt(keptpre[m].0, sx[i].0));
                        assert(false);
                    }
                }
                assert forall|d: (Id, Version)| #[trigger]
                    assoc_get_dot(kept@, d) == (if d.1 > ctx.frontier(d.0) {
                        assoc_get_dot(sx.take(i + 1), d)
                    } else {
                        None
                    }) by {
                    if d != dk {
                        assert(assoc_get_dot(sx.take(i + 1), d) == assoc_get_dot(sx.take(i), d));
                        if keep {
                            assert(assoc_get_dot(kept@, d) == assoc_get_dot(keptpre, d));
                        }
                    } else {
                        assert(assoc_get_dot(sx.take(i + 1), dk) == Some(val));
                    }
                }
                i = i + 1;
            }
        }
        proof {
            assert(sx.take(sx.len() as int) =~= sx);
        }
        self.dots.entries = kept;
        self.vv.merge(ctx);
    }

    /// Prunes from the context every actor whose frontier the node clock
    /// already covers densely. The siblings do not change.
    pub fn strip(&mut self, bvv: &BitmappedVersionVector)
        requires
            old(self).wf(),
            bvv.wf(),
        ensures
            final(self).wf(),
            final(self).dots_seq() == old(self).dots_seq(),
            forall|k: Id| #[trigger]
                final(self).context().get_opt(k) == (match old(self).context().get_opt(k) {
                    Some(v) => if v > bvv.base0(k) {
                        Some(v)
                    } else {
                        None
                    },
                    None => None,
                }),
    {
        let ghost sv = self.vv.entries@;
        proof {
            lemma_assoc_get(sv);
            assert(sv.take(0) =~= Seq::<(Id, Version)>::empty());
        }
        let mut tmp: Vec<(Id, Version)> = Vec::new();
        core::mem::swap(&mut tmp, &mut self.vv.entries);
        let mut kept: Vec<(Id, Version)> = Vec::new();
        let ghost mut i: int = 0;
        while tmp.len() > 0
            invariant
                sorted_by_id(sv),
                bvv.wf(),
                0 <= i <= sv.len(),
                tmp@ == sv.subrange(i, sv.len() as int),
                sorted_by_id(kept@),
                forall|x: int, l: int|
                    0 <= x < kept@.len() && i <= l < sv.len() ==> (#[trigger] kept@[x]).0 < (
                    #[trigger] sv[l]).0,
                forall|k: Id| #[trigger]
                    assoc_get(kept@, k) == (match assoc_get(sv.take(i), k) {
                        Some(v) => if v > bvv.base0(k) {
                            Some(v)
                        } else {
                            None
                        },
                        None => None,
                    }),
            decreases tmp@.len(),
        {
            let ghost keptpre = kept@;
            let (id, ver) = tmp.remove(0);
            proof {
                assert(tmp@ =~= sv.subrange(i + 1, sv.len() as int));
                assert((id, ver) == sv[i]);
            }
            let keep = match bvv.get(id) {
                Some(bv) => ver > bv.base(),
                None => ver > 0,
            };
            proof {
                assert(keep == (ver > bvv.base0(id)));
            }
            if keep {
                kept.push((id, ver));
                proof {
                    lemma_assoc_insert(keptpre, keptpre.len() as int, id, ver);
                    assert(kept@ == keptpre.insert(keptpre.len() as int, (id, ver)));
                }
            }
            proof {
                lemma_assoc_get(sv.take(i));
                lemma_assoc_insert(sv.take(i), i, id, ver);
                assert(sv.take(i + 1) =~= sv.take(i).insert(i, (id, ver)));
                if assoc_get(sv.take(i), id) is Some {
                    let m = choose|m: int| 0 <= m < i && sv.take(i)[m].0 == id;
                    assert(sv[m].0 < sv[i].0);
                    assert(false);
                }
                if !keep {
                    lemma_assoc_get(keptpre);
                    if assoc_get(keptpre, id) is Some {
                        let m = choose|m: int| 0 <= m < keptpre.len() && keptpre[m].0 == id;
                        assert(keptpre[m].0 < sv[i].0);
                        assert(false);
                    }
                }
                assert forall|k: Id| #[trigger]
                    assoc_get(kept@, k) == (match assoc_get(sv.take(i + 1), k) {
                        Some(v) => if v > bvv.base0(k) {
                            Some(v)
                        } else {
                            None
                        },
                        None => None,
                    }) by {
                    if k != id {
                        assert(assoc_get(sv.take(i + 1), k) == assoc_get(sv.take(i), k));
                        if keep {
                            assert(assoc_get(kept@, k) == assoc_get(keptpre, k));
                        }
                    } else {
                        assert(assoc_get(sv.take(i + 1), id) == Some(ver));
                    }
                }
                i = i + 1;
            }
        }
        proof {
            assert(sv.take(sv.len() as int) =~= sv);
        }
        self.vv.entries = kept;
    }

    /// Re-inflates the context from the node clock: every actor of `bvv` is
    /// raised to at least its dense base. The siblings do not change.
    pub fn fill(&mut self, bvv: &BitmappedVersionVector)
        requires
            old(self).wf(),
            bvv.wf(),
        ensures
            final(self).wf(),
            final(self).dots_seq() == old(self).dots_seq(),
            forall|k: Id| #[trigger]
                final(self).context().get_opt(k) == (if bvv.get_bv(k) is Some {
                    Some(max64(bvv.base0(k), old(self).context().frontier(k)))
                } else {
                    old(self).context().get_opt(k)
                }),
    {
        let ghost sb = bvv.entries_seq();
        let mut i: usize = 0;
        proof {
            lemma_assoc_get(sb);
            assert(sb.take(0) =~= Seq::<(Id, BitmappedVersion)>::empty());
        }
        while i < bvv.len()
            invariant
                bvv.wf(),
                bvv.entries_seq() == sb,
                i <= sb.len(),
                self.wf(),
                self.dots.entries@ == old(self).dots.entries@,
                forall|k: Id| #[trigger]
                    self.context().get_opt(k) == (if assoc_get(sb.take(i as int), k) is Some {
                        Some(
                            max64(
                                (match assoc_get(sb.take(i as int), k) {
                                    Some(bv) => bv.base_val(),
                                    None => 0,
                                }),
                                old(self).context().frontier(k),
                            ),
                        )
                    } else {
                        old(self).context().get_opt(k)
                    }),
            decreases sb.len() - i,
        {
            let id = bvv.key_at(i);
            let base = bvv.bv_at(i).base();
            let ghost mid = self.vv;
            self.vv.add(id, base);
            proof {
                let ghost obv = sb[i as int].1;
                lemma_assoc_get(sb.take(i as int));
                lemma_assoc_insert(sb.take(i as int), i as int, id, obv);
                assert(sb.take(i + 1) =~= sb.take(i as int).insert(i as int, (id, obv)));
                if assoc_get(sb.take(i as int), id) is Some {
                    let m = choose|m: int| 0 <= m < i && sb.take(i as int)[m].0 == id;
                    assert(sb[m].0 < sb[i as int].0);
                    assert(false);
                }
                assert forall|k: Id| #[trigger]
                    self.context().get_opt(k) == (if assoc_get(sb.take(i + 1), k) is Some {
                        Some(
                            max64(
                                (match assoc_get(sb.take(i + 1), k) {
                                    Some(bv) => bv.base_val(),
                                    None => 0,
                                }),
                                old(self).context().frontier(k),
                            ),
                        )
                    } else {
                        old(self).context().get_opt(k)
                    }) by {
                    if k == id {
                        assert(assoc_get(sb.take(i + 1), id) == Some(obv));
                        assert(self.vv.get_opt(id) == Some(max64(base, mid.frontier(id))));
                    } else {
                        assert(assoc_get(sb.take(i + 1), k) == assoc_get(sb.take(i as int), k));
                        assert(self.vv.get_opt(k) == mid.get_opt(k));
                    }
                }
            }
            i = i + 1;
        }
        proof {
            assert(sb.take(sb.len() as int) =~= sb);
        }
    }
}

/// Copies a byte vector.
pub(crate) fn copy_bytes(src: &Vec<u8>) -> (r: Vec<u8>)
    ensures
        r@ == src@,
{
    let mut out: Vec<u8> = Vec::new();
    let mut i: usize = 0;
    while i < src.len()
        invariant
            i <= src@.len(),
            out@ == src@.take(i as int),
        decreases src@.len() - i,
    {
        out.push(src[i]);
        proof {
            assert(out@ =~= src@.take(i + 1));
        }
        i = i + 1;
    }
    proof {
        assert(out@ =~= src@);
    }
    out
}

impl DottedCausalContainer<Vec<u8>> {
    /// A copy equal to this container in every dot, byte value and context
    /// entry.
    pub fn duplicate(&self) -> (r: Self)
        ensures
            r.dots_seq().len() == self.dots_seq().len(),
            forall|i: int|
                0 <= i < self.dots_seq().len() ==> (#[trigger] r.dots_seq()[i]).0
                    == self.dots_seq()[i].0 && r.dots_seq()[i].1@ == self.dots_seq()[i].1@,
            r.context().entries_seq() == self.context().entries_seq(),
    {
        let mut entries: Vec<((Id, Version), Vec<u8>)> = Vec::new();
        let mut i: usize = 0;
        while i < self.dots.entries.len()
            invariant
                i <= self.dots.entries@.len(),
                entries@.len() == i,
                forall|j: int|
                    0 <= j < i ==> (#[trigger] entries@[j]).0 == self.dots.entries@[j].0
                        && entries@[j].1@ == self.dots.entries@[j].1@,
            decreases self.dots.entries@.len() - i,
        {
            let dk = self.dots.entries[i].0;
            let val = copy_bytes(&self.dots.entries[i].1);
            entries.push((dk, val));
            i = i + 1;
        }
        DottedCausalContainer { dots: Dots { entries }, vv: self.vv.duplicate() }
    }
}

impl<T: PartialEq> PartialEq for Dots<T> {
    /// Whether the two sets hold the same dots with equal values.
    fn eq(&self, other: &Self) -> (r: bool) {
        if self.entries.len() != other.entries.len() {
            return false;
        }
        let mut i: usize = 0;
        while i < self.entries.len()
            invariant
                self.entries@.len() == other.entries@.len(),
                i <= self.entries@.len(),
                T::obeys_eq_spec() ==> forall|j: int|
                    0 <= j < i ==> (#[trigger] self.entries@[j]).0 == other.entries@[j].0
                        && self.entries@[j].1.eq_spec(&other.entries@[j].1),
            decreases self.entries@.len() - i,
        {
            if self.entries[i].0 .0 != other.entries[i].0 .0 || self.entries[i].0 .1
                != other.entries[i].0 .1 {
                return false;
            }
            if !(self.entries[i].1 == other.entries[i].1) {
                return false;
            }
            i = i + 1;
        }
        true
    }
}

impl<T: PartialEq> vstd::std_specs::cmp::PartialEqSpecImpl for Dots<T> {
    open spec fn obeys_eq_spec() -> bool {
        T::obeys_eq_spec()
    }

    open spec fn eq_spec(&self, other: &Self) -> bool {
        &&& self.entries_seq().len() == other.entries_seq().len()
        &&& forall|j: int|
            0 <= j < self.entries_seq().len() ==> (#[trigger] self.entries_seq()[j]).0
                == other.entries_seq()[j].0 && self.entries_seq()[j].1.eq_spec(
                &other.entries_seq()[j].1,
            )
    }
}

impl<T: Eq> Eq for Dots<T> {}

impl<T: PartialEq> PartialEq for DottedCausalContainer<T> {
    /// Whether dots, values and context all agree.
    fn eq(&self, other: &Self) -> (r: bool) {
        self.dots == other.dots && self.vv == other.vv
    }
}

impl<T: PartialEq> vstd::std_specs::cmp::PartialEqSpecImpl for DottedCausalContainer<T> {
    open spec fn obeys_eq_spec() -> bool {
        T::obeys_eq_spec()
    }

    open spec fn eq_spec(&self, other: &Self) -> bool {
        &&& self.dots_seq().len() == other.dots_seq().len()
        &&& forall|j: int|
            0 <= j < self.dots_seq().len() ==> (#[trigger] self.dots_seq()[j]).0
                == other.dots_seq()[j].0 && self.dots_seq()[j].1.eq_spec(&other.dots_seq()[j].1)
        &&& self.context().entries_seq() == other.context().entries_seq()
    }
}

impl<T: Eq> Eq for DottedCausalContainer<T> {}

} // verus!
