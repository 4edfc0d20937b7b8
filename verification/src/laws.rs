//! The algebraic laws of the causal types, stated and proved once for every
//! input.
//!
//! Each lemma quantifies over the results that the corresponding executable
//! operations pin down in their contracts: a caller that has just run `join`
//! or `sync` holds exactly the hypotheses required here.

use vstd::prelude::*;

use crate::version_vector::{
    BitmappedVersionVector, DottedCausalContainer, VersionVector, max64, merged_version,
};
use crate::{Id, Version};

verus! {

/// Whether `r` holds what [`BitmappedVersionVector::join`] leaves in `a`
/// after joining `b` in.
pub open spec fn is_bvv_join_of(
    r: &BitmappedVersionVector,
    a: &BitmappedVersionVector,
    b: &BitmappedVersionVector,
) -> bool {
    &&& r.wf()
    &&& forall|k: Id| #[trigger] r.get_bv(k) is Some <==> a.get_bv(k) is Some
    &&& forall|k: Id, v: int| #[trigger]
        r.covers(k, v) == (a.covers(k, v) || (a.get_bv(k) is Some && b.covers(k, v)))
    &&& forall|i: int|
        0 <= i < r.entries_seq().len() ==> (b.get_bv((#[trigger] r.entries_seq()[i]).0) is Some
            ==> r.entries_seq()[i].1.normalized())
}

/// Joining two node clocks over the same actors gives the same clock in
/// either order.
pub proof fn lemma_bvv_join_commutes(
    a: &BitmappedVersionVector,
    b: &BitmappedVersionVector,
    ab: &BitmappedVersionVector,
    ba: &BitmappedVersionVector,
)
    requires
        a.wf(),
        b.wf(),
        forall|k: Id| #[trigger] a.get_bv(k) is Some <==> b.get_bv(k) is Some,
        is_bvv_join_of(ab, a, b),
        is_bvv_join_of(ba, b, a),
    ensures
        ab.equiv(ba),
{
    crate::assoc::lemma_assoc_get(ab.entries_seq());
    crate::assoc::lemma_assoc_get(ba.entries_seq());
    assert forall|i: int|
        0 <= i < ab.entries_seq().len() implies (#[trigger] ab.entries_seq()[i]).1.normalized() by {
        assert(ab.get_bv(ab.entries_seq()[i].0) is Some);
    }
    assert forall|i: int|
        0 <= i < ba.entries_seq().len() implies (#[trigger] ba.entries_seq()[i]).1.normalized() by {
        assert(ba.get_bv(ba.entries_seq()[i].0) is Some);
    }
    assert forall|k: Id, v: int| #[trigger] ab.covers(k, v) == ba.covers(k, v) by {
        assert(ab.covers(k, v) == (a.covers(k, v) || (a.get_bv(k) is Some && b.covers(k, v))));
        assert(ba.covers(k, v) == (b.covers(k, v) || (b.get_bv(k) is Some && a.covers(k, v))));
        if a.covers(k, v) {
            assert(a.get_bv(k) is Some);
        }
        if b.covers(k, v) {
            assert(b.get_bv(k) is Some);
        }
    }
    BitmappedVersionVector::lemma_canonical(ab, ba);
}

/// Joining a normalized node clock with itself leaves it unchanged.
pub proof fn lemma_bvv_join_idempotent(a: &BitmappedVersionVector, r: &BitmappedVersionVector)
    requires
        a.wf(),
        a.all_normalized(),
        is_bvv_join_of(r, a, a),
    ensures
        r.equiv(a),
{
    crate::assoc::lemma_assoc_get(r.entries_seq());
    assert forall|i: int|
        0 <= i < r.entries_seq().len() implies (#[trigger] r.entries_seq()[i]).1.normalized() by {
        assert(r.get_bv(r.entries_seq()[i].0) is Some);
        assert(a.get_bv(r.entries_seq()[i].0) is Some);
    }
    assert forall|k: Id, v: int| #[trigger] r.covers(k, v) == a.covers(k, v) by {
        if a.covers(k, v) {
            assert(a.get_bv(k) is Some);
        }
    }
    BitmappedVersionVector::lemma_canonical(r, a);
}

/// Whether two containers agree on the value of every dot they share. Dots
/// name unique write events, so any two containers arising in one store
/// agree in this sense.
pub open spec fn agree<T>(x: &DottedCausalContainer<T>, y: &DottedCausalContainer<T>) -> bool {
    forall|d: (Id, Version)|
        #[trigger] x.has_dot(d) && #[trigger] y.has_dot(d) ==> x.get_dot(d) == y.get_dot(d)
}

/// Helper: under a sync result, the context frontier is the pointwise
/// maximum of the two input frontiers.
proof fn lemma_sync_frontier<T>(
    r: DottedCausalContainer<T>,
    x: DottedCausalContainer<T>,
    y: DottedCausalContainer<T>,
)
    requires
        DottedCausalContainer::is_sync_of(r, x, y),
    ensures
        forall|k: Id| #[trigger]
            r.context().frontier(k) == max64(x.context().frontier(k), y.context().frontier(k)),
{
    assert forall|k: Id| #[trigger]
        r.context().frontier(k) == max64(
        x.context().frontier(k),
        y.context().frontier(k),
    ) by {
        assert(r.context().get_opt(k) == merged_version(
            x.context().get_opt(k),
            y.context().get_opt(k),
        ));
    }
}

/// Syncing two containers gives the same container in either order.
pub proof fn lemma_sync_commutes<T>(
    x: DottedCausalContainer<T>,
    y: DottedCausalContainer<T>,
    r1: DottedCausalContainer<T>,
    r2: DottedCausalContainer<T>,
)
    requires
        x.wf(),
        y.wf(),
        agree(&x, &y),
        DottedCausalContainer::is_sync_of(r1, x, y),
        DottedCausalContainer::is_sync_of(r2, y, x),
    ensures
        r1.dots_seq() == r2.dots_seq(),
        r1.context().entries_seq() == r2.context().entries_seq(),
{
    assert forall|d: (Id, Version)| #[trigger] r1.get_dot(d) == r2.get_dot(d) by {
        if x.has_dot(d) && y.has_dot(d) {
            assert(x.get_dot(d) == y.get_dot(d));
        }
    }
    assert forall|k: (Id, Version)| #[trigger]
        crate::assoc::assoc_get_dot(r1.dots_seq(), k) == crate::assoc::assoc_get_dot(
        r2.dots_seq(),
        k,
    ) by {
        assert(r1.get_dot(k) == r2.get_dot(k));
    }
    crate::assoc::lemma_assoc_canonical_dot(r1.dots_seq(), r2.dots_seq());
    assert forall|k: Id| #[trigger] r1.context().get_opt(k) == r2.context().get_opt(k) by {
        assert(r1.context().get_opt(k) == merged_version(
            x.context().get_opt(k),
            y.context().get_opt(k),
        ));
        assert(r2.context().get_opt(k) == merged_version(
            y.context().get_opt(k),
            x.context().get_opt(k),
        ));
    }
    VersionVector::lemma_canonical(&r1.context(), &r2.context());
}

/// Syncing a container with itself leaves it unchanged.
pub proof fn lemma_sync_idempotent<T>(x: DottedCausalContainer<T>, r: DottedCausalContainer<T>)
    requires
        x.wf(),
        DottedCausalContainer::is_sync_of(r, x, x),
    ensures
        r.dots_seq() == x.dots_seq(),
        r.context().entries_seq() == x.context().entries_seq(),
{
    assert forall|d: (Id, Version)| #[trigger] r.get_dot(d) == x.get_dot(d) by {
        if x.has_dot(d) {
            assert(DottedCausalContainer::retains(&x, d));
        }
    }
    assert forall|k: (Id, Version)| #[trigger]
        crate::assoc::assoc_get_dot(r.dots_seq(), k) == crate::assoc::assoc_get_dot(
        x.dots_seq(),
        k,
    ) by {
        assert(r.get_dot(k) == x.get_dot(k));
    }
    crate::assoc::lemma_assoc_canonical_dot(r.dots_seq(), x.dots_seq());
    assert forall|k: Id| #[trigger] r.context().get_opt(k) == x.context().get_opt(k) by {
        assert(r.context().get_opt(k) == merged_version(
            x.context().get_opt(k),
            x.context().get_opt(k),
        ));
    }
    VersionVector::lemma_canonical(&r.context(), &x.context());
}

/// Syncing three containers gives the same container whichever pair is
/// synced first.
pub proof fn lemma_sync_associative<T>(
    x: DottedCausalContainer<T>,
    y: DottedCausalContainer<T>,
    z: DottedCausalContainer<T>,
    xy: DottedCausalContainer<T>,
    r1: DottedCausalContainer<T>,
    yz: DottedCausalContainer<T>,
    r2: DottedCausalContainer<T>,
)
    requires
        x.wf(),
        y.wf(),
        z.wf(),
        agree(&x, &y),
        agree(&x, &z),
        agree(&y, &z),
        DottedCausalContainer::is_sync_of(xy, x, y),
        DottedCausalContainer::is_sync_of(r1, xy, z),
        DottedCausalContainer::is_sync_of(yz, y, z),
        DottedCausalContainer::is_sync_of(r2, x, yz),
    ensures
        r1.dots_seq() == r2.dots_seq(),
        r1.context().entries_seq() == r2.context().entries_seq(),
{
    lemma_sync_frontier(xy, x, y);
    lemma_sync_frontier(yz, y, z);
    assert forall|d: (Id, Version)| #[trigger] r1.get_dot(d) == r2.get_dot(d) by {
        let rx = DottedCausalContainer::retains(&x, d);
        let ry = DottedCausalContainer::retains(&y, d);
        let rz = DottedCausalContainer::retains(&z, d);
        assert(xy.get_dot(d) == (if x.has_dot(d) && ry {
            x.get_dot(d)
        } else if !x.has_dot(d) && y.has_dot(d) && rx {
            y.get_dot(d)
        } else {
            None
        }));
        assert(yz.get_dot(d) == (if y.has_dot(d) && rz {
            y.get_dot(d)
        } else if !y.has_dot(d) && z.has_dot(d) && ry {
            z.get_dot(d)
        } else {
            None
        }));
        assert(xy.has_dot(d) == ((x.has_dot(d) || y.has_dot(d)) && rx && ry));
        assert(yz.has_dot(d) == ((y.has_dot(d) || z.has_dot(d)) && ry && rz));
        assert(xy.context().frontier(d.0) == max64(
            x.context().frontier(d.0),
            y.context().frontier(d.0),
        ));
        assert(yz.context().frontier(d.0) == max64(
            y.context().frontier(d.0),
            z.context().frontier(d.0),
        ));
        assert(DottedCausalContainer::retains(&xy, d) == (rx && ry));
        assert(DottedCausalContainer::retains(&yz, d) == (ry && rz));
        assert(r1.get_dot(d) == (if xy.has_dot(d) && rz {
            xy.get_dot(d)
        } else if !xy.has_dot(d) && z.has_dot(d) && rx && ry {
            z.get_dot(d)
        } else {
            None
        }));
        assert(r2.get_dot(d) == (if x.has_dot(d) && ry && rz {
            x.get_dot(d)
        } else if !x.has_dot(d) && yz.has_dot(d) && rx {
            yz.get_dot(d)
        } else {
            None
        }));
        if x.has_dot(d) && y.has_dot(d) {
            assert(x.get_dot(d) == y.get_dot(d));
        }
        if x.has_dot(d) && z.has_dot(d) {
            assert(x.get_dot(d) == z.get_dot(d));
        }
        if y.has_dot(d) && z.has_dot(d) {
            assert(y.get_dot(d) == z.get_dot(d));
        }
    }
    assert forall|k: (Id, Version)| #[trigger]
        crate::assoc::assoc_get_dot(r1.dots_seq(), k) == crate::assoc::assoc_get_dot(
        r2.dots_seq(),
        k,
    ) by {
        assert(r1.get_dot(k) == r2.get_dot(k));
    }
    crate::assoc::lemma_assoc_canonical_dot(r1.dots_seq(), r2.dots_seq());
    assert forall|k: Id| #[trigger] r1.context().get_opt(k) == r2.context().get_opt(k) by {
        assert(r1.context().get_opt(k) == merged_version(
            xy.context().get_opt(k),
            z.context().get_opt(k),
        ));
        assert(xy.context().get_opt(k) == merged_version(
            x.context().get_opt(k),
            y.context().get_opt(k),
        ));
        assert(r2.context().get_opt(k) == merged_version(
            x.context().get_opt(k),
            yz.context().get_opt(k),
        ));
        assert(yz.context().get_opt(k) == merged_version(
            y.context().get_opt(k),
            z.context().get_opt(k),
        ));
    }
    VersionVector::lemma_canonical(&r1.context(), &r2.context());
}

/// Stripping a container against a node clock and filling it again restores
/// the context frontier of every actor of the clock, provided the container
/// had been filled from that clock: its frontier is at least the clock's
/// dense base for each of the clock's actors.
pub proof fn lemma_strip_fill_round_trip<T>(
    d: DottedCausalContainer<T>,
    s: DottedCausalContainer<T>,
    f: DottedCausalContainer<T>,
    bvv: &BitmappedVersionVector,
)
    requires
        d.wf(),
        bvv.wf(),
        forall|k: Id|
            #[trigger] bvv.get_bv(k) is Some ==> d.context().frontier(k) >= bvv.base0(k),
        s.dots_seq() == d.dots_seq(),
        forall|k: Id| #[trigger]
            s.context().get_opt(k) == (match d.context().get_opt(k) {
                Some(v) => if v > bvv.base0(k) {
                    Some(v)
                } else {
                    None
                },
                None => None,
            }),
        f.dots_seq() == s.dots_seq(),
        forall|k: Id| #[trigger]
            f.context().get_opt(k) == (if bvv.get_bv(k) is Some {
                Some(max64(bvv.base0(k), s.context().frontier(k)))
            } else {
                s.context().get_opt(k)
            }),
    ensures
        f.dots_seq() == d.dots_seq(),
        forall|k: Id|
            #[trigger] bvv.get_bv(k) is Some ==> f.context().frontier(k) == d.context().frontier(
                k,
            ),
{
    assert forall|k: Id|
        #[trigger] bvv.get_bv(k) is Some implies f.context().frontier(k)
        == d.context().frontier(k) by {
        assert(s.context().get_opt(k) == (match d.context().get_opt(k) {
            Some(v) => if v > bvv.base0(k) {
                Some(v)
            } else {
                None
            },
            None => None,
        }));
        assert(f.context().get_opt(k) == Some(max64(bvv.base0(k), s.context().frontier(k))));
    }
}

} // verus!
