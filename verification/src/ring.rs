//! The partition ring: key placement and replica assignment.
//!
//! The key space is split into a fixed number of partitions (vnodes). A key
//! maps to a partition through a stable 64-bit hash, and a partition maps to
//! an ordered replica set by walking the sorted member list from the
//! partition index. Both mappings are functions of their inputs and the ring
//! configuration alone.

use vstd::prelude::*;

use crate::{NodeId, VNodeId};

verus! {

/// Offset basis of the 64-bit FNV-1a hash.
pub const FNV_OFFSET: u64 = 0xcbf29ce484222325;

/// Prime of the 64-bit FNV-1a hash.
pub const FNV_PRIME: u64 = 0x100000001b3;

/// The 64-bit FNV-1a hash of a byte string.
pub open spec fn fnv1a_spec(s: Seq<u8>) -> u64
    decreases s.len(),
{
    if s.len() == 0 {
        FNV_OFFSET
    } else {
        vstd::wrapping::u64_specs::wrapping_mul(fnv1a_spec(s.drop_last()) ^ (s.last() as u64), FNV_PRIME)
    }
}

/// Computes the 64-bit FNV-1a hash of a byte string.
pub fn fnv1a(key: &[u8]) -> (r: u64)
    ensures
        r == fnv1a_spec(key@),
{
    let mut h: u64 = FNV_OFFSET;
    let mut i: usize = 0;
    while i < key.len()
        invariant
            i <= key@.len(),
            h == fnv1a_spec(key@.take(i as int)),
        decreases key@.len() - i,
    {
        let b = key[i];
        h = (h ^ (b as u64)).wrapping_mul(FNV_PRIME);
        proof {
            assert(key@.take(i + 1).drop_last() =~= key@.take(i as int));
            assert(key@.take(i + 1).last() == key@[i as int]);
        }
        i = i + 1;
    }
    proof {
        assert(key@.take(key@.len() as int) =~= key@);
    }
    h
}

/// The ordered replica set for partition `vnode`: up to `replication`
/// distinct members, walking the sorted member list from the partition
/// index.
pub open spec fn owners_spec(members: Seq<NodeId>, replication: int, vnode: int) -> Seq<NodeId> {
    if members.len() == 0 {
        Seq::empty()
    } else {
        Seq::new(
            (if replication <= members.len() {
                replication
            } else {
                members.len() as int
            }) as nat,
            |j: int| members[(vnode + j) % (members.len() as int)],
        )
    }
}

/// A fixed-size partition map with replication.
pub struct Ring {
    partitions: u16,
    replication: usize,
    members: Vec<NodeId>,
    pending: Vec<NodeId>,
}

impl Ring {
    /// How many partitions the ring has.
    pub closed spec fn partitions_spec(&self) -> u16 {
        self.partitions
    }

    /// The replication factor.
    pub closed spec fn replication_spec(&self) -> int {
        self.replication as int
    }

    /// The members that own partitions, in increasing id order.
    pub closed spec fn members_seq(&self) -> Seq<NodeId> {
        self.members@
    }

    /// The members still claiming their partitions, in increasing id order.
    pub closed spec fn pending_seq(&self) -> Seq<NodeId> {
        self.pending@
    }

    /// Members and pending members are sorted and disjoint, and the shape is
    /// non-degenerate.
    pub open spec fn wf(&self) -> bool {
        &&& self.partitions_spec() > 0
        &&& self.replication_spec() >= 1
        &&& self.replication_spec() <= 0xFFFF
        &&& forall|i: int, j: int|
            0 <= i < j < self.members_seq().len() ==> self.members_seq()[i] < self.members_seq()[j]
        &&& forall|i: int, j: int|
            0 <= i < j < self.pending_seq().len() ==> self.pending_seq()[i] < self.pending_seq()[j]
        &&& forall|i: int, j: int|
            0 <= i < self.members_seq().len() && 0 <= j < self.pending_seq().len()
                ==> self.members_seq()[i] != self.pending_seq()[j]
    }

    /// A ring of `partitions` partitions replicated `replication` times,
    /// owned entirely by `first`.
    pub fn new(partitions: u16, replication: usize, first: NodeId) -> (r: Self)
        requires
            partitions > 0,
            1 <= replication <= 0xFFFF,
        ensures
            r.wf(),
            r.partitions_spec() == partitions,
            r.replication_spec() == replication,
            r.members_seq() == seq![first],
            r.pending_seq().len() == 0,
    {
        let mut members: Vec<NodeId> = Vec::new();
        members.push(first);
        let r = Ring { partitions, replication, members, pending: Vec::new() };
        proof {
            assert(r.members_seq() =~= seq![first]);
        }
        r
    }

    /// How many partitions the ring has.
    pub fn partitions(&self) -> (r: u16)
        ensures
            r == self.partitions_spec(),
    {
        self.partitions
    }

    /// The partition a key belongs to: its stable hash reduced modulo the
    /// partition count.
    pub fn key_vnode(&self, key: &[u8]) -> (r: VNodeId)
        requires
            self.wf(),
        ensures
            r == fnv1a_spec(key@) % (self.partitions_spec() as u64),
    {
        (fnv1a(key) % (self.partitions as u64)) as u16
    }

    /// The ordered replica set of a partition. With `include_pending`, the
    /// replica set that the pending members will own is appended, skipping
    /// duplicates.
    pub fn nodes_for_vnode(&self, vnode: VNodeId, include_pending: bool) -> (r: Vec<NodeId>)
        requires
            self.wf(),
        ensures
            !include_pending ==> r@ == owners_spec(
                self.members_seq(),
                self.replication_spec(),
                vnode as int,
            ),
            include_pending ==> r@ == owners_spec(
                self.members_seq(),
                self.replication_spec(),
                vnode as int,
            ) + owners_spec(self.pending_seq(), self.replication_spec(), vnode as int),
    {
        let mut out: Vec<NodeId> = Vec::new();
        self.walk(&self.members, vnode, &mut out);
        proof {
            assert(out@ =~= owners_spec(
                self.members_seq(),
                self.replication_spec(),
                vnode as int,
            ));
        }
        if include_pending {
            let ghost first = out@;
            self.walk(&self.pending, vnode, &mut out);
            proof {
                assert(out@ =~= first + owners_spec(
                    self.pending_seq(),
                    self.replication_spec(),
                    vnode as int,
                ));
            }
        }
        out
    }

    /// Appends the replica walk of `list` for partition `vnode` to `out`.
    fn walk(&self, list: &Vec<NodeId>, vnode: VNodeId, out: &mut Vec<NodeId>)
        requires
            self.replication as int == self.replication_spec(),
            1 <= self.replication_spec() <= 0xFFFF,
        ensures
            final(out)@ == old(out)@ + owners_spec(list@, self.replication_spec(), vnode as int),
    {
        let n = list.len();
        if n == 0 {
            proof {
                assert(final(out)@ =~= old(out)@ + owners_spec(
                    list@,
                    self.replication_spec(),
                    vnode as int,
                ));
            }
            return ;
        }
        let count = if self.replication <= n {
            self.replication
        } else {
            n
        };
        let mut j: usize = 0;
        while j < count
            invariant
                n == list@.len(),
                n > 0,
                count <= 0xFFFF,
                count == if self.replication_spec() <= n {
                    self.replication_spec()
                } else {
                    n as int
                },
                j <= count,
                out@.len() == old(out)@.len() + j,
                forall|l: int| 0 <= l < old(out)@.len() ==> out@[l] == old(out)@[l],
                forall|l: int|
                    0 <= l < j ==> #[trigger] out@[old(out)@.len() + l] == list@[(vnode + l) % (
                    n as int)],
            decreases count - j,
        {
            let idx = ((vnode as usize) + j) % n;
            out.push(list[idx]);
            proof {
                assert((idx as int) == (vnode + j) % (n as int));
            }
            j = j + 1;
        }
        proof {
            let ow = owners_spec(list@, self.replication_spec(), vnode as int);
            assert(ow.len() == count);
            assert forall|l: int| 0 <= l < count implies out@[old(out)@.len() + l] == ow[l] by {
                assert(ow[l] == list@[(vnode + l) % (n as int)]);
            }
            assert(out@ =~= old(out)@ + ow);
        }
    }

    /// Whether `node` stands in the replica walk of `list` for `vnode`.
    fn walk_contains(&self, list: &Vec<NodeId>, vnode: VNodeId, node: NodeId) -> (r: bool)
        requires
            self.replication as int == self.replication_spec(),
            1 <= self.replication_spec() <= 0xFFFF,
        ensures
            r == owners_spec(list@, self.replication_spec(), vnode as int).contains(node),
    {
        let mut tmp: Vec<NodeId> = Vec::new();
        self.walk(list, vnode, &mut tmp);
        let ghost walked = owners_spec(list@, self.replication_spec(), vnode as int);
        proof {
            assert(tmp@ =~= walked);
        }
        let mut j: usize = 0;
        while j < tmp.len()
            invariant
                walked == owners_spec(list@, self.replication_spec(), vnode as int),
                tmp@ == walked,
                j <= tmp@.len(),
                forall|l: int| 0 <= l < j ==> tmp@[l] != node,
            decreases tmp@.len() - j,
        {
            if tmp[j] == node {
                proof {
                    assert(walked[j as int] == node);
                    assert(walked.contains(node));
                    assert(owners_spec(list@, self.replication_spec(), vnode as int).contains(
                        node,
                    ));
                }
                return true;
            }
            j = j + 1;
        }
        proof {
            if walked.contains(node) {
                let l = choose|l: int| 0 <= l < walked.len() && walked[l] == node;
                assert(false);
            }
        }
        false
    }

    /// The partitions `node` fully owns and the partitions it is claiming.
    pub fn vnodes_for_node(&self, node: NodeId) -> (r: (Vec<VNodeId>, Vec<VNodeId>))
        requires
            self.wf(),
        ensures
            forall|i: VNodeId|
                #[trigger] r.0@.contains(i) <==> (i < self.partitions_spec() && owners_spec(
                    self.members_seq(),
                    self.replication_spec(),
                    i as int,
                ).contains(node)),
            forall|i: VNodeId|
                #[trigger] r.1@.contains(i) <==> (i < self.partitions_spec() && owners_spec(
                    self.pending_seq(),
                    self.replication_spec(),
                    i as int,
                ).contains(node)),
    {
        let mut ready: Vec<VNodeId> = Vec::new();
        let mut pending: Vec<VNodeId> = Vec::new();
        let mut i: u16 = 0;
        while i < self.partitions
            invariant
                self.wf(),
                i <= self.partitions_spec(),
                forall|v: VNodeId|
                    #[trigger] ready@.contains(v) <==> (v < i && owners_spec(
                        self.members_seq(),
                        self.replication_spec(),
                        v as int,
                    ).contains(node)),
                forall|v: VNodeId|
                    #[trigger] pending@.contains(v) <==> (v < i && owners_spec(
                        self.pending_seq(),
                        self.replication_spec(),
                        v as int,
                    ).contains(node)),
            decreases self.partitions_spec() - i,
        {
            let ghost rpre = ready@;
            let ghost ppre = pending@;
            if self.walk_contains(&self.members, i, node) {
                ready.push(i);
                proof {
                    assert forall|v: VNodeId| #[trigger]
                        ready@.contains(v) <==> (v < i + 1 && owners_spec(
                            self.members_seq(),
                            self.replication_spec(),
                            v as int,
                        ).contains(node)) by {
                        if ready@.contains(v) {
                            let l = choose|l: int| 0 <= l < ready@.len() && ready@[l] == v;
                            if l < rpre.len() {
                                assert(rpre.contains(v));
                            }
                        }
                        if v < i + 1 && owners_spec(
                            self.members_seq(),
                            self.replication_spec(),
                            v as int,
                        ).contains(node) {
                            if v < i {
                                assert(rpre.contains(v));
                                let l = choose|l: int| 0 <= l < rpre.len() && rpre[l] == v;
                                assert(ready@[l] == v);
                            } else {
                                assert(ready@[ready@.len() - 1] == v);
                            }
                        }
                    }
                }
            } else {
                proof {
                    assert forall|v: VNodeId| #[trigger]
                        ready@.contains(v) <==> (v < i + 1 && owners_spec(
                            self.members_seq(),
                            self.replication_spec(),
                            v as int,
                        ).contains(node)) by {}
                }
            }
            if self.walk_contains(&self.pending, i, node) {
                pending.push(i);
                proof {
                    assert forall|v: VNodeId| #[trigger]
                        pending@.contains(v) <==> (v < i + 1 && owners_spec(
                            self.pending_seq(),
                            self.replication_spec(),
                            v as int,
                        ).contains(node)) by {
                        if pending@.contains(v) {
                            let l = choose|l: int| 0 <= l < pending@.len() && pending@[l] == v;
                            if l < ppre.len() {
                                assert(ppre.contains(v));
                            }
                        }
                        if v < i + 1 && owners_spec(
                            self.pending_seq(),
                            self.replication_spec(),
                            v as int,
                        ).contains(node) {
                            if v < i {
                                assert(ppre.contains(v));
                                let l = choose|l: int| 0 <= l < ppre.len() && ppre[l] == v;
                                assert(pending@[l] == v);
                            } else {
                                assert(pending@[pending@.len() - 1] == v);
                            }
                        }
                    }
                }
            } else {
                proof {
                    assert forall|v: VNodeId| #[trigger]
                        pending@.contains(v) <==> (v < i + 1 && owners_spec(
                            self.pending_seq(),
                            self.replication_spec(),
                            v as int,
                        ).contains(node)) by {}
                }
            }
            i = i + 1;
        }
        (ready, pending)
    }

    /// Declares that `node` claims its assigned partitions: it joins the
    /// pending set until each claim completes.
    pub fn claim(&mut self, node: NodeId)
        requires
            old(self).wf(),
            !old(self).members_seq().contains(node),
            !old(self).pending_seq().contains(node),
        ensures
            final(self).wf(),
            final(self).partitions_spec() == old(self).partitions_spec(),
            final(self).replication_spec() == old(self).replication_spec(),
            final(self).members_seq() == old(self).members_seq(),
            forall|n: NodeId|
                #[trigger] final(self).pending_seq().contains(n) <==> (old(
                    self,
                ).pending_seq().contains(n) || n == node),
    {
        let i = Self::sorted_insert(&mut self.pending, node);
        proof {
            assert forall|x: int, y: int|
                0 <= x < self.members_seq().len() && 0 <= y
                    < self.pending_seq().len() implies self.members_seq()[x]
                != self.pending_seq()[y] by {
                if self.pending_seq()[y] != node {
                    assert(self.pending_seq().contains(self.pending_seq()[y]));
                    assert(old(self).pending_seq().contains(self.pending_seq()[y]));
                }
            }
        }
    }

    /// Records that `node` finished claiming: it becomes a full member.
    pub fn promote(&mut self, node: NodeId)
        requires
            old(self).wf(),
            old(self).pending_seq().contains(node),
        ensures
            final(self).wf(),
            final(self).partitions_spec() == old(self).partitions_spec(),
            final(self).replication_spec() == old(self).replication_spec(),
            forall|n: NodeId|
                #[trigger] final(self).members_seq().contains(n) <==> (old(
                    self,
                ).members_seq().contains(n) || n == node),
            forall|n: NodeId|
                #[trigger] final(self).pending_seq().contains(n) <==> (old(
                    self,
                ).pending_seq().contains(n) && n != node),
    {
        let ghost ppre = self.pending@;
        let mut i: usize = 0;
        while i < self.pending.len() && self.pending[i] < node
            invariant
                self.pending@ == ppre,
                i <= ppre.len(),
                forall|j: int| 0 <= j < i ==> ppre[j] < node,
            decreases ppre.len() - i,
        {
            i = i + 1;
        }
        proof {
            let l = choose|l: int| 0 <= l < ppre.len() && ppre[l] == node;
            assert forall|x: int, y: int|
                0 <= x < y < ppre.len() implies ppre[x] < ppre[y] by {}
            if l < i {
                assert(ppre[l] < node);
                assert(false);
            }
            if l > i {
                assert(ppre[i as int] < ppre[l]);
                assert(i < ppre.len());
                assert(!(ppre[i as int] < node));
                assert(false);
            }
            assert(i < ppre.len() && ppre[i as int] == node);
        }
        let _ = self.pending.remove(i);
        proof {
            assert forall|n: NodeId|
                #[trigger] self.pending@.contains(n) <==> (ppre.contains(n) && n != node) by {
                if self.pending@.contains(n) {
                    let m = choose|m: int| 0 <= m < self.pending@.len() && self.pending@[m] == n;
                    if m < i {
                        assert(ppre[m] == n);
                        assert(ppre[m] < node);
                    } else {
                        assert(ppre[m + 1] == n);
                        assert(ppre[i as int] < ppre[m + 1]);
                    }
                }
                if ppre.contains(n) && n != node {
                    let m = choose|m: int| 0 <= m < ppre.len() && ppre[m] == n;
                    if m < i {
                        assert(self.pending@[m] == n);
                    } else {
                        assert(m > i);
                        assert(self.pending@[m - 1] == n);
                    }
                }
            }
        }
        let ghost mpre = self.members@;
        proof {
            assert(mpre == old(self).members_seq());
            assert forall|x: int, y: int| 0 <= x < y < mpre.len() implies mpre[x] < mpre[y] by {
                assert(old(self).members_seq()[x] < old(self).members_seq()[y]);
            }
            if mpre.contains(node) {
                assert(ppre.contains(node));
                let x = choose|x: int| 0 <= x < mpre.len() && mpre[x] == node;
                let y = choose|y: int| 0 <= y < ppre.len() && ppre[y] == node;
                assert(old(self).members_seq()[x] != old(self).pending_seq()[y]);
                assert(false);
            }
        }
        let _ = Self::sorted_insert(&mut self.members, node);
        proof {
            assert forall|x: int, y: int|
                0 <= x < self.members_seq().len() && 0 <= y
                    < self.pending_seq().len() implies self.members_seq()[x]
                != self.pending_seq()[y] by {
                assert(self.pending_seq().contains(self.pending_seq()[y]));
                if self.members_seq()[x] != node {
                    assert(self.members_seq().contains(self.members_seq()[x]));
                    assert(mpre.contains(self.members_seq()[x]));
                    assert(old(self).members_seq().contains(self.members_seq()[x]));
                    if self.members_seq()[x] == self.pending_seq()[y] {
                        assert(ppre.contains(self.pending_seq()[y]));
                        let a = choose|a: int| 0 <= a < mpre.len() && mpre[a] == self.members_seq()[x];
                        let b = choose|b: int| 0 <= b < ppre.len() && ppre[b] == self.pending_seq()[y];
                        assert(false);
                    }
                }
            }
        }
    }

    /// Inserts `node` into a sorted vector, keeping it sorted and unique.
    fn sorted_insert(list: &mut Vec<NodeId>, node: NodeId) -> (r: usize)
        requires
            forall|i: int, j: int| 0 <= i < j < old(list)@.len() ==> old(list)@[i] < old(list)@[j],
            !old(list)@.contains(node),
        ensures
            forall|i: int, j: int|
                0 <= i < j < final(list)@.len() ==> final(list)@[i] < final(list)@[j],
            forall|n: NodeId|
                #[trigger] final(list)@.contains(n) <==> (old(list)@.contains(n) || n == node),
    {
        let ghost pre = list@;
        let mut i: usize = 0;
        while i < list.len() && list[i] < node
            invariant
                list@ == pre,
                i <= pre.len(),
                forall|j: int| 0 <= j < i ==> pre[j] < node,
            decreases pre.len() - i,
        {
            i = i + 1;
        }
        proof {
            if i < pre.len() && pre[i as int] == node {
                assert(pre.contains(node));
                assert(false);
            }
            assert forall|j: int| i <= j < pre.len() implies pre[j] > node by {
                if j > i {
                    assert(pre[i as int] < pre[j]);
                }
            }
        }
        list.insert(i, node);
        proof {
            assert forall|x: int, y: int|
                0 <= x < y < list@.len() implies list@[x] < list@[y] by {
                if y < i {
                } else if x < i && y == i {
                } else if x < i && y > i {
                    assert(list@[y] == pre[y - 1]);
                } else if x == i {
                    assert(list@[y] == pre[y - 1]);
                } else {
                    assert(list@[x] == pre[x - 1]);
                    assert(list@[y] == pre[y - 1]);
                }
            }
            assert forall|n: NodeId|
                #[trigger] list@.contains(n) <==> (pre.contains(n) || n == node) by {
                if list@.contains(n) {
                    let m = choose|m: int| 0 <= m < list@.len() && list@[m] == n;
                    if m < i {
                        assert(pre[m] == n);
                    } else if m > i {
                        assert(pre[m - 1] == n);
                    }
                }
                if pre.contains(n) {
                    let m = choose|m: int| 0 <= m < pre.len() && pre[m] == n;
                    if m < i {
                        assert(list@[m] == n);
                    } else {
                        assert(list@[m + 1] == n);
                    }
                }
                if n == node {
                    assert(list@[i as int] == n);
                }
            }
        }
        i
    }
}

} // verus!
