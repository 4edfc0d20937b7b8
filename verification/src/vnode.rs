//! The per-partition replica logic: local reads and writes, replica-side
//! writes, quorum coordination, and the anti-entropy delta test.
//!
//! Everything here is a pure function of the vnode state handed in: the
//! surrounding process owns the clocks and the storage and drives these
//! functions with plain values.

use vstd::prelude::*;

use crate::version_vector::{
    BitmappedVersion, BitmappedVersionVector, DottedCausalContainer, VersionVector, max64,
    merged_version,
};
use crate::{Id, NodeId, Token, Version};

verus! {

/// Placement state of one vnode on one node.
#[derive(Debug, Copy, Clone, PartialEq, Eq, Structural)]
pub enum VNodeStatus {
    Absent,
    Bootstrap,
    Ready,
}

/// The error kinds surfaced to clients.
#[derive(Debug, Copy, Clone, PartialEq, Eq, Structural)]
pub enum ClientError {
    NotReady,
    WriteQuorumFailed,
    ReadQuorumFailed,
    Timeout,
    ProtocolError,
}

/// What a coordinator asks its caller to do after an event.
#[derive(Debug, Copy, Clone, PartialEq, Eq, Structural)]
pub enum CoordAction {
    Wait,
    RespondOk,
    RespondError(ClientError),
}

/// The status a vnode takes when membership settles: a vnode this node does
/// not own empties out; one it newly owns starts pulling its data.
pub open spec fn next_status_spec(current: VNodeStatus, owned: bool) -> VNodeStatus {
    if !owned {
        VNodeStatus::Absent
    } else {
        match current {
            VNodeStatus::Absent => VNodeStatus::Bootstrap,
            VNodeStatus::Bootstrap => VNodeStatus::Bootstrap,
            VNodeStatus::Ready => VNodeStatus::Ready,
        }
    }
}

/// Applies a settled membership change to a vnode's status.
pub fn next_status(current: VNodeStatus, owned: bool) -> (r: VNodeStatus)
    ensures
        r == next_status_spec(current, owned),
{
    if !owned {
        VNodeStatus::Absent
    } else {
        match current {
            VNodeStatus::Absent => VNodeStatus::Bootstrap,
            VNodeStatus::Bootstrap => VNodeStatus::Bootstrap,
            VNodeStatus::Ready => VNodeStatus::Ready,
        }
    }
}

/// The status a vnode starts with: ready partitions serve, claimed ones
/// bootstrap, the rest stay absent.
pub fn initial_status(is_ready: bool, is_pending: bool) -> (r: VNodeStatus)
    ensures
        r == (if is_ready {
            VNodeStatus::Ready
        } else if is_pending {
            VNodeStatus::Bootstrap
        } else {
            VNodeStatus::Absent
        }),
{
    if is_ready {
        VNodeStatus::Ready
    } else if is_pending {
        VNodeStatus::Bootstrap
    } else {
        VNodeStatus::Absent
    }
}

/// The context frontier a write leaves for actor `k`, before the node clock
/// is folded in: the stored and client contexts merge, and the new dot's
/// version joins when a value was written.
pub open spec fn set_frontier(
    stored: &DottedCausalContainer<Vec<u8>>,
    ctx: &VersionVector,
    node: NodeId,
    ver: Version,
    wrote: bool,
    k: Id,
) -> Version {
    let f1 = max64(stored.context().frontier(k), ctx.frontier(k));
    if k == node && wrote {
        max64(f1, ver)
    } else {
        f1
    }
}

/// Performs a client write on the local replica: discards the siblings the
/// client's context covers, assigns a fresh dot from the node clock, and
/// hands back the stripped container to persist, the filled container to
/// fan out, and the dot's version.
///
/// The filled container's siblings are exactly the written value, if one was
/// given, plus the stored siblings the client's context does not dominate.
pub fn write_local(
    clocks: &mut BitmappedVersionVector,
    node: NodeId,
    stored: DottedCausalContainer<Vec<u8>>,
    ctx: &VersionVector,
    value: Option<Vec<u8>>,
) -> (r: (DottedCausalContainer<Vec<u8>>, DottedCausalContainer<Vec<u8>>, Version))
    requires
        old(clocks).wf(),
        stored.wf(),
        ctx.wf(),
        match old(clocks).get_bv(node) {
            Some(bv) => bv.bits().len() == 0,
            None => true,
        },
        old(clocks).base0(node) < u64::MAX,
    ensures
        final(clocks).wf(),
        r.0.wf(),
        r.1.wf(),
        r.2 == old(clocks).base0(node) + 1,
        forall|k: Id| k != node ==> final(clocks).get_bv(k) == #[trigger] old(clocks).get_bv(k),
        forall|v: int| #[trigger] final(clocks).covers(node, v) == (1 <= v <= r.2),
        final(clocks).base0(node) == r.2,
        forall|d: (Id, Version)| #[trigger]
            r.1.get_dot(d) == (if value is Some && d == (node, r.2) {
                Some(value->Some_0)
            } else if d.1 > ctx.frontier(d.0) {
                stored.get_dot(d)
            } else {
                None
            }),
        r.0.dots_seq().len() == r.1.dots_seq().len(),
        forall|i: int|
            0 <= i < r.0.dots_seq().len() ==> (#[trigger] r.0.dots_seq()[i]).0
                == r.1.dots_seq()[i].0 && r.0.dots_seq()[i].1@ == r.1.dots_seq()[i].1@,
        forall|k: Id| #[trigger]
            r.1.context().frontier(k) == (if final(clocks).get_bv(k) is Some {
                max64(
                    final(clocks).base0(k),
                    set_frontier(&stored, ctx, node, r.2, value is Some, k),
                )
            } else {
                set_frontier(&stored, ctx, node, r.2, value is Some, k)
            }),
        forall|k: Id| #[trigger]
            r.0.context().frontier(k) == (if set_frontier(&stored, ctx, node, r.2, value is Some, k)
                > final(clocks).base0(k) {
                set_frontier(&stored, ctx, node, r.2, value is Some, k)
            } else {
                0
            }),
{
    let mut dcc = stored;
    dcc.discard(ctx);
    let ghost after_discard = dcc;
    let ver = clocks.event(node);
    let wrote = match value {
        Some(val) => {
            dcc.add(node, ver, val);
            true
        },
        None => false,
    };
    let ghost after_add = dcc;
    proof {
        assert forall|k: Id| #[trigger]
            after_add.context().frontier(k) == set_frontier(
                &stored,
                ctx,
                node,
                ver,
                wrote,
                k,
            ) by {
            assert(after_discard.context().get_opt(k) == merged_version(
                stored.context().get_opt(k),
                ctx.get_opt(k),
            ));
            if wrote {
                if k == node {
                    assert(after_add.context().get_opt(k) == Some(
                        max64(ver, after_discard.context().frontier(k)),
                    ));
                } else {
                    assert(after_add.context().get_opt(k)
                        == after_discard.context().get_opt(k));
                }
            }
        }
    }
    dcc.strip(clocks);
    let ghost after_strip = dcc;
    proof {
        assert forall|k: Id| #[trigger]
            after_strip.context().frontier(k) == (if set_frontier(
                &stored,
                ctx,
                node,
                ver,
                wrote,
                k,
            ) > clocks.base0(k) {
                set_frontier(&stored, ctx, node, ver, wrote, k)
            } else {
                0
            }) by {
            assert(after_add.context().frontier(k) == set_frontier(
                &stored,
                ctx,
                node,
                ver,
                wrote,
                k,
            ));
            assert(after_strip.context().get_opt(k) == (match after_add.context().get_opt(k) {
                Some(v) => if v > clocks.base0(k) {
                    Some(v)
                } else {
                    None
                },
                None => None,
            }));
        }
    }
    let persist = dcc.duplicate();
    dcc.fill(clocks);
    proof {
        assert forall|k: Id| #[trigger]
            dcc.context().frontier(k) == (if clocks.get_bv(k) is Some {
                max64(clocks.base0(k), set_frontier(&stored, ctx, node, ver, wrote, k))
            } else {
                set_frontier(&stored, ctx, node, ver, wrote, k)
            }) by {
            assert(after_strip.context().frontier(k) == (if set_frontier(
                &stored,
                ctx,
                node,
                ver,
                wrote,
                k,
            ) > clocks.base0(k) {
                set_frontier(&stored, ctx, node, ver, wrote, k)
            } else {
                0
            }));
            assert(dcc.context().get_opt(k) == (if clocks.get_bv(k) is Some {
                Some(max64(clocks.base0(k), after_strip.context().frontier(k)))
            } else {
                after_strip.context().get_opt(k)
            }));
        }
        assert forall|d: (Id, Version)| #[trigger]
            dcc.get_dot(d) == (if wrote && d == (node, ver) {
                after_add.get_dot(d)
            } else if d.1 > ctx.frontier(d.0) {
                stored.get_dot(d)
            } else {
                None
            }) by {
            assert(dcc.get_dot(d) == after_add.get_dot(d));
            if !(wrote && d == (node, ver)) {
                assert(after_add.get_dot(d) == after_discard.get_dot(d));
            }
        }
        assert(persist.context().entries_seq() == after_strip.context().entries_seq());
        assert forall|k: Id| #[trigger]
            persist.context().frontier(k) == after_strip.context().frontier(k) by {
            assert(persist.context().get_opt(k) == after_strip.context().get_opt(k));
        }
    }
    (persist, dcc, ver)
}

/// Serves a local read: the stored container, its context re-inflated from
/// the node clock.
pub fn read_local(
    clocks: &BitmappedVersionVector,
    stored: DottedCausalContainer<Vec<u8>>,
) -> (r: DottedCausalContainer<Vec<u8>>)
    requires
        clocks.wf(),
        stored.wf(),
    ensures
        r.wf(),
        r.dots_seq() == stored.dots_seq(),
        forall|k: Id| #[trigger]
            r.context().get_opt(k) == (if clocks.get_bv(k) is Some {
                Some(max64(clocks.base0(k), stored.context().frontier(k)))
            } else {
                stored.context().get_opt(k)
            }),
{
    let mut dcc = stored;
    dcc.fill(clocks);
    dcc
}

/// Applies a write received from the coordinating replica: merges it with
/// the stored container, records its dots in the node clock, and hands back
/// the stripped container to persist.
pub fn replica_write(
    clocks: &mut BitmappedVersionVector,
    stored: DottedCausalContainer<Vec<u8>>,
    received: DottedCausalContainer<Vec<u8>>,
) -> (r: DottedCausalContainer<Vec<u8>>)
    requires
        old(clocks).wf(),
        stored.wf(),
        received.wf(),
        forall|d: (Id, Version)|
            #[trigger] stored.has_dot(d) && d.1 > old(clocks).base0(d.0) ==> d.1 - old(
                clocks,
            ).base0(d.0) - 1 < 0x1_0000_0000,
        forall|d: (Id, Version)|
            #[trigger] received.has_dot(d) && d.1 > old(clocks).base0(d.0) ==> d.1 - old(
                clocks,
            ).base0(d.0) - 1 < 0x1_0000_0000,
    ensures
        final(clocks).wf(),
        r.wf(),
        forall|d: (Id, Version)| #[trigger]
            r.get_dot(d) == (if stored.has_dot(d) && DottedCausalContainer::retains(&received, d) {
                stored.get_dot(d)
            } else if !stored.has_dot(d) && received.has_dot(d)
                && DottedCausalContainer::retains(&stored, d) {
                received.get_dot(d)
            } else {
                None
            }),
        forall|k: Id, v: int| #[trigger]
            final(clocks).covers(k, v) == (old(clocks).covers(k, v) || (1 <= v <= u64::MAX
                && r.has_dot((k, v as u64)))),
        forall|k: Id| #[trigger]
            r.context().get_opt(k) == (match merged_version(
                stored.context().get_opt(k),
                received.context().get_opt(k),
            ) {
                Some(v) => if v > final(clocks).base0(k) {
                    Some(v)
                } else {
                    None
                },
                None => None,
            }),
{
    let ghost sd = stored;
    let mut dcc = stored;
    dcc.sync(received);
    let ghost after_sync = dcc;
    proof {
        assert forall|d: (Id, Version)|
            #[trigger] dcc.has_dot(d) && d.1 > clocks.base0(d.0) implies d.1 - clocks.base0(d.0)
            - 1 < 0x1_0000_0000 by {
            assert(dcc.get_dot(d) == (if sd.has_dot(d) && DottedCausalContainer::retains(
                &received,
                d,
            ) {
                sd.get_dot(d)
            } else if !sd.has_dot(d) && received.has_dot(d) && DottedCausalContainer::retains(
                &sd,
                d,
            ) {
                received.get_dot(d)
            } else {
                None
            }));
        }
    }
    dcc.add_to_bvv(clocks);
    dcc.strip(clocks);
    proof {
        assert(dcc.dots_seq() == after_sync.dots_seq());
        assert forall|d: (Id, Version)| #[trigger]
            dcc.get_dot(d) == (if sd.has_dot(d) && DottedCausalContainer::retains(&received, d) {
                sd.get_dot(d)
            } else if !sd.has_dot(d) && received.has_dot(d) && DottedCausalContainer::retains(
                &sd,
                d,
            ) {
                received.get_dot(d)
            } else {
                None
            }) by {
            assert(dcc.get_dot(d) == after_sync.get_dot(d));
        }
        assert forall|k: Id, v: int| #[trigger]
            clocks.covers(k, v) == (old(clocks).covers(k, v) || (1 <= v <= u64::MAX && dcc.has_dot(
                (k, v as u64),
            ))) by {
            if 1 <= v <= u64::MAX {
                assert(dcc.get_dot((k, v as u64)) == after_sync.get_dot((k, v as u64)));
            }
        }
        assert forall|k: Id| #[trigger]
            dcc.context().get_opt(k) == (match merged_version(
                sd.context().get_opt(k),
                received.context().get_opt(k),
            ) {
                Some(v) => if v > clocks.base0(k) {
                    Some(v)
                } else {
                    None
                },
                None => None,
            }) by {
            assert(after_sync.context().get_opt(k) == merged_version(
                sd.context().get_opt(k),
                received.context().get_opt(k),
            ));
        }
    }
    dcc
}

/// Whether a key's container holds a dot of `peer` that the clock `known`
/// has not observed: such keys form the anti-entropy delta for `peer`.
pub fn needs_sync(
    dcc: &DottedCausalContainer<Vec<u8>>,
    peer: NodeId,
    known: &BitmappedVersion,
) -> (r: bool)
    requires
        known.wf(),
    ensures
        r == exists|i: int|
            0 <= i < dcc.dots_seq().len() && (#[trigger] dcc.dots_seq()[i]).0.0 == peer
                && !known.contains(dcc.dots_seq()[i].0.1 as int),
{
    let n = dcc.len();
    let mut i: usize = 0;
    while i < n
        invariant
            known.wf(),
            n == dcc.dots_seq().len(),
            i <= n,
            forall|j: int|
                0 <= j < i ==> !((#[trigger] dcc.dots_seq()[j]).0.0 == peer && !known.contains(
                    dcc.dots_seq()[j].0.1 as int,
                )),
        decreases n - i,
    {
        let d = dcc.dot_at(i);
        if d.0 == peer && !known.contains_version(d.1) {
            proof {
                assert(dcc.dots_seq()[i as int].0.0 == peer && !known.contains(
                    dcc.dots_seq()[i as int].0.1 as int,
                ));
            }
            return true;
        }
        i = i + 1;
    }
    false
}

/// The in-flight state of one client SET: the filled container to answer
/// with, the write quorum to reach, and the acks seen so far. The local
/// write counts as the first ack.
#[derive(Debug)]
pub struct SetCoordinator {
    pub token: Token,
    pub container: DottedCausalContainer<Vec<u8>>,
    pub required: u16,
    pub fanout: u16,
    pub replies_ok: u16,
    pub replies_err: u16,
    pub deadline: u64,
    pub done: bool,
}

impl SetCoordinator {
    /// Counts stay within the fanout, and an unfinished coordinator has not
    /// reached its quorum.
    pub open spec fn wf(&self) -> bool {
        &&& 1 <= self.required
        &&& self.fanout <= 0xFFFE
        &&& 1 <= self.replies_ok
        &&& self.replies_ok + self.replies_err <= self.fanout + 1
        &&& (!self.done ==> self.replies_ok < self.required)
    }

    /// Installs the coordinator right after the local write, which counts as
    /// the first ack. With a quorum of one the local write already settles
    /// the request: the coordinator is born finished and the caller answers
    /// the client at once.
    pub fn new(
        token: Token,
        container: DottedCausalContainer<Vec<u8>>,
        required: u16,
        fanout: u16,
        deadline: u64,
    ) -> (r: Self)
        requires
            1 <= required,
            fanout <= 0xFFFE,
        ensures
            r.token == token,
            r.container == container,
            r.required == required,
            r.fanout == fanout,
            r.replies_ok == 1,
            r.replies_err == 0,
            r.deadline == deadline,
            r.done == (1 >= required),
            1 < required ==> r.wf(),
    {
        SetCoordinator {
            token,
            container,
            required,
            fanout,
            replies_ok: 1,
            replies_err: 0,
            deadline,
            done: 1 >= required,
        }
    }

    /// Feeds one replica ack in. The coordinator answers the client with
    /// success exactly when the ack that reaches the write quorum arrives
    /// before any timeout, and with a write-quorum error when every reply is
    /// in and the quorum was missed.
    pub fn on_ack(&mut self, ok: bool) -> (r: CoordAction)
        requires
            old(self).wf(),
            old(self).replies_ok + old(self).replies_err <= old(self).fanout,
        ensures
            final(self).wf(),
            final(self).replies_ok == old(self).replies_ok + (if ok {
                1int
            } else {
                0int
            }),
            final(self).replies_err == old(self).replies_err + (if ok {
                0int
            } else {
                1int
            }),
            final(self).token == old(self).token,
            final(self).container == old(self).container,
            final(self).required == old(self).required,
            final(self).fanout == old(self).fanout,
            final(self).deadline == old(self).deadline,
            (r == CoordAction::RespondOk) <==> (!old(self).done && final(self).replies_ok
                >= old(self).required),
            (r == CoordAction::RespondError(ClientError::WriteQuorumFailed)) <==> (!old(self).done
                && final(self).replies_ok < old(self).required
                && final(self).replies_ok + final(self).replies_err == old(self).fanout + 1),
            final(self).done == (old(self).done || !(r == CoordAction::Wait)),
    {
        if ok {
            self.replies_ok = self.replies_ok + 1;
        } else {
            self.replies_err = self.replies_err + 1;
        }
        if self.done {
            CoordAction::Wait
        } else if self.replies_ok >= self.required {
            self.done = true;
            CoordAction::RespondOk
        } else if self.replies_ok + self.replies_err == self.fanout + 1 {
            self.done = true;
            CoordAction::RespondError(ClientError::WriteQuorumFailed)
        } else {
            CoordAction::Wait
        }
    }

    /// Feeds a clock tick in. The coordinator times the request out exactly
    /// when its deadline has passed and it has not yet answered.
    pub fn on_tick(&mut self, now: u64) -> (r: CoordAction)
        requires
            old(self).wf(),
        ensures
            final(self).wf(),
            final(self).replies_ok == old(self).replies_ok,
            final(self).replies_err == old(self).replies_err,
            final(self).token == old(self).token,
            final(self).container == old(self).container,
            (r == CoordAction::RespondError(ClientError::Timeout)) <==> (!old(self).done && now
                >= old(self).deadline),
            r == CoordAction::RespondOk ==> false,
            final(self).done == (old(self).done || now >= old(self).deadline),
    {
        if !self.done && now >= self.deadline {
            self.done = true;
            CoordAction::RespondError(ClientError::Timeout)
        } else {
            CoordAction::Wait
        }
    }
}

/// The in-flight state of one client GET: the read quorum to reach and the
/// accumulator that merges every reply. The local read counts as the first
/// reply.
#[derive(Debug)]
pub struct GetCoordinator {
    pub token: Token,
    pub container: DottedCausalContainer<Vec<u8>>,
    pub required: u16,
    pub fanout: u16,
    pub replies_ok: u16,
    pub replies_err: u16,
    pub deadline: u64,
    pub done: bool,
}

impl GetCoordinator {
    /// Counts stay within the fanout, and an unfinished coordinator has not
    /// reached its quorum.
    pub open spec fn wf(&self) -> bool {
        &&& 1 <= self.required
        &&& self.fanout <= 0xFFFE
        &&& 1 <= self.replies_ok
        &&& self.replies_ok + self.replies_err <= self.fanout + 1
        &&& (!self.done ==> self.replies_ok < self.required)
        &&& self.container.wf()
    }

    /// Installs the coordinator right after the local read, which counts as
    /// the first reply.
    pub fn new(
        token: Token,
        container: DottedCausalContainer<Vec<u8>>,
        required: u16,
        fanout: u16,
        deadline: u64,
    ) -> (r: Self)
        requires
            1 <= required,
            fanout <= 0xFFFE,
            container.wf(),
        ensures
            r.token == token,
            r.container == container,
            r.required == required,
            r.fanout == fanout,
            r.replies_ok == 1,
            r.replies_err == 0,
            r.deadline == deadline,
            r.done == (1 >= required),
            1 < required ==> r.wf(),
    {
        GetCoordinator {
            token,
            container,
            required,
            fanout,
            replies_ok: 1,
            replies_err: 0,
            deadline,
            done: 1 >= required,
        }
    }

    /// Feeds one replica reply in, merging its container into the
    /// accumulator. The coordinator answers the client with the merged
    /// container exactly when the reply that reaches the read quorum
    /// arrives, and with a read-quorum error when every reply is in and the
    /// quorum was missed.
    pub fn on_response(&mut self, reply: Option<DottedCausalContainer<Vec<u8>>>) -> (r: CoordAction)
        requires
            old(self).wf(),
            old(self).replies_ok + old(self).replies_err <= old(self).fanout,
            match reply {
                Some(d) => d.wf(),
                None => true,
            },
        ensures
            final(self).wf(),
            final(self).replies_ok == old(self).replies_ok + (if reply is Some {
                1int
            } else {
                0int
            }),
            final(self).replies_err == old(self).replies_err + (if reply is Some {
                0int
            } else {
                1int
            }),
            final(self).token == old(self).token,
            (match reply {
                Some(d) => DottedCausalContainer::is_sync_of(
                    final(self).container,
                    old(self).container,
                    d,
                ),
                None => final(self).container == old(self).container,
            }),
            (r == CoordAction::RespondOk) <==> (!old(self).done && final(self).replies_ok
                >= old(self).required),
            (r == CoordAction::RespondError(ClientError::ReadQuorumFailed)) <==> (!old(self).done
                && final(self).replies_ok < old(self).required
                && final(self).replies_ok + final(self).replies_err == old(self).fanout + 1),
            final(self).done == (old(self).done || !(r == CoordAction::Wait)),
    {
        match reply {
            Some(d) => {
                self.container.sync(d);
                self.replies_ok = self.replies_ok + 1;
            },
            None => {
                self.replies_err = self.replies_err + 1;
            },
        }
        if self.done {
            CoordAction::Wait
        } else if self.replies_ok >= self.required {
            self.done = true;
            CoordAction::RespondOk
        } else if self.replies_ok + self.replies_err == self.fanout + 1 {
            self.done = true;
            CoordAction::RespondError(ClientError::ReadQuorumFailed)
        } else {
            CoordAction::Wait
        }
    }

    /// Feeds a clock tick in, as [`SetCoordinator::on_tick`] does.
    pub fn on_tick(&mut self, now: u64) -> (r: CoordAction)
        requires
            old(self).wf(),
        ensures
            final(self).wf(),
            final(self).container == old(self).container,
            (r == CoordAction::RespondError(ClientError::Timeout)) <==> (!old(self).done && now
                >= old(self).deadline),
            r == CoordAction::RespondOk ==> false,
            final(self).done == (old(self).done || now >= old(self).deadline),
    {
        if !self.done && now >= self.deadline {
            self.done = true;
            CoordAction::RespondError(ClientError::Timeout)
        } else {
            CoordAction::Wait
        }
    }
}

/// Hands out cluster-unique request ids: this node's id paired with a
/// counter that never repeats.
#[derive(Debug, Copy, Clone)]
pub struct CookieSource {
    node: NodeId,
    counter: u64,
}

impl CookieSource {
    /// The node the cookies name.
    pub closed spec fn node_spec(&self) -> NodeId {
        self.node
    }

    /// The next counter value to hand out.
    pub closed spec fn counter_spec(&self) -> u64 {
        self.counter
    }

    /// A source starting at counter 0.
    pub fn new(node: NodeId) -> (r: Self)
        ensures
            r.node_spec() == node,
            r.counter_spec() == 0,
    {
        CookieSource { node, counter: 0 }
    }

    /// The next cookie: no two calls on one source return the same value,
    /// and sources of different nodes never collide.
    pub fn next_cookie(&mut self) -> (r: crate::Cookie)
        requires
            old(self).counter_spec() < u64::MAX,
        ensures
            r == (old(self).node_spec(), old(self).counter_spec()),
            final(self).node_spec() == old(self).node_spec(),
            final(self).counter_spec() == old(self).counter_spec() + 1,
    {
        let c = (self.node, self.counter);
        self.counter = self.counter + 1;
        c
    }
}

/// The sliding window of one bootstrap or sync transfer: at most `window`
/// messages stand unacknowledged at a time.
#[derive(Debug, Copy, Clone)]
pub struct TransferWindow {
    pub next_seq: u64,
    pub acked: u64,
    pub window: u64,
}

impl TransferWindow {
    /// Acks never pass the messages sent, and the window is positive.
    pub open spec fn wf(&self) -> bool {
        &&& self.acked <= self.next_seq
        &&& 1 <= self.window
    }

    /// A fresh window: nothing sent, nothing acknowledged.
    pub fn new(window: u64) -> (r: Self)
        requires
            1 <= window,
        ensures
            r.wf(),
            r.next_seq == 0,
            r.acked == 0,
            r.window == window,
    {
        TransferWindow { next_seq: 0, acked: 0, window }
    }

    /// Whether another message may go out now.
    pub fn can_send(&self) -> (r: bool)
        requires
            self.wf(),
        ensures
            r == (self.next_seq - self.acked < self.window),
    {
        self.next_seq - self.acked < self.window
    }

    /// Takes the sequence number for the next outgoing message.
    pub fn on_send(&mut self) -> (r: u64)
        requires
            old(self).wf(),
            old(self).next_seq < u64::MAX,
        ensures
            final(self).wf(),
            r == old(self).next_seq,
            final(self).next_seq == old(self).next_seq + 1,
            final(self).acked == old(self).acked,
            final(self).window == old(self).window,
    {
        let seq = self.next_seq;
        self.next_seq = self.next_seq + 1;
        seq
    }

    /// Slides the window after an acknowledgement.
    pub fn on_ack(&mut self)
        requires
            old(self).wf(),
            old(self).acked < old(self).next_seq,
        ensures
            final(self).wf(),
            final(self).acked == old(self).acked + 1,
            final(self).next_seq == old(self).next_seq,
            final(self).window == old(self).window,
    {
        self.acked = self.acked + 1;
    }
}

} // verus!
