//! Core of a distributed, eventually consistent key-value store.
//!
//! The library holds the verified logic of the store: the causal data
//! types (bitmapped version vectors and dotted causal containers), the
//! partition ring and its placement rules, the client command grammar, the
//! binary codec of contexts and containers, the fabric message taxonomy,
//! and the per-vnode coordination state machines. Network, disk and thread
//! plumbing live outside the library and drive it with plain values.

pub mod assoc;
pub mod bitmap;
pub mod codec;
pub mod commands;
pub mod extra_futures;
pub mod fabric_msg;
pub mod laws;
pub mod ring;
pub mod version_vector;
pub mod vnode;
pub mod workers;

use vstd::prelude::*;

verus! {

/// Identifier of a node (an actor of the causal algebra).
pub type Id = u64;

/// An event number assigned by one actor.
pub type Version = u64;

/// Identifier of a member node of the cluster.
pub type NodeId = u64;

/// Identifier of a partition of the key space.
pub type VNodeId = u16;

/// Correlation id chosen by the client for a request.
pub type Token = u64;

/// Cluster-unique request id: the coordinating node and a local counter.
pub type Cookie = (u64, u64);

} // verus!
