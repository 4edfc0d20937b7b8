//! The messages that nodes exchange over the fabric.
//!
//! Every non-start variant carries the vnode it concerns and the cookie of
//! the request it answers, so that replies route back to the coordinator
//! that issued them.

use vstd::prelude::*;

use crate::version_vector::{BitmappedVersion, BitmappedVersionVector, DottedCausalContainer,
    VersionVector};
use crate::{Cookie, NodeId, VNodeId};

verus! {

/// The handler class a message belongs to.
#[derive(Debug, Copy, Clone, PartialEq, Eq, Structural)]
pub enum FabricMsgType {
    Crud,
    Bootstrap,
    Synch,
    Unknown,
}

/// Errors a peer reports instead of a payload.
#[derive(Debug, Copy, Clone, PartialEq, Eq, Structural)]
pub enum FabricMsgError {
    CookieNotFound,
    BadVNodeStatus,
}

#[derive(Debug)]
pub struct MsgRemoteGet {
    pub vnode: VNodeId,
    pub cookie: Cookie,
    pub key: Vec<u8>,
}

#[derive(Debug)]
pub struct MsgRemoteGetAck {
    pub vnode: VNodeId,
    pub cookie: Cookie,
    pub result: Result<DottedCausalContainer<Vec<u8>>, FabricMsgError>,
}

#[derive(Debug)]
pub struct MsgRemoteSet {
    pub vnode: VNodeId,
    pub cookie: Cookie,
    pub key: Vec<u8>,
    pub container: DottedCausalContainer<Vec<u8>>,
}

#[derive(Debug)]
pub struct MsgRemoteSetAck {
    pub vnode: VNodeId,
    pub cookie: Cookie,
    pub result: Result<(), FabricMsgError>,
}

#[derive(Debug)]
pub struct MsgSet {
    pub vnode: VNodeId,
    pub cookie: Cookie,
    pub key: Vec<u8>,
    pub value: Option<Vec<u8>>,
    pub version_vector: VersionVector,
}

#[derive(Debug)]
pub struct MsgSetAck {
    pub vnode: VNodeId,
    pub cookie: Cookie,
    pub result: Result<(), FabricMsgError>,
}

#[derive(Debug)]
pub struct MsgBootstrapStart {
    pub vnode: VNodeId,
    pub cookie: Cookie,
}

#[derive(Debug)]
pub struct MsgBootstrapFin {
    pub vnode: VNodeId,
    pub cookie: Cookie,
    pub result: Result<BitmappedVersionVector, FabricMsgError>,
}

#[derive(Debug)]
pub struct MsgBootstrapSend {
    pub vnode: VNodeId,
    pub cookie: Cookie,
    pub seq: u64,
    pub key: Vec<u8>,
    pub container: DottedCausalContainer<Vec<u8>>,
}

#[derive(Debug)]
pub struct MsgBootstrapAck {
    pub vnode: VNodeId,
    pub cookie: Cookie,
    pub seq: u64,
}

#[derive(Debug)]
pub struct MsgSyncStart {
    pub vnode: VNodeId,
    pub cookie: Cookie,
    pub target: NodeId,
    pub clock_in_peer: BitmappedVersion,
}

#[derive(Debug)]
pub struct MsgSyncFin {
    pub vnode: VNodeId,
    pub cookie: Cookie,
    pub result: Result<BitmappedVersion, FabricMsgError>,
}

#[derive(Debug)]
pub struct MsgSyncSend {
    pub vnode: VNodeId,
    pub cookie: Cookie,
    pub seq: u64,
    pub key: Vec<u8>,
    pub container: DottedCausalContainer<Vec<u8>>,
}

#[derive(Debug)]
pub struct MsgSyncAck {
    pub vnode: VNodeId,
    pub cookie: Cookie,
    pub seq: u64,
}

/// A message addressed to one vnode of one node.
#[derive(Debug)]
pub enum FabricMsg {
    RemoteGet(MsgRemoteGet),
    RemoteGetAck(MsgRemoteGetAck),
    ProxySet(MsgSet),
    SetAck(MsgSetAck),
    RemoteSet(MsgRemoteSet),
    RemoteSetAck(MsgRemoteSetAck),
    BootstrapStart(MsgBootstrapStart),
    BootstrapSend(MsgBootstrapSend),
    BootstrapAck(MsgBootstrapAck),
    BootstrapFin(MsgBootstrapFin),
    SyncStart(MsgSyncStart),
    SyncSend(MsgSyncSend),
    SyncAck(MsgSyncAck),
    SyncFin(MsgSyncFin),
    Unknown,
}

impl FabricMsg {
    /// The handler class of each variant.
    pub open spec fn type_spec(&self) -> FabricMsgType {
        match *self {
            FabricMsg::RemoteGet(..) => FabricMsgType::Crud,
            FabricMsg::RemoteGetAck(..) => FabricMsgType::Crud,
            FabricMsg::ProxySet(..) => FabricMsgType::Crud,
            FabricMsg::SetAck(..) => FabricMsgType::Crud,
            FabricMsg::RemoteSet(..) => FabricMsgType::Crud,
            FabricMsg::RemoteSetAck(..) => FabricMsgType::Crud,
            FabricMsg::BootstrapStart(..) => FabricMsgType::Bootstrap,
            FabricMsg::BootstrapSend(..) => FabricMsgType::Bootstrap,
            FabricMsg::BootstrapAck(..) => FabricMsgType::Bootstrap,
            FabricMsg::BootstrapFin(..) => FabricMsgType::Bootstrap,
            FabricMsg::SyncStart(..) => FabricMsgType::Synch,
            FabricMsg::SyncSend(..) => FabricMsgType::Synch,
            FabricMsg::SyncAck(..) => FabricMsgType::Synch,
            FabricMsg::SyncFin(..) => FabricMsgType::Synch,
            FabricMsg::Unknown => FabricMsgType::Unknown,
        }
    }

    /// The handler class of this message. `Unknown` messages have no
    /// handler and are never dispatched.
    pub fn get_type(&self) -> (r: FabricMsgType)
        requires
            !(self matches FabricMsg::Unknown),
        ensures
            r == self.type_spec(),
    {
        match *self {
            FabricMsg::RemoteGet(..) => FabricMsgType::Crud,
            FabricMsg::RemoteGetAck(..) => FabricMsgType::Crud,
            FabricMsg::ProxySet(..) => FabricMsgType::Crud,
            FabricMsg::SetAck(..) => FabricMsgType::Crud,
            FabricMsg::RemoteSet(..) => FabricMsgType::Crud,
            FabricMsg::RemoteSetAck(..) => FabricMsgType::Crud,
            FabricMsg::BootstrapStart(..) => FabricMsgType::Bootstrap,
            FabricMsg::BootstrapSend(..) => FabricMsgType::Bootstrap,
            FabricMsg::BootstrapAck(..) => FabricMsgType::Bootstrap,
            FabricMsg::BootstrapFin(..) => FabricMsgType::Bootstrap,
            FabricMsg::SyncStart(..) => FabricMsgType::Synch,
            FabricMsg::SyncSend(..) => FabricMsgType::Synch,
            FabricMsg::SyncAck(..) => FabricMsgType::Synch,
            FabricMsg::SyncFin(..) => FabricMsgType::Synch,
            FabricMsg::Unknown => FabricMsgType::Unknown,
        }
    }
}

} // verus!
