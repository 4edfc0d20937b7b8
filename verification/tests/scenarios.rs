//! End-to-end scenarios, driven against an in-memory cluster model.
//!
//! Each node holds its clock and a keyed store of stripped containers, the
//! shape the storage engine would persist. Writes run through the verified
//! vnode functions; replication and anti-entropy hand containers between
//! the nodes the way the fabric would.

use std::collections::HashMap;

use causalkv::fabric_msg::{FabricMsg, MsgRemoteSet, MsgRemoteSetAck};
use causalkv::version_vector::{
    BitmappedVersion, BitmappedVersionVector, DottedCausalContainer, VersionVector,
};
use causalkv::vnode::{
    CoordAction, SetCoordinator, needs_sync, read_local, replica_write, write_local,
};

struct Node {
    id: u64,
    clocks: BitmappedVersionVector,
    storage: HashMap<Vec<u8>, DottedCausalContainer<Vec<u8>>>,
}

impl Node {
    fn new(id: u64) -> Node {
        Node { id, clocks: BitmappedVersionVector::new(), storage: HashMap::new() }
    }

    fn stored(&self, key: &[u8]) -> DottedCausalContainer<Vec<u8>> {
        match self.storage.get(key) {
            Some(d) => d.duplicate(),
            None => DottedCausalContainer::new(),
        }
    }

    /// The coordinator-side write: returns the filled container to fan out.
    fn set(
        &mut self,
        key: &[u8],
        value: Option<&[u8]>,
        ctx: &VersionVector,
    ) -> DottedCausalContainer<Vec<u8>> {
        let stored = self.stored(key);
        let (persist, filled, _ver) =
            write_local(&mut self.clocks, self.id, stored, ctx, value.map(|v| v.to_vec()));
        self.storage.insert(key.to_vec(), persist);
        filled
    }

    /// The replica-side write.
    fn set_remote(&mut self, key: &[u8], container: DottedCausalContainer<Vec<u8>>) {
        let stored = self.stored(key);
        let persist = replica_write(&mut self.clocks, stored, container);
        self.storage.insert(key.to_vec(), persist);
    }

    /// A local read: the stored container, filled from the clock.
    fn get(&self, key: &[u8]) -> DottedCausalContainer<Vec<u8>> {
        read_local(&self.clocks, self.stored(key))
    }
}

fn values_of(d: &DottedCausalContainer<Vec<u8>>) -> Vec<Vec<u8>> {
    let mut out: Vec<Vec<u8>> = Vec::new();
    for i in 0..d.len() {
        out.push(d.value_at(i).clone());
    }
    out.sort();
    out
}

/// Streams every key of `from` to `to`, the way a bootstrap does, and
/// merges the source clock at the end.
fn migrate(from: &Node, to: &mut Node) {
    let mut keys: Vec<Vec<u8>> = from.storage.keys().cloned().collect();
    keys.sort();
    for key in keys {
        to.set_remote(&key, from.get(&key));
    }
    to.clocks.merge(&from.clocks);
}

/// Pulls the anti-entropy delta for `actor` from `peer` into `node`.
fn sync_actor(node: &mut Node, peer: &Node, actor: u64) {
    let known = match node.clocks.get(actor) {
        Some(bv) => bv.duplicate(),
        None => BitmappedVersion::new(0, 0),
    };
    let mut keys: Vec<Vec<u8>> = peer.storage.keys().cloned().collect();
    keys.sort();
    for key in keys {
        let stored = peer.stored(&key);
        if needs_sync(&stored, actor, &known) {
            node.set_remote(&key, peer.get(&key));
        }
    }
    if let Some(bv) = peer.clocks.get(actor) {
        let bv = bv.duplicate();
        node.clocks.merge_one(actor, &bv);
    }
}

#[test]
fn empty_get() {
    let n1 = Node::new(1);
    assert!(n1.get(b"test").is_empty());
}

#[test]
fn set_get() {
    let mut n1 = Node::new(1);
    n1.set(b"test", Some(b"value1"), &VersionVector::new());
    let state = n1.get(b"test");
    assert_eq!(values_of(&state), vec![b"value1".to_vec()]);
}

#[test]
fn sibling_creation() {
    let mut n1 = Node::new(1);
    n1.set(b"test", Some(b"value1"), &VersionVector::new());
    n1.set(b"test", Some(b"value2"), &VersionVector::new());
    let state = n1.get(b"test");
    assert_eq!(values_of(&state), vec![b"value1".to_vec(), b"value2".to_vec()]);
}

#[test]
fn sibling_resolution() {
    let mut n1 = Node::new(1);
    n1.set(b"test", Some(b"value1"), &VersionVector::new());
    n1.set(b"test", Some(b"value2"), &VersionVector::new());
    let state = n1.get(b"test");
    let ctx = state.version_vector().duplicate();
    n1.set(b"test", Some(b"value12"), &ctx);
    let state = n1.get(b"test");
    assert_eq!(values_of(&state), vec![b"value12".to_vec()]);
}

#[test]
fn delete_via_context() {
    let mut n1 = Node::new(1);
    n1.set(b"test", Some(b"value1"), &VersionVector::new());
    n1.set(b"test", Some(b"value2"), &VersionVector::new());
    let ctx = n1.get(b"test").version_vector().duplicate();
    n1.set(b"test", Some(b"value12"), &ctx);
    let ctx = n1.get(b"test").version_vector().duplicate();
    n1.set(b"test", None, &ctx);
    assert!(n1.get(b"test").is_empty());
}

#[test]
fn two_node_migration() {
    let mut n1 = Node::new(1);
    for i in 0..10u64 {
        let key = i.to_string().into_bytes();
        n1.set(&key, Some(&key), &VersionVector::new());
    }
    let mut n2 = Node::new(2);
    migrate(&n1, &mut n2);
    for i in 0..10u64 {
        let key = i.to_string().into_bytes();
        let state = n2.get(&key);
        assert_eq!(values_of(&state), vec![key.clone()]);
    }
}

#[test]
fn unclean_restart_sync() {
    // a replicated two-node cluster with ten keys
    let mut n1 = Node::new(1);
    let mut n2 = Node::new(2);
    for i in 0..10u64 {
        let key = i.to_string().into_bytes();
        let filled = n1.set(&key, Some(&key), &VersionVector::new());
        n2.set_remote(&key, filled);
    }
    for i in 0..10u64 {
        let key = i.to_string().into_bytes();
        assert_eq!(n1.get(&key), n2.get(&key));
    }

    // node 1 loses its disk and restarts empty
    n1 = Node::new(1);
    sync_actor(&mut n1, &n2, 1);
    sync_actor(&mut n1, &n2, 2);

    for i in 0..10u64 {
        let key = i.to_string().into_bytes();
        let state = n1.get(&key);
        assert_eq!(values_of(&state), vec![key.clone()]);
        assert_eq!(n1.get(&key), n2.get(&key));
    }
}

#[test]
fn replicated_set_reaches_write_quorum() {
    // a coordinated SET fanned out as fabric messages, W = 2 over one
    // remote replica
    let mut n1 = Node::new(1);
    let mut n2 = Node::new(2);

    let stored = n1.stored(b"test");
    let (persist, filled, _ver) =
        write_local(&mut n1.clocks, 1, stored, &VersionVector::new(), Some(b"value1".to_vec()));
    n1.storage.insert(b"test".to_vec(), persist);
    let mut coord = SetCoordinator::new(42, filled, 2, 1, 100);

    let msg = FabricMsg::RemoteSet(MsgRemoteSet {
        vnode: 0,
        cookie: (1, 1),
        key: b"test".to_vec(),
        container: coord.container.duplicate(),
    });

    // the replica applies the write and acks
    let ack = match msg {
        FabricMsg::RemoteSet(m) => {
            n2.set_remote(&m.key, m.container);
            FabricMsg::RemoteSetAck(MsgRemoteSetAck { vnode: m.vnode, cookie: m.cookie, result: Ok(()) })
        }
        _ => unreachable!(),
    };
    let action = match ack {
        FabricMsg::RemoteSetAck(m) => coord.on_ack(m.result.is_ok()),
        _ => unreachable!(),
    };
    assert_eq!(action, CoordAction::RespondOk);

    // both replicas now answer the read with the written value
    assert_eq!(values_of(&n1.get(b"test")), vec![b"value1".to_vec()]);
    assert_eq!(values_of(&n2.get(b"test")), vec![b"value1".to_vec()]);
    assert_eq!(n1.get(b"test"), n2.get(b"test"));
}
