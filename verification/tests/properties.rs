//! Concrete checks of the library's stated properties.

use causalkv::commands::{Command, parse_commands};
use causalkv::codec::{decode_bv, decode_bvv, decode_dcc, decode_vv, encode_bv, encode_bvv,
    encode_dcc, encode_vv, push_u64, read_u64};
use causalkv::extra_futures::{StreamEvent, StreamOutput, read_at, signaled_step};
use causalkv::fabric_msg::{FabricMsg, FabricMsgType, MsgBootstrapAck, MsgRemoteGet, MsgSyncAck};
use causalkv::ring::Ring;
use causalkv::version_vector::{
    BitmappedVersion, BitmappedVersionVector, Dots, DottedCausalContainer, VersionVector,
};
use causalkv::vnode::{
    ClientError, CoordAction, GetCoordinator, SetCoordinator, TransferWindow, VNodeStatus,
    initial_status, needs_sync, next_status, read_local, replica_write, write_local,
};

fn dcc_bytes(pairs: &[((u64, u64), &[u8])], vv: &[(u64, u64)]) -> DottedCausalContainer<Vec<u8>> {
    let mut dots = Dots::new();
    for ((i, v), val) in pairs {
        dots.add((*i, *v), val.to_vec());
    }
    let mut ctx = VersionVector::new();
    for (i, v) in vv {
        ctx.add(*i, *v);
    }
    DottedCausalContainer::from_parts(dots, ctx)
}

#[test]
fn normalization_after_operations() {
    // a dense run that reaches the base folds into it
    let mut a = BitmappedVersion::new(0, 0);
    a.add(2);
    a.add(3);
    a.add(1);
    assert_eq!(a, BitmappedVersion::new(3, 0));
    assert!(a.bitmap_is_zero());

    // a join that closes a gap normalizes too
    let mut b = BitmappedVersion::new(2, 0b10);
    let c = BitmappedVersion::new(3, 0);
    b.join(&c);
    assert_eq!(b, BitmappedVersion::new(4, 0));
}

#[test]
fn bvv_join_commutes_and_is_idempotent() {
    let mut a = BitmappedVersionVector::new();
    a.set_entry(1, BitmappedVersion::new(5, 3));
    a.set_entry(2, BitmappedVersion::new(1, 0));
    let mut b = BitmappedVersionVector::new();
    b.set_entry(1, BitmappedVersion::new(2, 4));
    b.set_entry(2, BitmappedVersion::new(0, 1));

    let mut ab = a.clone();
    ab.join(&b);
    let mut ba = b.clone();
    ba.join(&a);
    assert_eq!(ab, ba);

    let mut aa = a.clone();
    aa.join(&a);
    // joining with itself only normalizes the stored values
    let mut a_norm = BitmappedVersionVector::new();
    a_norm.set_entry(1, BitmappedVersion::new(7, 0));
    a_norm.set_entry(2, BitmappedVersion::new(1, 0));
    assert_eq!(aa, a_norm);
}

#[test]
fn sync_is_a_crdt_join() {
    let x = dcc_bytes(&[((1, 2), b"a"), ((2, 1), b"b")], &[(1, 2), (2, 1)]);
    let y = dcc_bytes(&[((1, 2), b"a"), ((2, 3), b"c")], &[(1, 2), (2, 3)]);
    let z = dcc_bytes(&[((3, 1), b"d")], &[(3, 1)]);

    // commutative
    let mut xy = x.clone();
    xy.sync(y.clone());
    let mut yx = y.clone();
    yx.sync(x.clone());
    assert_eq!(xy, yx);

    // idempotent
    let mut xx = x.clone();
    xx.sync(x.clone());
    assert_eq!(xx, x);

    // associative
    let mut xy_z = xy.clone();
    xy_z.sync(z.clone());
    let mut yz = y.clone();
    yz.sync(z.clone());
    let mut x_yz = x.clone();
    x_yz.sync(yz);
    assert_eq!(xy_z, x_yz);
}

#[test]
fn causal_context_honors_dominance() {
    // a write whose context covers one of two siblings replaces just it
    let mut clocks = BitmappedVersionVector::new();
    let stored = dcc_bytes(&[((2, 1), b"one"), ((3, 1), b"two")], &[(2, 1), (3, 1)]);
    let mut ctx = VersionVector::new();
    ctx.add(2, 1);
    let (_, filled, ver) = write_local(&mut clocks, 1, stored, &ctx, Some(b"three".to_vec()));
    assert_eq!(ver, 1);
    let mut values: Vec<Vec<u8>> = Vec::new();
    for i in 0..filled.len() {
        values.push(filled.value_at(i).clone());
    }
    values.sort();
    assert_eq!(values, vec![b"three".to_vec(), b"two".to_vec()]);
}

#[test]
fn strip_fill_round_trip() {
    let mut bvv = BitmappedVersionVector::new();
    bvv.set_entry(1, BitmappedVersion::new(4, 0));
    bvv.set_entry(2, BitmappedVersion::new(2, 0));
    // the container was filled from the clock: frontiers at or above the bases
    let d = dcc_bytes(&[((1, 5), b"v")], &[(1, 5), (2, 2)]);
    let mut round = d.clone();
    round.strip(&bvv);
    round.fill(&bvv);
    assert_eq!(round.version_vector().get_or_zero(1), d.version_vector().get_or_zero(1));
    assert_eq!(round.version_vector().get_or_zero(2), d.version_vector().get_or_zero(2));
    assert_eq!(round, d);
}

#[test]
fn placement_is_deterministic() {
    let mut ring = Ring::new(64, 3, 1);
    ring.claim(2);
    ring.promote(2);
    ring.claim(3);

    let v1 = ring.key_vnode(b"test");
    let v2 = ring.key_vnode(b"test");
    assert_eq!(v1, v2);
    assert!(v1 < 64);

    let a = ring.nodes_for_vnode(v1, true);
    let b = ring.nodes_for_vnode(v1, true);
    assert_eq!(a, b);
    let c = ring.nodes_for_vnode(v1, false);
    assert!(c.iter().all(|n| *n == 1 || *n == 2));

    let (ready, pending) = ring.vnodes_for_node(1);
    assert_eq!(ready.len(), 64);
    assert_eq!(pending.len(), 0);
    let (_, pending3) = ring.vnodes_for_node(3);
    assert_eq!(pending3.len(), 64);
}

#[test]
fn set_quorum_success_and_failure() {
    let empty = DottedCausalContainer::new();
    // W = 2, two remote replicas: one ack reaches the quorum
    let mut c = SetCoordinator::new(7, empty, 2, 2, 100);
    assert_eq!(c.on_ack(false), CoordAction::Wait);
    assert_eq!(c.on_ack(true), CoordAction::RespondOk);
    assert_eq!(c.on_tick(500), CoordAction::Wait);

    // all replies in, quorum missed
    let mut c = SetCoordinator::new(8, DottedCausalContainer::new(), 2, 2, 100);
    assert_eq!(c.on_ack(false), CoordAction::Wait);
    assert_eq!(
        c.on_ack(false),
        CoordAction::RespondError(ClientError::WriteQuorumFailed)
    );

    // no ack before the deadline
    let mut c = SetCoordinator::new(9, DottedCausalContainer::new(), 2, 2, 100);
    assert_eq!(c.on_tick(99), CoordAction::Wait);
    assert_eq!(c.on_tick(100), CoordAction::RespondError(ClientError::Timeout));
    // a late ack wins nothing
    assert_eq!(c.on_ack(true), CoordAction::Wait);
}

#[test]
fn get_quorum_merges_replies() {
    let local = dcc_bytes(&[((1, 1), b"v1")], &[(1, 1)]);
    let remote = dcc_bytes(&[((2, 1), b"v2")], &[(2, 1)]);
    let mut c = GetCoordinator::new(5, local, 2, 2, 100);
    let action = c.on_response(Some(remote));
    assert_eq!(action, CoordAction::RespondOk);
    assert_eq!(c.container.len(), 2);

    let mut c = GetCoordinator::new(6, DottedCausalContainer::new(), 2, 2, 100);
    assert_eq!(c.on_response(None), CoordAction::Wait);
    assert_eq!(
        c.on_response(None),
        CoordAction::RespondError(ClientError::ReadQuorumFailed)
    );
}

#[test]
fn codec_round_trip() {
    let mut vv = VersionVector::new();
    vv.add(1, 42);
    vv.add(9, 7);
    vv.add(u64::MAX, u64::MAX);
    let mut bytes: Vec<u8> = Vec::new();
    encode_vv(&vv, &mut bytes);
    let (back, end) = decode_vv(&bytes, 0).unwrap();
    assert_eq!(end, bytes.len());
    assert_eq!(back, vv);

    // an empty vector round-trips too
    let mut bytes: Vec<u8> = Vec::new();
    encode_vv(&VersionVector::new(), &mut bytes);
    let (back, end) = decode_vv(&bytes, 0).unwrap();
    assert_eq!(end, 8);
    assert_eq!(back, VersionVector::new());

    // truncated input is rejected
    assert!(decode_vv(&bytes[..4], 0).is_none());

    // entries out of order are rejected
    let mut bad: Vec<u8> = Vec::new();
    push_u64(&mut bad, 2);
    push_u64(&mut bad, 5);
    push_u64(&mut bad, 1);
    push_u64(&mut bad, 3);
    push_u64(&mut bad, 1);
    assert!(decode_vv(&bad, 0).is_none());

    let mut one: Vec<u8> = Vec::new();
    push_u64(&mut one, 0x0102_0304_0506_0708);
    assert_eq!(one, vec![8, 7, 6, 5, 4, 3, 2, 1]);
    assert_eq!(read_u64(&one, 0), Some((0x0102_0304_0506_0708, 8)));
}

#[test]
fn clock_codec_round_trip() {
    let bv = BitmappedVersion::new(5, 0b101);
    let mut bytes: Vec<u8> = Vec::new();
    encode_bv(&bv, &mut bytes);
    let (back, end) = decode_bv(&bytes, 0).unwrap();
    assert_eq!(end, bytes.len());
    assert_eq!(back, bv);

    // a bit string with a clear top bit is not canonical
    let mut forged = bytes.clone();
    let last = forged.len() - 1;
    forged[last] = 0;
    assert!(decode_bv(&forged, 0).is_none());

    let mut bvv = BitmappedVersionVector::new();
    bvv.set_entry(1, BitmappedVersion::new(5, 3));
    bvv.set_entry(9, BitmappedVersion::new(0, 0b10));
    let mut bytes: Vec<u8> = Vec::new();
    encode_bvv(&bvv, &mut bytes);
    let (back, end) = decode_bvv(&bytes, 0).unwrap();
    assert_eq!(end, bytes.len());
    assert_eq!(back, bvv);
    assert!(decode_bvv(&bytes[..end - 1], 0).is_none());
}

#[test]
fn container_codec_round_trip() {
    let d = dcc_bytes(
        &[((1, 2), b"red"), ((2, 1), b""), ((2, 9), b"a longer sibling value")],
        &[(1, 2), (2, 9), (7, 1)],
    );
    let mut bytes: Vec<u8> = Vec::new();
    encode_dcc(&d, &mut bytes);
    let (back, end) = decode_dcc(&bytes, 0).unwrap();
    assert_eq!(end, bytes.len());
    assert_eq!(back, d);

    let empty = DottedCausalContainer::new();
    let mut bytes: Vec<u8> = Vec::new();
    encode_dcc(&empty, &mut bytes);
    let (back, end) = decode_dcc(&bytes, 0).unwrap();
    assert_eq!(end, 16);
    assert!(back.is_empty());

    // truncated and unsorted inputs are rejected
    assert!(decode_dcc(&bytes[..7], 0).is_none());
    let mut bad: Vec<u8> = Vec::new();
    push_u64(&mut bad, 2);
    for dot in [(5u64, 1u64), (1, 1)] {
        push_u64(&mut bad, dot.0);
        push_u64(&mut bad, dot.1);
        push_u64(&mut bad, 0);
    }
    push_u64(&mut bad, 0);
    assert!(decode_dcc(&bad, 0).is_none());
}

#[test]
fn command_grammar() {
    let get = vec![b"GET".to_vec(), b"k".to_vec()];
    let cmds = parse_commands(&get).unwrap();
    assert_eq!(cmds.len(), 1);
    assert!(matches!(&cmds[0], Command::Get { key } if key == b"k"));

    let mget = vec![b"MGET".to_vec(), b"a".to_vec(), b"b".to_vec()];
    assert_eq!(parse_commands(&mget).unwrap().len(), 2);

    let put = vec![b"SET".to_vec(), b"k".to_vec(), b"v".to_vec()];
    let cmds = parse_commands(&put).unwrap();
    assert!(matches!(
        &cmds[0],
        Command::Put { key, value: Some(v), ctx } if key == b"k" && v == b"v" && ctx.len() == 0
    ));

    // a SET with a context carries the decoded vector
    let mut vv = VersionVector::new();
    vv.add(3, 4);
    let mut ctx_bytes: Vec<u8> = Vec::new();
    encode_vv(&vv, &mut ctx_bytes);
    let put = vec![b"SET".to_vec(), b"k".to_vec(), b"v".to_vec(), ctx_bytes.clone()];
    let cmds = parse_commands(&put).unwrap();
    assert!(matches!(&cmds[0], Command::Put { ctx, .. } if *ctx == vv));

    let del = vec![b"DEL".to_vec(), b"k".to_vec(), ctx_bytes.clone()];
    let cmds = parse_commands(&del).unwrap();
    assert!(matches!(&cmds[0], Command::Put { value: None, .. }));

    let mdel = vec![b"MDEL".to_vec(), b"k".to_vec(), ctx_bytes.clone()];
    assert_eq!(parse_commands(&mdel).unwrap().len(), 1);

    let mset = vec![
        b"MSET".to_vec(),
        b"k".to_vec(),
        b"v".to_vec(),
        ctx_bytes.clone(),
        b"k2".to_vec(),
        b"v2".to_vec(),
        ctx_bytes.clone(),
    ];
    assert_eq!(parse_commands(&mset).unwrap().len(), 2);

    // malformed frames are protocol errors
    let none: Vec<Vec<u8>> = Vec::new();
    assert!(matches!(parse_commands(&none), Err(ClientError::ProtocolError)));
    assert!(matches!(
        parse_commands(&vec![b"GET".to_vec()]),
        Err(ClientError::ProtocolError)
    ));
    assert!(matches!(
        parse_commands(&vec![b"PING".to_vec()]),
        Err(ClientError::ProtocolError)
    ));
    assert!(matches!(
        parse_commands(&vec![b"SET".to_vec(), b"k".to_vec(), b"v".to_vec(), b"junk".to_vec()]),
        Err(ClientError::ProtocolError)
    ));
}

#[test]
fn message_types() {
    let m = FabricMsg::RemoteGet(MsgRemoteGet { vnode: 1, cookie: (1, 2), key: b"k".to_vec() });
    assert_eq!(m.get_type(), FabricMsgType::Crud);
    let m = FabricMsg::BootstrapAck(MsgBootstrapAck { vnode: 1, cookie: (1, 2), seq: 0 });
    assert_eq!(m.get_type(), FabricMsgType::Bootstrap);
    let m = FabricMsg::SyncAck(MsgSyncAck { vnode: 1, cookie: (1, 2), seq: 0 });
    assert_eq!(m.get_type(), FabricMsgType::Synch);
}

#[test]
fn status_transitions() {
    assert_eq!(next_status(VNodeStatus::Absent, true), VNodeStatus::Bootstrap);
    assert_eq!(next_status(VNodeStatus::Bootstrap, true), VNodeStatus::Bootstrap);
    assert_eq!(next_status(VNodeStatus::Ready, true), VNodeStatus::Ready);
    assert_eq!(next_status(VNodeStatus::Ready, false), VNodeStatus::Absent);
    assert_eq!(next_status(VNodeStatus::Bootstrap, false), VNodeStatus::Absent);
    assert_eq!(initial_status(true, false), VNodeStatus::Ready);
    assert_eq!(initial_status(false, true), VNodeStatus::Bootstrap);
    assert_eq!(initial_status(false, false), VNodeStatus::Absent);
}

#[test]
fn replica_write_records_dots() {
    let mut clocks = BitmappedVersionVector::new();
    let received = dcc_bytes(&[((1, 1), b"v")], &[(1, 1)]);
    let persisted = replica_write(&mut clocks, DottedCausalContainer::new(), received);
    assert_eq!(persisted.len(), 1);
    assert_eq!(clocks.get(1).unwrap(), &BitmappedVersion::new(1, 0));
    // the persisted context is stripped of what the clock covers densely
    assert_eq!(persisted.version_vector().get(1), None);
    let filled = read_local(&clocks, persisted);
    assert_eq!(filled.version_vector().get(1), Some(1));
}

#[test]
fn sync_delta_detection() {
    let d = dcc_bytes(&[((1, 3), b"v")], &[(1, 3)]);
    let known_nothing = BitmappedVersion::new(0, 0);
    assert!(needs_sync(&d, 1, &known_nothing));
    let known_all = BitmappedVersion::new(3, 0);
    assert!(!needs_sync(&d, 1, &known_all));
    assert!(!needs_sync(&d, 2, &known_nothing));
}

#[test]
fn cookies_never_repeat() {
    let mut src = causalkv::vnode::CookieSource::new(3);
    assert_eq!(src.next_cookie(), (3, 0));
    assert_eq!(src.next_cookie(), (3, 1));
    assert_eq!(src.next_cookie(), (3, 2));
}

#[test]
fn transfer_window_slides() {
    let mut w = TransferWindow::new(2);
    assert!(w.can_send());
    assert_eq!(w.on_send(), 0);
    assert_eq!(w.on_send(), 1);
    assert!(!w.can_send());
    w.on_ack();
    assert!(w.can_send());
    assert_eq!(w.on_send(), 2);
}

#[test]
fn round_robin_cursor() {
    let mut rr = causalkv::workers::RoundRobin::new(5);
    assert_eq!(rr.next_queue(4), 2);
    assert_eq!(rr.next_queue(4), 3);
    assert_eq!(rr.next_queue(4), 0);
    let mut rr = causalkv::workers::RoundRobin::new(usize::MAX);
    assert_eq!(rr.next_queue(3), 0);
}

#[test]
fn read_at_state() {
    let buf = vec![0u8; 4];
    let mut r = read_at(7u8, buf, 1);
    assert!(r.is_pending());
    let (rd, buf, at) = r.resolve();
    assert_eq!(rd, 7u8);
    assert_eq!(buf.len(), 4);
    assert_eq!(at, 1);
    assert!(!r.is_pending());
}

#[test]
fn signaled_channel_steps() {
    let (flag, out) = signaled_step(false, StreamEvent::Item(5u32));
    assert!(flag);
    assert_eq!(out, StreamOutput::Deliver(5));
    let (flag, out) = signaled_step::<u32>(true, StreamEvent::NotReady);
    assert!(!flag);
    assert_eq!(out, StreamOutput::Signal);
    let (flag, out) = signaled_step::<u32>(false, StreamEvent::NotReady);
    assert!(!flag);
    assert_eq!(out, StreamOutput::Pending);
    let (_, out) = signaled_step::<u32>(true, StreamEvent::Finished);
    assert_eq!(out, StreamOutput::Finished);
}
