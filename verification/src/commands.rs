//! The client command grammar.
//!
//! A client request arrives as an array of byte strings whose first element
//! names the verb. `GET` reads one key and `MGET` many; `SET` writes a key
//! with a value and an optional causal context; `MSET` writes triples of
//! key, value and context; `DEL` writes an empty value, alone or with a
//! context, and `MDEL` does so for pairs of key and context. A context is a
//! version vector in the binary encoding of [`crate::codec`]. Anything else
//! is a protocol error.

use vstd::prelude::*;

use crate::codec::{dec_vv, decode_vv};
use crate::version_vector::{VersionVector, copy_bytes};
use crate::vnode::ClientError;

verus! {

/// One decoded client operation: a read, or a write of an optional value
/// under a causal context. A write without a value is a delete.
#[derive(Debug)]
pub enum Command {
    Get { key: Vec<u8> },
    Put { key: Vec<u8>, value: Option<Vec<u8>>, ctx: VersionVector },
}

/// The bytes of the verb `GET`.
pub open spec fn verb_get() -> Seq<u8> {
    seq![0x47u8, 0x45u8, 0x54u8]
}

/// The bytes of the verb `MGET`.
pub open spec fn verb_mget() -> Seq<u8> {
    seq![0x4Du8, 0x47u8, 0x45u8, 0x54u8]
}

/// The bytes of the verb `SET`.
pub open spec fn verb_set() -> Seq<u8> {
    seq![0x53u8, 0x45u8, 0x54u8]
}

/// The bytes of the verb `MSET`.
pub open spec fn verb_mset() -> Seq<u8> {
    seq![0x4Du8, 0x53u8, 0x45u8, 0x54u8]
}

/// The bytes of the verb `DEL`.
pub open spec fn verb_del() -> Seq<u8> {
    seq![0x44u8, 0x45u8, 0x4Cu8]
}

/// The bytes of the verb `MDEL`.
pub open spec fn verb_mdel() -> Seq<u8> {
    seq![0x4Du8, 0x44u8, 0x45u8, 0x4Cu8]
}

/// Whether `s` is a whole canonical context encoding.
pub open spec fn ctx_ok(s: Seq<u8>) -> bool {
    match dec_vv(s, 0) {
        Some((_, end)) => end == s.len(),
        None => false,
    }
}

/// The context encoded by `s`.
pub open spec fn ctx_of(s: Seq<u8>) -> Seq<(u64, u64)> {
    dec_vv(s, 0)->Some_0.0
}

/// Whether the argument list parses, by verb and shape.
pub open spec fn args_ok(a: Seq<Seq<u8>>) -> bool {
    a.len() > 0 && ((a[0] == verb_get() && a.len() == 2) || (a[0] == verb_mget() && a.len() >= 2)
        || (a[0] == verb_set() && (a.len() == 3 || (a.len() == 4 && ctx_ok(a[3])))) || (a[0]
        == verb_mset() && a.len() >= 4 && (a.len() - 1) % 3 == 0 && (forall|k: int|
        0 <= k < (a.len() - 1) / 3 ==> ctx_ok(#[trigger] a[3 * k + 3]))) || (a[0] == verb_del() && (
    a.len() == 2 || (a.len() == 3 && ctx_ok(a[2])))) || (a[0] == verb_mdel() && a.len() >= 3 && (
    a.len() - 1) % 2 == 0 && (forall|k: int| 0 <= k < (a.len() - 1) / 2 ==> ctx_ok(
        #[trigger] a[2 * k + 2],
    ))))
}

/// The views of an argument list.
pub open spec fn views(args: Seq<Vec<u8>>) -> Seq<Seq<u8>> {
    args.map_values(|v: Vec<u8>| v@)
}

/// Compares a byte string with three given bytes.
fn eq3(a: &Vec<u8>, x0: u8, x1: u8, x2: u8) -> (r: bool)
    ensures
        r == (a@ == seq![x0, x1, x2]),
{
    if a.len() == 3 && a[0] == x0 && a[1] == x1 && a[2] == x2 {
        proof {
            assert(a@ =~= seq![x0, x1, x2]);
        }
        true
    } else {
        proof {
            if a@ == seq![x0, x1, x2] {
                assert(a@.len() == 3);
                assert(a@[0] == x0 && a@[1] == x1 && a@[2] == x2);
            }
        }
        false
    }
}

/// Compares a byte string with four given bytes.
fn eq4(a: &Vec<u8>, x0: u8, x1: u8, x2: u8, x3: u8) -> (r: bool)
    ensures
        r == (a@ == seq![x0, x1, x2, x3]),
{
    if a.len() == 4 && a[0] == x0 && a[1] == x1 && a[2] == x2 && a[3] == x3 {
        proof {
            assert(a@ =~= seq![x0, x1, x2, x3]);
        }
        true
    } else {
        proof {
            if a@ == seq![x0, x1, x2, x3] {
                assert(a@.len() == 4);
                assert(a@[0] == x0 && a@[1] == x1 && a@[2] == x2 && a@[3] == x3);
            }
        }
        false
    }
}

/// Decodes a whole context argument.
fn parse_ctx(a: &Vec<u8>) -> (r: Option<VersionVector>)
    ensures
        r is Some <==> ctx_ok(a@),
        match r {
            Some(vv) => vv.wf() && vv.entries_seq() == ctx_of(a@),
            None => true,
        },
{
    match decode_vv(a.as_slice(), 0) {
        Some((vv, end)) => {
            if end == a.len() {
                Some(vv)
            } else {
                None
            }
        },
        None => None,
    }
}

/// Parses a client argument list into commands.
///
/// Parsing succeeds exactly on the shapes of [`args_ok`]; any other input
/// is answered with a protocol error. On success the commands mirror the
/// arguments in order: one read per key, one write per key with its value
/// and context, the context empty where the verb takes none.
pub fn parse_commands(args: &Vec<Vec<u8>>) -> (r: Result<Vec<Command>, ClientError>)
    ensures
        r is Ok <==> args_ok(views(args@)),
        r is Err ==> r == Err::<Vec<Command>, ClientError>(ClientError::ProtocolError),
        match r {
            Ok(cmds) => {
                let a = views(args@);
                &&& (a[0] == verb_get() ==> cmds@.len() == 1 && (cmds@[0] matches Command::Get {
                    key,
                } && key@ == a[1]))
                &&& (a[0] == verb_mget() ==> cmds@.len() == a.len() - 1 && (forall|i: int|
                    0 <= i < cmds@.len() ==> (#[trigger] cmds@[i] matches Command::Get { key }
                        && key@ == a[i + 1])))
                &&& (a[0] == verb_set() ==> cmds@.len() == 1 && (cmds@[0] matches Command::Put {
                    key,
                    value,
                    ctx,
                } && key@ == a[1] && (value matches Some(v) && v@ == a[2]) && (a.len() == 3
                    ==> ctx.entries_seq().len() == 0) && (a.len() == 4 ==> ctx.entries_seq()
                    == ctx_of(a[3]))))
                &&& (a[0] == verb_mset() ==> cmds@.len() == (a.len() - 1) / 3 && (forall|k: int|
                    0 <= k < cmds@.len() ==> (#[trigger] cmds@[k] matches Command::Put {
                        key,
                        value,
                        ctx,
                    } && key@ == a[3 * k + 1] && (value matches Some(v) && v@ == a[3 * k + 2])
                        && ctx.entries_seq() == ctx_of(a[3 * k + 3]))))
                &&& (a[0] == verb_del() ==> cmds@.len() == 1 && (cmds@[0] matches Command::Put {
                    key,
                    value,
                    ctx,
                } && key@ == a[1] && value is None && (a.len() == 2 ==> ctx.entries_seq().len()
                    == 0) && (a.len() == 3 ==> ctx.entries_seq() == ctx_of(a[2]))))
                &&& (a[0] == verb_mdel() ==> cmds@.len() == (a.len() - 1) / 2 && (forall|k: int|
                    0 <= k < cmds@.len() ==> (#[trigger] cmds@[k] matches Command::Put {
                        key,
                        value,
                        ctx,
                    } && key@ == a[2 * k + 1] && value is None && ctx.entries_seq() == ctx_of(
                        a[2 * k + 2],
                    ))))
            },
            Err(_) => true,
        },
{
    let ghost a = views(args@);
    if args.len() == 0 {
        return Err(ClientError::ProtocolError);
    }
    let verb = &args[0];
    if eq3(verb, 0x47, 0x45, 0x54) {
        if args.len() != 2 {
            return Err(ClientError::ProtocolError);
        }
        let mut cmds: Vec<Command> = Vec::new();
        cmds.push(Command::Get { key: copy_bytes(&args[1]) });
        Ok(cmds)
    } else if eq4(verb, 0x4D, 0x47, 0x45, 0x54) {
        if args.len() < 2 {
            return Err(ClientError::ProtocolError);
        }
        let mut cmds: Vec<Command> = Vec::new();
        let mut i: usize = 1;
        while i < args.len()
            invariant
                a == views(args@),
                1 <= i <= args@.len(),
                cmds@.len() == i - 1,
                forall|j: int|
                    0 <= j < cmds@.len() ==> (#[trigger] cmds@[j] matches Command::Get { key }
                        && key@ == a[j + 1]),
            decreases args@.len() - i,
        {
            cmds.push(Command::Get { key: copy_bytes(&args[i]) });
            i = i + 1;
        }
        Ok(cmds)
    } else if eq3(verb, 0x53, 0x45, 0x54) {
        if args.len() == 3 {
            let mut cmds: Vec<Command> = Vec::new();
            cmds.push(
                Command::Put {
                    key: copy_bytes(&args[1]),
                    value: Some(copy_bytes(&args[2])),
                    ctx: VersionVector::new(),
                },
            );
            Ok(cmds)
        } else if args.len() == 4 {
            match parse_ctx(&args[3]) {
                Some(ctx) => {
                    let mut cmds: Vec<Command> = Vec::new();
                    cmds.push(
                        Command::Put {
                            key: copy_bytes(&args[1]),
                            value: Some(copy_bytes(&args[2])),
                            ctx,
                        },
                    );
                    Ok(cmds)
                },
                None => Err(ClientError::ProtocolError),
            }
        } else {
            Err(ClientError::ProtocolError)
        }
    } else if eq4(verb, 0x4D, 0x53, 0x45, 0x54) {
        if args.len() < 4 || (args.len() - 1) % 3 != 0 {
            return Err(ClientError::ProtocolError);
        }
        let count = (args.len() - 1) / 3;
        proof {
            vstd::arithmetic::div_mod::lemma_fundamental_div_mod(args@.len() - 1, 3);
        }
        let mut cmds: Vec<Command> = Vec::new();
        let mut k: usize = 0;
        while k < count
            invariant
                a == views(args@),
                args@.len() >= 4,
                (args@.len() - 1) % 3 == 0,
                count == (args@.len() - 1) / 3,
                3 * count == args@.len() - 1,
                args@.len() <= usize::MAX,
                a[0] == verb_mset(),
                k <= count,
                cmds@.len() == k,
                forall|j: int|
                    0 <= j < k ==> (#[trigger] cmds@[j] matches Command::Put { key, value, ctx }
                        && key@ == a[3 * j + 1] && (value matches Some(v) && v@ == a[3 * j + 2])
                        && ctx.entries_seq() == ctx_of(a[3 * j + 3])),
                forall|j: int| 0 <= j < k ==> ctx_ok(#[trigger] a[3 * j + 3]),
            decreases count - k,
        {
            proof {
                assert(3 * k + 3 < args@.len());
            }
            match parse_ctx(&args[3 * k + 3]) {
                Some(ctx) => {
                    cmds.push(
                        Command::Put {
                            key: copy_bytes(&args[3 * k + 1]),
                            value: Some(copy_bytes(&args[3 * k + 2])),
                            ctx,
                        },
                    );
                },
                None => {
                    proof {
                        assert(a[3 * k + 3] == args@[3 * k + 3]@);
                        assert(!ctx_ok(a[3 * k + 3]));
                        if args_ok(a) {
                            assert(a[0] == verb_mset());
                            assert(ctx_ok(a[3 * k + 3]));
                        }
                    }
                    return Err(ClientError::ProtocolError);
                },
            }
            k = k + 1;
        }
        proof {
            assert(args_ok(a));
        }
        Ok(cmds)
    } else if eq3(verb, 0x44, 0x45, 0x4C) {
        if args.len() == 2 {
            let mut cmds: Vec<Command> = Vec::new();
            cmds.push(
                Command::Put { key: copy_bytes(&args[1]), value: None, ctx: VersionVector::new() },
            );
            Ok(cmds)
        } else if args.len() == 3 {
            match parse_ctx(&args[2]) {
                Some(ctx) => {
                    let mut cmds: Vec<Command> = Vec::new();
                    cmds.push(Command::Put { key: copy_bytes(&args[1]), value: None, ctx });
                    Ok(cmds)
                },
                None => Err(ClientError::ProtocolError),
            }
        } else {
            Err(ClientError::ProtocolError)
        }
    } else if eq4(verb, 0x4D, 0x44, 0x45, 0x4C) {
        if args.len() < 3 || (args.len() - 1) % 2 != 0 {
            return Err(ClientError::ProtocolError);
        }
        let count = (args.len() - 1) / 2;
        proof {
            vstd::arithmetic::div_mod::lemma_fundamental_div_mod(args@.len() - 1, 2);
        }
        let mut cmds: Vec<Command> = Vec::new();
        let mut k: usize = 0;
        while k < count
            invariant
                a == views(args@),
                args@.len() >= 3,
                (args@.len() - 1) % 2 == 0,
                count == (args@.len() - 1) / 2,
                2 * count == args@.len() - 1,
                args@.len() <= usize::MAX,
                a[0] == verb_mdel(),
                k <= count,
                cmds@.len() == k,
                forall|j: int|
                    0 <= j < k ==> (#[trigger] cmds@[j] matches Command::Put { key, value, ctx }
                        && key@ == a[2 * j + 1] && value is None && ctx.entries_seq() == ctx_of(
                        a[2 * j + 2],
                    )),
                forall|j: int| 0 <= j < k ==> ctx_ok(#[trigger] a[2 * j + 2]),
            decreases count - k,
        {
            proof {
                assert(2 * k + 2 < args@.len());
            }
            match parse_ctx(&args[2 * k + 2]) {
                Some(ctx) => {
                    cmds.push(Command::Put { key: copy_bytes(&args[2 * k + 1]), value: None, ctx });
                },
                None => {
                    proof {
                        assert(a[2 * k + 2] == args@[2 * k + 2]@);
                        assert(!ctx_ok(a[2 * k + 2]));
                        if args_ok(a) {
                            assert(a[0] == verb_mdel());
                            assert(ctx_ok(a[2 * k + 2]));
                        }
                    }
                    return Err(ClientError::ProtocolError);
                },
            }
            k = k + 1;
        }
        proof {
            assert(args_ok(a));
        }
        Ok(cmds)
    } else {
        Err(ClientError::ProtocolError)
    }
}

} // verus!
