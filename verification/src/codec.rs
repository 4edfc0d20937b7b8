//! Length-prefixed binary codec for the causal types.
//!
//! Integers are eight bytes little-endian. A version vector is its entry
//! count followed by `(actor, version)` pairs in increasing actor order; a
//! container is its dot count, the dots with their values, and then its
//! context. Decoding accepts exactly the canonical encodings, so encoding
//! and decoding invert each other.

use vstd::prelude::*;

use crate::assoc::{assoc_get_dot, dot_lt, sorted_by_dot, sorted_by_id};
use crate::version_vector::{BitmappedVersion, BitmappedVersionVector, Dots, DottedCausalContainer,
    VersionVector};
use crate::Id;

verus! {

/// The byte at position `i` of the little-endian encoding of `v`.
pub open spec fn u64_byte(v: u64, i: int) -> u8 {
    ((v >> ((8 * i) as u64)) & 0xFF) as u8
}

/// The eight-byte little-endian encoding of `v`.
pub open spec fn enc_u64(v: u64) -> Seq<u8> {
    Seq::new(8, |i: int| u64_byte(v, i))
}

/// The value read back from eight little-endian bytes at `pos`, when the
/// input is long enough.
pub open spec fn dec_u64(s: Seq<u8>, pos: int) -> Option<u64> {
    if 0 <= pos && pos + 8 <= s.len() {
        Some(
            (s[pos] as u64) | ((s[pos + 1] as u64) << 8u64) | ((s[pos + 2] as u64) << 16u64) | ((s[
                pos + 3] as u64) << 24u64) | ((s[pos + 4] as u64) << 32u64) | ((s[pos + 5] as u64)
                << 40u64) | ((s[pos + 6] as u64) << 48u64) | ((s[pos + 7] as u64) << 56u64),
        )
    } else {
        None
    }
}

/// Reading back an encoded integer returns the integer.
pub proof fn lemma_u64_round_trip(v: u64, s: Seq<u8>, pos: int)
    requires
        0 <= pos,
        pos + 8 <= s.len(),
        forall|i: int| 0 <= i < 8 ==> s[pos + i] == u64_byte(v, i),
    ensures
        dec_u64(s, pos) == Some(v),
{
    assert(s[pos] == u64_byte(v, 0));
    assert(s[pos + 1] == u64_byte(v, 1));
    assert(s[pos + 2] == u64_byte(v, 2));
    assert(s[pos + 3] == u64_byte(v, 3));
    assert(s[pos + 4] == u64_byte(v, 4));
    assert(s[pos + 5] == u64_byte(v, 5));
    assert(s[pos + 6] == u64_byte(v, 6));
    assert(s[pos + 7] == u64_byte(v, 7));
    assert((((v >> 0u64) & 0xFF) as u8 as u64) | ((((v >> 8u64) & 0xFF) as u8 as u64) << 8u64) | ((
    ((v >> 16u64) & 0xFF) as u8 as u64) << 16u64) | ((((v >> 24u64) & 0xFF) as u8 as u64)
        << 24u64) | ((((v >> 32u64) & 0xFF) as u8 as u64) << 32u64) | ((((v >> 40u64)
        & 0xFF) as u8 as u64) << 40u64) | ((((v >> 48u64) & 0xFF) as u8 as u64) << 48u64) | ((((v
        >> 56u64) & 0xFF) as u8 as u64) << 56u64) == v) by (bit_vector);
}

/// Appends the little-endian encoding of `v`.
pub fn push_u64(out: &mut Vec<u8>, v: u64)
    ensures
        final(out)@ == old(out)@ + enc_u64(v),
{
    out.push((v & 0xFF) as u8);
    out.push(((v >> 8u64) & 0xFF) as u8);
    out.push(((v >> 16u64) & 0xFF) as u8);
    out.push(((v >> 24u64) & 0xFF) as u8);
    out.push(((v >> 32u64) & 0xFF) as u8);
    out.push(((v >> 40u64) & 0xFF) as u8);
    out.push(((v >> 48u64) & 0xFF) as u8);
    out.push(((v >> 56u64) & 0xFF) as u8);
    proof {
        assert((v & 0xFF) == ((v >> 0u64) & 0xFF)) by (bit_vector);
        assert(out@ =~= old(out)@ + enc_u64(v));
    }
}

/// Reads eight little-endian bytes at `pos`.
pub fn read_u64(data: &[u8], pos: usize) -> (r: Option<(u64, usize)>)
    ensures
        match r {
            Some((v, end)) => dec_u64(data@, pos as int) == Some(v) && end == pos + 8,
            None => dec_u64(data@, pos as int) is None,
        },
{
    if pos >= data.len() || data.len() - pos < 8 {
        return None;
    }
    let v = (data[pos] as u64) | ((data[pos + 1] as u64) << 8u64) | ((data[pos + 2] as u64)
        << 16u64) | ((data[pos + 3] as u64) << 24u64) | ((data[pos + 4] as u64) << 32u64) | ((
    data[pos + 5] as u64) << 40u64) | ((data[pos + 6] as u64) << 48u64) | ((data[pos + 7] as u64)
        << 56u64);
    Some((v, pos + 8))
}

/// The encoding of a sequence of pairs.
pub open spec fn enc_pairs(s: Seq<(u64, u64)>) -> Seq<u8>
    decreases s.len(),
{
    if s.len() == 0 {
        Seq::empty()
    } else {
        enc_u64(s[0].0) + enc_u64(s[0].1) + enc_pairs(s.drop_first())
    }
}

/// The encoding of a version vector: entry count, then the pairs.
pub open spec fn enc_vv(s: Seq<(u64, u64)>) -> Seq<u8> {
    enc_u64(s.len() as u64) + enc_pairs(s)
}

/// Reads back `n` pairs from `pos`.
pub open spec fn dec_pairs(s: Seq<u8>, pos: int, n: nat) -> Option<(Seq<(u64, u64)>, int)>
    decreases n,
{
    if n == 0 {
        Some((Seq::empty(), pos))
    } else {
        match dec_u64(s, pos) {
            Some(a) => match dec_u64(s, pos + 8) {
                Some(b) => match dec_pairs(s, pos + 16, (n - 1) as nat) {
                    Some((rest, end)) => Some((seq![(a, b)] + rest, end)),
                    None => None,
                },
                None => None,
            },
            None => None,
        }
    }
}

/// Reads back a version vector from `pos`: its count, its pairs, and a
/// check that the actors come in strictly increasing order.
pub open spec fn dec_vv(s: Seq<u8>, pos: int) -> Option<(Seq<(u64, u64)>, int)> {
    match dec_u64(s, pos) {
        Some(n) => if n > 0xFFFF_FFFF {
            None
        } else {
            match dec_pairs(s, pos + 8, n as nat) {
                Some((pairs, end)) => if sorted_by_id(pairs) {
                    Some((pairs, end))
                } else {
                    None
                },
                None => None,
            }
        },
        None => None,
    }
}

/// Reading back encoded pairs returns the pairs.
pub proof fn lemma_pairs_round_trip(s: Seq<(u64, u64)>, data: Seq<u8>, pos: int)
    requires
        0 <= pos,
        pos + enc_pairs(s).len() <= data.len(),
        data.subrange(pos, pos + enc_pairs(s).len() as int) == enc_pairs(s),
    ensures
        enc_pairs(s).len() == 16 * s.len(),
        dec_pairs(data, pos, s.len()) == Some((s, pos + 16 * s.len())),
    decreases s.len(),
{
    if s.len() == 0 {
        assert(s =~= Seq::<(u64, u64)>::empty());
    } else {
        let e = enc_pairs(s);
        assert(e == enc_u64(s[0].0) + enc_u64(s[0].1) + enc_pairs(s.drop_first()));
        assert(enc_pairs(s.drop_first()).len() == 16 * s.drop_first().len()) by {
            lemma_pairs_len(s.drop_first());
        }
        assert(e.len() == 16 + 16 * (s.len() - 1));
        assert forall|i: int| 0 <= i < 8 implies data[pos + i] == u64_byte(s[0].0, i) by {
            assert(data[pos + i] == e[i]);
            assert(e[i] == enc_u64(s[0].0)[i]);
        }
        lemma_u64_round_trip(s[0].0, data, pos);
        assert forall|i: int| 0 <= i < 8 implies data[pos + 8 + i] == u64_byte(s[0].1, i) by {
            assert(data[pos + 8 + i] == e[8 + i]);
            assert(e[8 + i] == enc_u64(s[0].1)[i]);
        }
        lemma_u64_round_trip(s[0].1, data, pos + 8);
        assert(data.subrange(pos + 16, pos + 16 + enc_pairs(s.drop_first()).len() as int)
            =~= enc_pairs(s.drop_first())) by {
            assert forall|i: int|
                0 <= i < enc_pairs(s.drop_first()).len() implies data[pos + 16 + i] == enc_pairs(
                s.drop_first(),
            )[i] by {
                assert(data[pos + 16 + i] == e[16 + i]);
            }
        }
        lemma_pairs_round_trip(s.drop_first(), data, pos + 16);
        assert(seq![(s[0].0, s[0].1)] + s.drop_first() =~= s);
    }
}

/// The encoding of `n` pairs takes `16 n` bytes.
pub proof fn lemma_pairs_len(s: Seq<(u64, u64)>)
    ensures
        enc_pairs(s).len() == 16 * s.len(),
    decreases s.len(),
{
    if s.len() > 0 {
        lemma_pairs_len(s.drop_first());
    }
}

/// Reading back an encoded version vector returns the vector.
pub proof fn lemma_vv_round_trip(s: Seq<(u64, u64)>, data: Seq<u8>, pos: int)
    requires
        0 <= pos,
        sorted_by_id(s),
        s.len() <= 0xFFFF_FFFF,
        pos + enc_vv(s).len() <= data.len(),
        data.subrange(pos, pos + enc_vv(s).len() as int) == enc_vv(s),
    ensures
        enc_vv(s).len() == 8 + 16 * s.len(),
        dec_vv(data, pos) == Some((s, pos + 8 + 16 * s.len())),
{
    let e = enc_vv(s);
    lemma_pairs_len(s);
    assert forall|i: int| 0 <= i < 8 implies data[pos + i] == #[trigger] u64_byte(
        s.len() as u64,
        i,
    ) by {
        assert(data[pos + i] == e[i]);
        assert(e[i] == enc_u64(s.len() as u64)[i]);
    }
    lemma_u64_round_trip(s.len() as u64, data, pos);
    assert(data.subrange(pos + 8, pos + 8 + enc_pairs(s).len() as int) =~= enc_pairs(s)) by {
        assert forall|i: int|
            0 <= i < enc_pairs(s).len() implies data[pos + 8 + i] == enc_pairs(s)[i] by {
            assert(data[pos + 8 + i] == e[8 + i]);
        }
    }
    lemma_pairs_round_trip(s, data, pos + 8);
}

/// Encodes a version vector.
pub fn encode_vv(vv: &VersionVector, out: &mut Vec<u8>)
    requires
        vv.entries_seq().len() <= 0xFFFF_FFFF,
    ensures
        final(out)@ == old(out)@ + enc_vv(vv.entries_seq()),
{
    let n = vv.len();
    push_u64(out, n as u64);
    let mut i: usize = 0;
    while i < n
        invariant
            n == vv.entries_seq().len(),
            i <= n,
            out@ == old(out)@ + enc_u64(n as u64) + enc_pairs(vv.entries_seq().take(i as int))
                + Seq::<u8>::empty(),
            out@.len() == old(out)@.len() + 8 + 16 * i,
        decreases n - i,
    {
        let (id, ver) = vv.entry_at(i);
        push_u64(out, id);
        push_u64(out, ver);
        proof {
            lemma_enc_pairs_snoc(vv.entries_seq().take(i + 1));
            assert(vv.entries_seq().take(i + 1).drop_last() =~= vv.entries_seq().take(i as int));
            assert(out@ =~= old(out)@ + enc_u64(n as u64) + enc_pairs(
                vv.entries_seq().take(i + 1),
            ) + Seq::<u8>::empty());
        }
        i = i + 1;
    }
    proof {
        assert(vv.entries_seq().take(n as int) =~= vv.entries_seq());
        assert(out@ =~= old(out)@ + enc_vv(vv.entries_seq()));
    }
}

/// Splitting the last pair off the encoding.
proof fn lemma_enc_pairs_snoc(s: Seq<(u64, u64)>)
    requires
        s.len() > 0,
    ensures
        enc_pairs(s) == enc_pairs(s.drop_last()) + enc_u64(s.last().0) + enc_u64(s.last().1),
    decreases s.len(),
{
    if s.len() == 1 {
        assert(s.drop_last() =~= Seq::<(u64, u64)>::empty());
        assert(s.drop_first() =~= Seq::<(u64, u64)>::empty());
        assert(enc_pairs(s) =~= enc_pairs(s.drop_last()) + enc_u64(s.last().0) + enc_u64(
            s.last().1,
        ));
    } else {
        lemma_enc_pairs_snoc(s.drop_first());
        assert(s.drop_first().drop_last() =~= s.drop_last().drop_first());
        assert(s.drop_first().last() == s.last());
        assert(s.drop_last()[0] == s[0]);
        assert(s.drop_last().len() > 0);
        assert(enc_pairs(s.drop_last()) == enc_u64(s[0].0) + enc_u64(s[0].1) + enc_pairs(
            s.drop_last().drop_first(),
        ));
        assert(enc_pairs(s) =~= enc_pairs(s.drop_last()) + enc_u64(s.last().0) + enc_u64(
            s.last().1,
        ));
    }
}

/// Decodes a version vector. Exactly the canonical encodings are accepted:
/// the result is well-formed and re-encodes to the bytes consumed.
pub fn decode_vv(data: &[u8], pos: usize) -> (r: Option<(VersionVector, usize)>)
    requires
        pos <= data@.len(),
    ensures
        match r {
            Some((vv, end)) => {
                &&& vv.wf()
                &&& dec_vv(data@, pos as int) == Some((vv.entries_seq(), end as int))
                &&& pos <= end <= data@.len()
            },
            None => dec_vv(data@, pos as int) is None,
        },
{
    let (n, mut cur) = match read_u64(data, pos) {
        Some(x) => x,
        None => {
            return None;
        },
    };
    if n > 0xFFFF_FFFF {
        return None;
    }
    if (n as usize) > (data.len() - cur) / 16 {
        proof {
            assert(16 * (n as nat) > data@.len() - cur) by {
                assert((n as int) > (data@.len() - cur) / 16);
            }
            lemma_dec_pairs_len(data@, cur as int, n as nat);
        }
        return None;
    }
    let count = n as usize;
    proof {
        assert(16 * (count as int) <= data@.len() - cur) by {
            assert((count as int) <= (data@.len() - cur) / 16);
        }
    }
    let mut vv = VersionVector::new();
    let mut i: usize = 0;
    let mut prev: u64 = 0;
    while i < count
        invariant
            pos + 8 == cur - 16 * i,
            cur <= data@.len(),
            dec_u64(data@, pos as int) == Some(count as u64),
            count <= 0xFFFF_FFFF,
            16 * count <= data@.len() - (pos + 8),
            i <= count,
            vv.wf(),
            vv.entries_seq().len() == i,
            i > 0 ==> vv.entries_seq().last().0 == prev,
            forall|j: int| 0 <= j < i ==> (#[trigger] vv.entries_seq()[j]).0 <= prev,
            dec_pairs(data@, pos + 8, count as nat) == (match dec_pairs(
                data@,
                cur as int,
                (count - i) as nat,
            ) {
                Some((rest, end)) => Some((vv.entries_seq() + rest, end)),
                None => None,
            }),
        decreases count - i,
    {
        let (id, c1) = match read_u64(data, cur) {
            Some(x) => x,
            None => {
                proof {
                    assert(false);
                }
                return None;
            },
        };
        let (ver, c2) = match read_u64(data, c1) {
            Some(x) => x,
            None => {
                proof {
                    assert(false);
                }
                return None;
            },
        };
        if i > 0 && id <= prev {
            proof {
                let rec = dec_pairs(data@, cur as int, (count - i) as nat);
                if rec is Some {
                    assert(rec == (match dec_pairs(data@, cur + 16, (count - i - 1) as nat) {
                        Some((rest, end)) => Some((seq![(id, ver)] + rest, end)),
                        None => None::<(Seq<(u64, u64)>, int)>,
                    }));
                    let pr = rec->Some_0.0;
                    assert(pr[0] == (id, ver));
                    let whole = dec_pairs(data@, pos + 8, count as nat)->Some_0.0;
                    assert(whole == vv.entries_seq() + pr);
                    assert(whole[i - 1].0 == prev && whole[i as int].0 == id);
                    if sorted_by_id(whole) {
                        assert(whole[i - 1].0 < whole[i as int].0);
                        assert(false);
                    }
                }
            }
            return None;
        }
        let ghost pre = vv;
        vv.add(id, ver);
        proof {
            crate::assoc::lemma_assoc_get(pre.entries_seq());
            if pre.get_opt(id) is Some {
                let j = choose|j: int|
                    0 <= j < pre.entries_seq().len() && pre.entries_seq()[j].0 == id;
                assert(false);
            }
            assert(vv.get_opt(id) == Some(crate::version_vector::max64(ver, 0)));
            crate::assoc::lemma_assoc_get(vv.entries_seq());
            lemma_vv_snoc(pre, vv, id, ver);
            assert(vv.entries_seq() =~= pre.entries_seq() + seq![(id, ver)]);
        }
        prev = id;
        cur = c2;
        i = i + 1;
        proof {
            assert(dec_pairs(data@, (cur - 16) as int, (count - i + 1) as nat) == (match dec_pairs(
                data@,
                cur as int,
                (count - i) as nat,
            ) {
                Some((rest, end)) => Some((seq![(id, ver)] + rest, end)),
                None => None,
            }));
            if dec_pairs(data@, cur as int, (count - i) as nat) is Some {
                let rest = dec_pairs(data@, cur as int, (count - i) as nat)->Some_0.0;
                assert(vv.entries_seq() + rest =~= pre.entries_seq() + (seq![(id, ver)] + rest));
            }
        }
    }
    proof {
        assert(dec_pairs(data@, cur as int, 0) == Some((Seq::<(u64, u64)>::empty(), cur as int)));
        assert(vv.entries_seq() + Seq::<(u64, u64)>::empty() =~= vv.entries_seq());
        assert(dec_pairs(data@, pos + 8, count as nat) == Some(
            (vv.entries_seq(), cur as int),
        ));
    }
    Some((vv, cur))
}

/// When fewer than `16 n` bytes remain, `n` pairs cannot be read.
proof fn lemma_dec_pairs_len(s: Seq<u8>, pos: int, n: nat)
    requires
        n > 0,
        16 * n > s.len() - pos,
    ensures
        dec_pairs(s, pos, n) is None,
    decreases n,
{
    if dec_u64(s, pos) is Some && dec_u64(s, pos + 8) is Some {
        if n == 1 {
            assert(dec_u64(s, pos + 8) is None);
        } else {
            lemma_dec_pairs_len(s, pos + 16, (n - 1) as nat);
        }
    }
}

/// Appending a sorted pair keeps the lookup structure used by
/// [`decode_vv`].
proof fn lemma_vv_snoc(pre: VersionVector, cur: VersionVector, id: u64, ver: u64)
    requires
        pre.wf(),
        cur.wf(),
        forall|j: int| 0 <= j < pre.entries_seq().len() ==> (#[trigger] pre.entries_seq()[j]).0
            < id,
        cur.get_opt(id) == Some(ver),
        forall|k: Id| k != id ==> cur.get_opt(k) == #[trigger] pre.get_opt(k),
    ensures
        cur.entries_seq() == pre.entries_seq() + seq![(id, ver)],
{
    crate::assoc::lemma_assoc_get(pre.entries_seq());
    let t = pre.entries_seq() + seq![(id, ver)];
    assert forall|x: int, y: int| 0 <= x < y < t.len() implies t[x].0 < t[y].0 by {
        if y < t.len() - 1 {
            assert(t[x] == pre.entries_seq()[x] && t[y] == pre.entries_seq()[y]);
        } else {
            assert(t[x] == pre.entries_seq()[x]);
        }
    }
    crate::assoc::lemma_assoc_insert(pre.entries_seq(), pre.entries_seq().len() as int, id, ver);
    assert(t =~= pre.entries_seq().insert(pre.entries_seq().len() as int, (id, ver)));
    assert forall|k: u64| #[trigger]
        crate::assoc::assoc_get(cur.entries_seq(), k) == crate::assoc::assoc_get(t, k) by {
        if k == id {
            assert(cur.get_opt(id) == Some(ver));
            assert(crate::assoc::assoc_get(t, id) == Some(ver));
        } else {
            assert(cur.get_opt(k) == pre.get_opt(k));
            assert(crate::assoc::assoc_get(t, k) == crate::assoc::assoc_get(
                pre.entries_seq(),
                k,
            ));
        }
    }
    crate::assoc::lemma_assoc_canonical(cur.entries_seq(), t);
}

/// Compares two dots in lexicographic order.
fn dot_before(a: (u64, u64), b: (u64, u64)) -> (r: bool)
    ensures
        r == dot_lt(a, b),
{
    a.0 < b.0 || (a.0 == b.0 && a.1 < b.1)
}

/// The encoding of a sequence of dots with byte values.
pub open spec fn enc_dots(s: Seq<((u64, u64), Vec<u8>)>) -> Seq<u8>
    decreases s.len(),
{
    if s.len() == 0 {
        Seq::empty()
    } else {
        enc_u64(s[0].0.0) + enc_u64(s[0].0.1) + enc_u64(s[0].1@.len() as u64) + s[0].1@
            + enc_dots(s.drop_first())
    }
}

/// The encoding of a container: dot count, dots with values, then the
/// context.
pub open spec fn enc_dcc(dots: Seq<((u64, u64), Vec<u8>)>, vv: Seq<(u64, u64)>) -> Seq<u8> {
    enc_u64(dots.len() as u64) + enc_dots(dots) + enc_vv(vv)
}

/// Reads back `n` dots with their values from `pos`.
pub open spec fn dec_dots(s: Seq<u8>, pos: int, n: nat) -> Option<
    (Seq<((u64, u64), Seq<u8>)>, int),
>
    decreases n,
{
    if n == 0 {
        Some((Seq::empty(), pos))
    } else {
        match (dec_u64(s, pos), dec_u64(s, pos + 8), dec_u64(s, pos + 16)) {
            (Some(a), Some(b), Some(l)) => if pos + 24 + l <= s.len() {
                match dec_dots(s, pos + 24 + l, (n - 1) as nat) {
                    Some((rest, end)) => Some(
                        (seq![((a, b), s.subrange(pos + 24, pos + 24 + l))] + rest, end),
                    ),
                    None => None,
                }
            } else {
                None
            },
            _ => None,
        }
    }
}

/// Reads back a container from `pos`.
pub open spec fn dec_dcc(s: Seq<u8>, pos: int) -> Option<
    ((Seq<((u64, u64), Seq<u8>)>, Seq<(u64, u64)>), int),
> {
    match dec_u64(s, pos) {
        Some(n) => if n > 0xFFFF_FFFF {
            None
        } else {
            match dec_dots(s, pos + 8, n as nat) {
                Some((dots, mid)) => if sorted_by_dot(dots) {
                    match dec_vv(s, mid) {
                        Some((vv, end)) => Some(((dots, vv), end)),
                        None => None,
                    }
                } else {
                    None
                },
                None => None,
            }
        },
        None => None,
    }
}

/// Splitting the last dot off the encoding.
proof fn lemma_enc_dots_snoc(s: Seq<((u64, u64), Vec<u8>)>)
    requires
        s.len() > 0,
    ensures
        enc_dots(s) == enc_dots(s.drop_last()) + enc_u64(s.last().0.0) + enc_u64(s.last().0.1)
            + enc_u64(s.last().1@.len() as u64) + s.last().1@,
    decreases s.len(),
{
    if s.len() == 1 {
        assert(s.drop_last() =~= Seq::<((u64, u64), Vec<u8>)>::empty());
        assert(s.drop_first() =~= Seq::<((u64, u64), Vec<u8>)>::empty());
        assert(enc_dots(s) =~= enc_dots(s.drop_last()) + enc_u64(s.last().0.0) + enc_u64(
            s.last().0.1,
        ) + enc_u64(s.last().1@.len() as u64) + s.last().1@);
    } else {
        lemma_enc_dots_snoc(s.drop_first());
        assert(s.drop_first().drop_last() =~= s.drop_last().drop_first());
        assert(s.drop_first().last() == s.last());
        assert(s.drop_last()[0] == s[0]);
        assert(s.drop_last().len() > 0);
        assert(enc_dots(s.drop_last()) == enc_u64(s[0].0.0) + enc_u64(s[0].0.1) + enc_u64(
            s[0].1@.len() as u64,
        ) + s[0].1@ + enc_dots(s.drop_last().drop_first()));
        assert(enc_dots(s) =~= enc_dots(s.drop_last()) + enc_u64(s.last().0.0) + enc_u64(
            s.last().0.1,
        ) + enc_u64(s.last().1@.len() as u64) + s.last().1@);
    }
}

/// Encodes a container.
pub fn encode_dcc(dcc: &DottedCausalContainer<Vec<u8>>, out: &mut Vec<u8>)
    requires
        dcc.dots_seq().len() <= 0xFFFF_FFFF,
        dcc.context().entries_seq().len() <= 0xFFFF_FFFF,
    ensures
        final(out)@ == old(out)@ + enc_dcc(dcc.dots_seq(), dcc.context().entries_seq()),
{
    let n = dcc.len();
    push_u64(out, n as u64);
    let mut i: usize = 0;
    while i < n
        invariant
            n == dcc.dots_seq().len(),
            i <= n,
            out@ == old(out)@ + enc_u64(n as u64) + enc_dots(dcc.dots_seq().take(i as int)),
        decreases n - i,
    {
        let d = dcc.dot_at(i);
        let val = dcc.value_at(i);
        push_u64(out, d.0);
        push_u64(out, d.1);
        push_u64(out, val.len() as u64);
        let mut j: usize = 0;
        let ghost mid = out@;
        while j < val.len()
            invariant
                j <= val@.len(),
                out@ == mid + val@.take(j as int),
            decreases val@.len() - j,
        {
            out.push(val[j]);
            proof {
                assert(out@ =~= mid + val@.take(j + 1));
            }
            j = j + 1;
        }
        proof {
            assert(val@.take(val@.len() as int) =~= val@);
            lemma_enc_dots_snoc(dcc.dots_seq().take(i + 1));
            assert(dcc.dots_seq().take(i + 1).drop_last() =~= dcc.dots_seq().take(i as int));
            assert(dcc.dots_seq().take(i + 1).last() == dcc.dots_seq()[i as int]);
            assert(out@ =~= old(out)@ + enc_u64(n as u64) + enc_dots(dcc.dots_seq().take(i + 1)));
        }
        i = i + 1;
    }
    proof {
        assert(dcc.dots_seq().take(n as int) =~= dcc.dots_seq());
    }
    encode_vv(dcc.version_vector(), out);
    proof {
        assert(out@ =~= old(out)@ + enc_dcc(dcc.dots_seq(), dcc.context().entries_seq()));
    }
}

/// Reads `len` bytes at `pos`.
fn read_bytes(data: &[u8], pos: usize, len: usize) -> (r: Option<(Vec<u8>, usize)>)
    requires
        pos <= data@.len(),
    ensures
        match r {
            Some((v, end)) => pos + len <= data@.len() && v@ == data@.subrange(
                pos as int,
                pos + len,
            ) && end == pos + len,
            None => pos + len > data@.len(),
        },
{
    if len > data.len() - pos {
        return None;
    }
    let mut out: Vec<u8> = Vec::new();
    let mut j: usize = 0;
    while j < len
        invariant
            pos + len <= data@.len(),
            data@.len() <= usize::MAX,
            j <= len,
            out@ == data@.subrange(pos as int, pos + j),
        decreases len - j,
    {
        out.push(data[pos + j]);
        proof {
            assert(out@ =~= data@.subrange(pos as int, pos + j + 1));
        }
        j = j + 1;
    }
    Some((out, pos + len))
}

/// Appending a dot above all stored dots keeps the container canonical.
proof fn lemma_dots_snoc(
    pre: Dots<Vec<u8>>,
    cur: Dots<Vec<u8>>,
    d: (u64, u64),
    val: Vec<u8>,
)
    requires
        pre.wf(),
        cur.wf(),
        forall|j: int|
            0 <= j < pre.entries_seq().len() ==> dot_lt((#[trigger] pre.entries_seq()[j]).0, d),
        cur.get_dot(d) == Some(val),
        forall|k: (u64, u64)| k != d ==> cur.get_dot(k) == #[trigger] pre.get_dot(k),
    ensures
        cur.entries_seq() == pre.entries_seq() + seq![(d, val)],
{
    crate::assoc::lemma_assoc_get_dot(pre.entries_seq());
    let t = pre.entries_seq() + seq![(d, val)];
    assert forall|x: int, y: int| 0 <= x < y < t.len() implies dot_lt(t[x].0, t[y].0) by {
        if y < t.len() - 1 {
            assert(t[x] == pre.entries_seq()[x] && t[y] == pre.entries_seq()[y]);
        } else {
            assert(t[x] == pre.entries_seq()[x]);
        }
    }
    crate::assoc::lemma_assoc_insert_dot(
        pre.entries_seq(),
        pre.entries_seq().len() as int,
        d,
        val,
    );
    assert(t =~= pre.entries_seq().insert(pre.entries_seq().len() as int, (d, val)));
    assert forall|k: (u64, u64)| #[trigger]
        assoc_get_dot(cur.entries_seq(), k) == assoc_get_dot(t, k) by {
        if k == d {
            assert(cur.get_dot(d) == Some(val));
            assert(assoc_get_dot(t, d) == Some(val));
        } else {
            assert(cur.get_dot(k) == pre.get_dot(k));
            assert(assoc_get_dot(t, k) == assoc_get_dot(pre.entries_seq(), k));
        }
    }
    crate::assoc::lemma_assoc_canonical_dot(cur.entries_seq(), t);
}

/// Decodes a container. Exactly the canonical encodings are accepted.
pub fn decode_dcc(data: &[u8], pos: usize) -> (r: Option<
    (DottedCausalContainer<Vec<u8>>, usize),
>)
    requires
        pos <= data@.len(),
    ensures
        match r {
            Some((dcc, end)) => {
                &&& dcc.wf()
                &&& pos <= end <= data@.len()
                &&& (match dec_dcc(data@, pos as int) {
                    Some(((dots, vv), e)) => {
                        &&& e == end
                        &&& dcc.dots_seq().len() == dots.len()
                        &&& (forall|i: int|
                            0 <= i < dots.len() ==> (#[trigger] dcc.dots_seq()[i]).0 == dots[i].0
                                && dcc.dots_seq()[i].1@ == dots[i].1)
                        &&& dcc.context().entries_seq() == vv
                    },
                    None => false,
                })
            },
            None => dec_dcc(data@, pos as int) is None,
        },
{
    let (n, mut cur) = match read_u64(data, pos) {
        Some(x) => x,
        None => {
            return None;
        },
    };
    if n > 0xFFFF_FFFF {
        return None;
    }
    let count = n as usize;
    let mut dots: Dots<Vec<u8>> = Dots::new();
    let mut i: usize = 0;
    let mut prev: (u64, u64) = (0, 0);
    while i < count
        invariant
            pos <= data@.len(),
            pos + 8 <= cur <= data@.len(),
            dec_u64(data@, pos as int) == Some(count as u64),
            count <= 0xFFFF_FFFF,
            i <= count,
            dots.wf(),
            dots.entries_seq().len() == i,
            i > 0 ==> dots.entries_seq().last().0 == prev,
            forall|j: int|
                0 <= j < i ==> ((#[trigger] dots.entries_seq()[j]).0 == prev || dot_lt(
                    dots.entries_seq()[j].0,
                    prev,
                )),
            dec_dots(data@, pos + 8, count as nat) == (match dec_dots(
                data@,
                cur as int,
                (count - i) as nat,
            ) {
                Some((rest, end)) => Some(
                    (
                        dots.entries_seq().map_values(|e: ((u64, u64), Vec<u8>)| (e.0, e.1@))
                            + rest,
                        end,
                    ),
                ),
                None => None,
            }),
        decreases count - i,
    {
        let (id, c1) = match read_u64(data, cur) {
            Some(x) => x,
            None => {
                return None;
            },
        };
        let (ver, c2) = match read_u64(data, c1) {
            Some(x) => x,
            None => {
                return None;
            },
        };
        let (vlen, c3) = match read_u64(data, c2) {
            Some(x) => x,
            None => {
                return None;
            },
        };
        if vlen > (data.len() - c3) as u64 {
            proof {
                assert(cur + 24 + vlen > data@.len());
            }
            return None;
        }
        let (val, c4) = match read_bytes(data, c3, vlen as usize) {
            Some(x) => x,
            None => {
                proof {
                    assert(false);
                }
                return None;
            },
        };
        let dk = (id, ver);
        if i > 0 && !dot_before(prev, dk) {
            proof {
                let rec = dec_dots(data@, cur as int, (count - i) as nat);
                if rec is Some {
                    let pr = rec->Some_0.0;
                    assert(pr[0] == ((id, ver), data@.subrange(cur + 24, cur + 24 + vlen)));
                    let whole = dec_dots(data@, pos + 8, count as nat)->Some_0.0;
                    let mapped = dots.entries_seq().map_values(
                        |e: ((u64, u64), Vec<u8>)| (e.0, e.1@),
                    );
                    assert(whole == mapped + pr);
                    assert(mapped[i - 1].0 == prev);
                    assert(whole[i - 1].0 == prev && whole[i as int].0 == dk);
                    if sorted_by_dot(whole) {
                        assert(dot_lt(whole[i - 1].0, whole[i as int].0));
                        assert(false);
                    }
                }
            }
            return None;
        }
        let ghost pre = dots;
        let ghost valg = val;
        dots.add(dk, val);
        proof {
            assert forall|j: int|
                0 <= j < pre.entries_seq().len() implies dot_lt(
                (#[trigger] pre.entries_seq()[j]).0,
                dk,
            ) by {
                if i > 0 {
                    if j < pre.entries_seq().len() - 1 {
                        assert(dot_lt(pre.entries_seq()[j].0, prev) || pre.entries_seq()[j].0
                            == prev);
                    }
                    assert(dot_lt(prev, dk));
                }
            }
            crate::assoc::lemma_assoc_get_dot(pre.entries_seq());
            if pre.get_dot(dk) is Some {
                let j = choose|j: int|
                    0 <= j < pre.entries_seq().len() && pre.entries_seq()[j].0 == dk;
                assert(false);
            }
            lemma_dots_snoc(pre, dots, dk, valg);
        }
        prev = dk;
        let ghost oldcur = cur as int;
        cur = c4;
        i = i + 1;
        proof {
            assert(dec_dots(data@, oldcur, (count - i + 1) as nat) == (match dec_dots(
                data@,
                cur as int,
                (count - i) as nat,
            ) {
                Some((rest, end)) => Some(
                    (seq![(dk, data@.subrange(oldcur + 24, oldcur + 24 + vlen))] + rest, end),
                ),
                None => None,
            }));
            assert(valg@ == data@.subrange(oldcur + 24, oldcur + 24 + vlen));
            if dec_dots(data@, cur as int, (count - i) as nat) is Some {
                let rest = dec_dots(data@, cur as int, (count - i) as nat)->Some_0.0;
                let mapped_pre = pre.entries_seq().map_values(
                    |e: ((u64, u64), Vec<u8>)| (e.0, e.1@),
                );
                let mapped = dots.entries_seq().map_values(
                    |e: ((u64, u64), Vec<u8>)| (e.0, e.1@),
                );
                assert(mapped =~= mapped_pre + seq![(dk, valg@)]);
                assert(mapped + rest =~= mapped_pre + (seq![
                    (dk, data@.subrange(oldcur + 24, oldcur + 24 + vlen)),
                ] + rest));
            }
        }
    }
    proof {
        assert(dec_dots(data@, cur as int, 0) == Some(
            (Seq::<((u64, u64), Seq<u8>)>::empty(), cur as int),
        ));
        let mapped = dots.entries_seq().map_values(|e: ((u64, u64), Vec<u8>)| (e.0, e.1@));
        assert(mapped + Seq::<((u64, u64), Seq<u8>)>::empty() =~= mapped);
        assert(dec_dots(data@, pos + 8, count as nat) == Some((mapped, cur as int)));
        assert forall|x: int, y: int|
            0 <= x < y < mapped.len() implies dot_lt(mapped[x].0, mapped[y].0) by {
            assert(dot_lt(dots.entries_seq()[x].0, dots.entries_seq()[y].0));
        }
    }
    let (vv, end) = match decode_vv(data, cur) {
        Some(x) => x,
        None => {
            return None;
        },
    };
    let dcc = DottedCausalContainer::from_parts(dots, vv);
    proof {
        let mapped = dcc.dots_seq().map_values(|e: ((u64, u64), Vec<u8>)| (e.0, e.1@));
        assert forall|i2: int|
            0 <= i2 < mapped.len() implies (#[trigger] dcc.dots_seq()[i2]).0 == mapped[i2].0
            && dcc.dots_seq()[i2].1@ == mapped[i2].1 by {}
    }
    Some((dcc, end))
}

/// Reading back an encoded container returns its dots, values and context.
pub proof fn lemma_dcc_round_trip(
    dots: Seq<((u64, u64), Vec<u8>)>,
    vv: Seq<(u64, u64)>,
    data: Seq<u8>,
    pos: int,
)
    requires
        0 <= pos,
        sorted_by_dot(dots),
        dots.len() <= 0xFFFF_FFFF,
        forall|i: int| 0 <= i < dots.len() ==> (#[trigger] dots[i]).1@.len() <= u64::MAX,
        sorted_by_id(vv),
        vv.len() <= 0xFFFF_FFFF,
        pos + enc_dcc(dots, vv).len() <= data.len(),
        data.subrange(pos, pos + enc_dcc(dots, vv).len() as int) == enc_dcc(dots, vv),
    ensures
        match dec_dcc(data, pos) {
            Some(((d, v), end)) => {
                &&& d == dots.map_values(|e: ((u64, u64), Vec<u8>)| (e.0, e.1@))
                &&& v == vv
                &&& end == pos + enc_dcc(dots, vv).len()
            },
            None => false,
        },
{
    let e = enc_dcc(dots, vv);
    assert forall|i: int| 0 <= i < 8 implies data[pos + i] == #[trigger] u64_byte(
        dots.len() as u64,
        i,
    ) by {
        assert(data[pos + i] == e[i]);
        assert(e[i] == enc_u64(dots.len() as u64)[i]);
    }
    lemma_u64_round_trip(dots.len() as u64, data, pos);
    assert(data.subrange(pos + 8, pos + 8 + enc_dots(dots).len() as int) =~= enc_dots(dots)) by {
        assert forall|i: int|
            0 <= i < enc_dots(dots).len() implies data[pos + 8 + i] == enc_dots(dots)[i] by {
            assert(data[pos + 8 + i] == e[8 + i]);
        }
    }
    lemma_dots_round_trip(dots, data, pos + 8);
    let mid = pos + 8 + enc_dots(dots).len() as int;
    assert(data.subrange(mid, mid + enc_vv(vv).len() as int) =~= enc_vv(vv)) by {
        assert forall|i: int|
            0 <= i < enc_vv(vv).len() implies data[mid + i] == enc_vv(vv)[i] by {
            assert(data[mid + i] == e[8 + enc_dots(dots).len() + i]);
        }
    }
    lemma_vv_round_trip(vv, data, mid);
    let mapped = dots.map_values(|e: ((u64, u64), Vec<u8>)| (e.0, e.1@));
    assert forall|x: int, y: int|
        0 <= x < y < mapped.len() implies dot_lt(mapped[x].0, mapped[y].0) by {
        assert(dot_lt(dots[x].0, dots[y].0));
    }
}

/// Reading back encoded dots returns them with their values.
proof fn lemma_dots_round_trip(dots: Seq<((u64, u64), Vec<u8>)>, data: Seq<u8>, pos: int)
    requires
        0 <= pos,
        forall|i: int| 0 <= i < dots.len() ==> (#[trigger] dots[i]).1@.len() <= u64::MAX,
        pos + enc_dots(dots).len() <= data.len(),
        data.subrange(pos, pos + enc_dots(dots).len() as int) == enc_dots(dots),
    ensures
        dec_dots(data, pos, dots.len()) == Some(
            (
                dots.map_values(|e: ((u64, u64), Vec<u8>)| (e.0, e.1@)),
                pos + enc_dots(dots).len(),
            ),
        ),
    decreases dots.len(),
{
    let mapped = dots.map_values(|e: ((u64, u64), Vec<u8>)| (e.0, e.1@));
    if dots.len() == 0 {
        assert(mapped =~= Seq::<((u64, u64), Seq<u8>)>::empty());
    } else {
        let e = enc_dots(dots);
        let hd = dots[0];
        let l = hd.1@.len() as int;
        assert(e == enc_u64(hd.0.0) + enc_u64(hd.0.1) + enc_u64(hd.1@.len() as u64) + hd.1@
            + enc_dots(dots.drop_first()));
        assert forall|i: int| 0 <= i < 8 implies data[pos + i] == #[trigger] u64_byte(
            hd.0.0,
            i,
        ) by {
            assert(data[pos + i] == e[i]);
            assert(e[i] == enc_u64(hd.0.0)[i]);
        }
        lemma_u64_round_trip(hd.0.0, data, pos);
        assert forall|i: int| 0 <= i < 8 implies data[pos + 8 + i] == #[trigger] u64_byte(
            hd.0.1,
            i,
        ) by {
            assert(data[pos + 8 + i] == e[8 + i]);
            assert(e[8 + i] == enc_u64(hd.0.1)[i]);
        }
        lemma_u64_round_trip(hd.0.1, data, pos + 8);
        assert forall|i: int| 0 <= i < 8 implies data[pos + 16 + i] == #[trigger] u64_byte(
            hd.1@.len() as u64,
            i,
        ) by {
            assert(data[pos + 16 + i] == e[16 + i]);
            assert(e[16 + i] == enc_u64(hd.1@.len() as u64)[i]);
        }
        lemma_u64_round_trip(hd.1@.len() as u64, data, pos + 16);
        assert(data.subrange(pos + 24, pos + 24 + l) =~= hd.1@) by {
            assert forall|i: int| 0 <= i < l implies data[pos + 24 + i] == hd.1@[i] by {
                assert(data[pos + 24 + i] == e[24 + i]);
            }
        }
        assert(data.subrange(
            pos + 24 + l,
            pos + 24 + l + enc_dots(dots.drop_first()).len() as int,
        ) =~= enc_dots(dots.drop_first())) by {
            assert forall|i: int|
                0 <= i < enc_dots(dots.drop_first()).len() implies data[pos + 24 + l + i]
                == enc_dots(dots.drop_first())[i] by {
                assert(data[pos + 24 + l + i] == e[24 + l + i]);
            }
        }
        assert forall|i: int|
            0 <= i < dots.drop_first().len() implies (#[trigger] dots.drop_first()[i]).1@.len()
            <= u64::MAX by {
            assert(dots.drop_first()[i] == dots[i + 1]);
        }
        lemma_dots_round_trip(dots.drop_first(), data, pos + 24 + l);
        assert(seq![(hd.0, hd.1@)] + dots.drop_first().map_values(
            |e2: ((u64, u64), Vec<u8>)| (e2.0, e2.1@),
        ) =~= mapped);
        assert(dec_dots(data, pos, dots.len()) == Some((mapped, pos + enc_dots(dots).len())));
    }
}

/// The encoding of one actor's observed set: dense base, bit count, then
/// one byte per bit.
pub open spec fn enc_bv(base: u64, bits: Seq<bool>) -> Seq<u8> {
    enc_u64(base) + enc_u64(bits.len() as u64) + bits.map_values(
        |b: bool|
            if b {
                1u8
            } else {
                0u8
            },
    )
}

/// Reads back a base and a trimmed bit string from `pos`. Only canonical
/// encodings are accepted: bit bytes are 0 or 1, the last bit is set, and
/// every named event number fits a version.
pub open spec fn dec_bv(s: Seq<u8>, pos: int) -> Option<((u64, Seq<bool>), int)> {
    match (dec_u64(s, pos), dec_u64(s, pos + 8)) {
        (Some(base), Some(n)) => if n <= 0xFFFF_FFFF && pos + 16 + n <= s.len() && base + n
            <= u64::MAX {
            let raw = s.subrange(pos + 16, pos + 16 + n);
            if (forall|i: int| 0 <= i < raw.len() ==> (raw[i] == 0u8 || raw[i] == 1u8)) && (
            raw.len() > 0 ==> raw.last() == 1u8) {
                Some(((base, raw.map_values(|b: u8| b == 1u8)), pos + 16 + n))
            } else {
                None
            }
        } else {
            None
        },
        _ => None,
    }
}

/// Reading back an encoded observed set returns it.
pub proof fn lemma_bv_round_trip(base: u64, bits: Seq<bool>, data: Seq<u8>, pos: int)
    requires
        0 <= pos,
        bits.len() <= 0xFFFF_FFFF,
        base + bits.len() <= u64::MAX,
        bits.len() > 0 ==> bits.last(),
        pos + enc_bv(base, bits).len() <= data.len(),
        data.subrange(pos, pos + enc_bv(base, bits).len() as int) == enc_bv(base, bits),
    ensures
        enc_bv(base, bits).len() == 16 + bits.len(),
        dec_bv(data, pos) == Some(((base, bits), pos + 16 + bits.len())),
{
    let e = enc_bv(base, bits);
    assert forall|i: int| 0 <= i < 8 implies data[pos + i] == #[trigger] u64_byte(base, i) by {
        assert(data[pos + i] == e[i]);
        assert(e[i] == enc_u64(base)[i]);
    }
    lemma_u64_round_trip(base, data, pos);
    assert forall|i: int| 0 <= i < 8 implies data[pos + 8 + i] == #[trigger] u64_byte(
        bits.len() as u64,
        i,
    ) by {
        assert(data[pos + 8 + i] == e[8 + i]);
        assert(e[8 + i] == enc_u64(bits.len() as u64)[i]);
    }
    lemma_u64_round_trip(bits.len() as u64, data, pos + 8);
    let raw = data.subrange(pos + 16, pos + 16 + bits.len() as int);
    assert forall|i: int| 0 <= i < raw.len() implies raw[i] == (if bits[i] {
        1u8
    } else {
        0u8
    }) by {
        assert(raw[i] == data[pos + 16 + i]);
        assert(data[pos + 16 + i] == e[16 + i]);
    }
    assert(raw.len() > 0 ==> raw.last() == 1u8);
    assert(raw.map_values(|b: u8| b == 1u8) =~= bits);
}

/// Encodes one actor's observed set.
pub fn encode_bv(bv: &BitmappedVersion, out: &mut Vec<u8>)
    requires
        bv.wf(),
        bv.bits().len() <= 0xFFFF_FFFF,
    ensures
        final(out)@ == old(out)@ + enc_bv(bv.base_val(), bv.bits()),
{
    push_u64(out, bv.base());
    push_u64(out, bv.bits_len() as u64);
    let ghost mid = out@;
    let n = bv.bits_len();
    let mut i: usize = 0;
    while i < n
        invariant
            n == bv.bits().len(),
            i <= n,
            out@ == mid + bv.bits().take(i as int).map_values(
                |b: bool|
                    if b {
                        1u8
                    } else {
                        0u8
                    },
            ),
        decreases n - i,
    {
        let b: u8 = if bv.bit_at(i) {
            1
        } else {
            0
        };
        out.push(b);
        proof {
            assert(out@ =~= mid + bv.bits().take(i + 1).map_values(
                |b2: bool|
                    if b2 {
                        1u8
                    } else {
                        0u8
                    },
            ));
        }
        i = i + 1;
    }
    proof {
        assert(bv.bits().take(n as int) =~= bv.bits());
        assert(out@ =~= old(out)@ + enc_bv(bv.base_val(), bv.bits()));
    }
}

/// Decodes one actor's observed set. Exactly the canonical encodings are
/// accepted.
pub fn decode_bv(data: &[u8], pos: usize) -> (r: Option<(BitmappedVersion, usize)>)
    requires
        pos <= data@.len(),
    ensures
        match r {
            Some((bv, end)) => {
                &&& bv.wf()
                &&& pos <= end <= data@.len()
                &&& dec_bv(data@, pos as int) == Some(((bv.base_val(), bv.bits()), end as int))
            },
            None => dec_bv(data@, pos as int) is None,
        },
{
    let (base, c1) = match read_u64(data, pos) {
        Some(x) => x,
        None => {
            return None;
        },
    };
    let (n, c2) = match read_u64(data, c1) {
        Some(x) => x,
        None => {
            return None;
        },
    };
    if n > 0xFFFF_FFFF || (n as usize) > data.len() - c2 || base > u64::MAX - n {
        return None;
    }
    let count = n as usize;
    let mut bits: Vec<bool> = Vec::new();
    let mut i: usize = 0;
    let ghost raw = data@.subrange(c2 as int, c2 + n);
    while i < count
        invariant
            c2 + count <= data@.len(),
            data@.len() <= usize::MAX,
            dec_u64(data@, pos as int) == Some(base),
            dec_u64(data@, pos + 8) == Some(count as u64),
            count <= 0xFFFF_FFFF,
            base + count <= u64::MAX,
            c2 == pos + 16,
            i <= count,
            raw == data@.subrange(c2 as int, c2 + count),
            bits@.len() == i,
            forall|j: int| 0 <= j < i ==> (raw[j] == 0u8 || raw[j] == 1u8),
            forall|j: int| 0 <= j < i ==> bits@[j] == (raw[j] == 1u8),
        decreases count - i,
    {
        let b = data[c2 + i];
        if b > 1 {
            proof {
                assert(raw[i as int] == b);
                assert(!(raw[i as int] == 0u8 || raw[i as int] == 1u8));
            }
            return None;
        }
        bits.push(b == 1);
        proof {
            assert(raw[i as int] == b);
        }
        i = i + 1;
    }
    if count > 0 && !bits[count - 1] {
        proof {
            assert(raw.last() == data@[c2 + count - 1]);
            assert((raw.last() == 1u8) == bits@[count - 1]);
        }
        return None;
    }
    proof {
        assert(bits@ =~= raw.map_values(|b: u8| b == 1u8));
        assert(bits@.len() > 0 ==> bits@[bits@.len() - 1]);
        if raw.len() > 0 {
            assert((raw.last() == 1u8) == bits@[count - 1]);
        }
    }
    let bm = crate::bitmap::Bitmap::from_bools(bits);
    let bv = BitmappedVersion::from_parts(base, bm);
    Some((bv, c2 + count))
}

/// The encoding of the entries of a node clock.
pub open spec fn enc_bvv_entries(s: Seq<(u64, BitmappedVersion)>) -> Seq<u8>
    decreases s.len(),
{
    if s.len() == 0 {
        Seq::empty()
    } else {
        enc_u64(s[0].0) + enc_bv(s[0].1.base_val(), s[0].1.bits()) + enc_bvv_entries(
            s.drop_first(),
        )
    }
}

/// The encoding of a node clock: actor count, then per actor its id and
/// observed set, in increasing actor order.
pub open spec fn enc_bvv(s: Seq<(u64, BitmappedVersion)>) -> Seq<u8> {
    enc_u64(s.len() as u64) + enc_bvv_entries(s)
}

/// Reads back `n` clock entries from `pos`.
pub open spec fn dec_bvv_entries(s: Seq<u8>, pos: int, n: nat) -> Option<
    (Seq<(u64, (u64, Seq<bool>))>, int),
>
    decreases n,
{
    if n == 0 {
        Some((Seq::empty(), pos))
    } else {
        match dec_u64(s, pos) {
            Some(id) => match dec_bv(s, pos + 8) {
                Some(((base, bits), mid)) => match dec_bvv_entries(s, mid, (n - 1) as nat) {
                    Some((rest, end)) => Some((seq![(id, (base, bits))] + rest, end)),
                    None => None,
                },
                None => None,
            },
            None => None,
        }
    }
}

/// Reads back a node clock from `pos`.
pub open spec fn dec_bvv(s: Seq<u8>, pos: int) -> Option<(Seq<(u64, (u64, Seq<bool>))>, int)> {
    match dec_u64(s, pos) {
        Some(n) => if n > 0xFFFF_FFFF {
            None
        } else {
            match dec_bvv_entries(s, pos + 8, n as nat) {
                Some((entries, end)) => if forall|i: int, j: int|
                    0 <= i < j < entries.len() ==> entries[i].0 < entries[j].0 {
                    Some((entries, end))
                } else {
                    None
                },
                None => None,
            }
        },
        None => None,
    }
}

/// Splitting the last entry off the encoding.
proof fn lemma_enc_bvv_entries_snoc(s: Seq<(u64, BitmappedVersion)>)
    requires
        s.len() > 0,
    ensures
        enc_bvv_entries(s) == enc_bvv_entries(s.drop_last()) + enc_u64(s.last().0) + enc_bv(
            s.last().1.base_val(),
            s.last().1.bits(),
        ),
    decreases s.len(),
{
    if s.len() == 1 {
        assert(s.drop_last() =~= Seq::<(u64, BitmappedVersion)>::empty());
        assert(s.drop_first() =~= Seq::<(u64, BitmappedVersion)>::empty());
        assert(enc_bvv_entries(s) =~= enc_bvv_entries(s.drop_last()) + enc_u64(s.last().0)
            + enc_bv(s.last().1.base_val(), s.last().1.bits()));
    } else {
        lemma_enc_bvv_entries_snoc(s.drop_first());
        assert(s.drop_first().drop_last() =~= s.drop_last().drop_first());
        assert(s.drop_first().last() == s.last());
        assert(s.drop_last()[0] == s[0]);
        assert(s.drop_last().len() > 0);
        assert(enc_bvv_entries(s.drop_last()) == enc_u64(s[0].0) + enc_bv(
            s[0].1.base_val(),
            s[0].1.bits(),
        ) + enc_bvv_entries(s.drop_last().drop_first()));
        assert(enc_bvv_entries(s) =~= enc_bvv_entries(s.drop_last()) + enc_u64(s.last().0)
            + enc_bv(s.last().1.base_val(), s.last().1.bits()));
    }
}

/// Encodes a node clock.
pub fn encode_bvv(bvv: &BitmappedVersionVector, out: &mut Vec<u8>)
    requires
        bvv.wf(),
        bvv.entries_seq().len() <= 0xFFFF_FFFF,
        forall|i: int|
            0 <= i < bvv.entries_seq().len() ==> (#[trigger] bvv.entries_seq()[i]).1.bits().len()
                <= 0xFFFF_FFFF,
    ensures
        final(out)@ == old(out)@ + enc_bvv(bvv.entries_seq()),
{
    let n = bvv.len();
    push_u64(out, n as u64);
    let mut i: usize = 0;
    while i < n
        invariant
            bvv.wf(),
            forall|i2: int|
                0 <= i2 < bvv.entries_seq().len() ==> (
                #[trigger] bvv.entries_seq()[i2]).1.bits().len() <= 0xFFFF_FFFF,
            n == bvv.entries_seq().len(),
            i <= n,
            out@ == old(out)@ + enc_u64(n as u64) + enc_bvv_entries(bvv.entries_seq().take(
                i as int,
            )),
        decreases n - i,
    {
        let id = bvv.key_at(i);
        push_u64(out, id);
        encode_bv(bvv.bv_at(i), out);
        proof {
            lemma_enc_bvv_entries_snoc(bvv.entries_seq().take(i + 1));
            assert(bvv.entries_seq().take(i + 1).drop_last() =~= bvv.entries_seq().take(i as int));
            assert(bvv.entries_seq().take(i + 1).last() == bvv.entries_seq()[i as int]);
            assert(out@ =~= old(out)@ + enc_u64(n as u64) + enc_bvv_entries(
                bvv.entries_seq().take(i + 1),
            ));
        }
        i = i + 1;
    }
    proof {
        assert(bvv.entries_seq().take(n as int) =~= bvv.entries_seq());
        assert(out@ =~= old(out)@ + enc_bvv(bvv.entries_seq()));
    }
}

/// Appending an actor above all stored actors keeps the clock canonical.
proof fn lemma_bvv_snoc(
    pre: BitmappedVersionVector,
    cur: BitmappedVersionVector,
    id: u64,
    bv: BitmappedVersion,
)
    requires
        pre.wf(),
        cur.wf(),
        forall|j: int| 0 <= j < pre.entries_seq().len() ==> (#[trigger] pre.entries_seq()[j]).0
            < id,
        cur.get_bv(id) == Some(bv),
        forall|k: Id| k != id ==> cur.get_bv(k) == #[trigger] pre.get_bv(k),
    ensures
        cur.entries_seq() == pre.entries_seq() + seq![(id, bv)],
{
    crate::assoc::lemma_assoc_get(pre.entries_seq());
    let t = pre.entries_seq() + seq![(id, bv)];
    assert forall|x: int, y: int| 0 <= x < y < t.len() implies t[x].0 < t[y].0 by {
        if y < t.len() - 1 {
            assert(t[x] == pre.entries_seq()[x] && t[y] == pre.entries_seq()[y]);
        } else {
            assert(t[x] == pre.entries_seq()[x]);
        }
    }
    crate::assoc::lemma_assoc_insert(pre.entries_seq(), pre.entries_seq().len() as int, id, bv);
    assert(t =~= pre.entries_seq().insert(pre.entries_seq().len() as int, (id, bv)));
    assert forall|k: u64| #[trigger]
        crate::assoc::assoc_get(cur.entries_seq(), k) == crate::assoc::assoc_get(t, k) by {
        if k == id {
            assert(cur.get_bv(id) == Some(bv));
            assert(crate::assoc::assoc_get(t, id) == Some(bv));
        } else {
            assert(cur.get_bv(k) == pre.get_bv(k));
            assert(crate::assoc::assoc_get(t, k) == crate::assoc::assoc_get(
                pre.entries_seq(),
                k,
            ));
        }
    }
    crate::assoc::lemma_assoc_canonical(cur.entries_seq(), t);
}

/// Decodes a node clock. Exactly the canonical encodings are accepted.
pub fn decode_bvv(data: &[u8], pos: usize) -> (r: Option<(BitmappedVersionVector, usize)>)
    requires
        pos <= data@.len(),
    ensures
        match r {
            Some((bvv, end)) => {
                &&& bvv.wf()
                &&& pos <= end <= data@.len()
                &&& (match dec_bvv(data@, pos as int) {
                    Some((entries, e)) => {
                        &&& e == end
                        &&& bvv.entries_seq().len() == entries.len()
                        &&& (forall|i: int|
                            0 <= i < entries.len() ==> (#[trigger] bvv.entries_seq()[i]).0
                                == entries[i].0 && bvv.entries_seq()[i].1.base_val()
                                == entries[i].1.0 && bvv.entries_seq()[i].1.bits()
                                == entries[i].1.1)
                    },
                    None => false,
                })
            },
            None => dec_bvv(data@, pos as int) is None,
        },
{
    let (n, mut cur) = match read_u64(data, pos) {
        Some(x) => x,
        None => {
            return None;
        },
    };
    if n > 0xFFFF_FFFF {
        return None;
    }
    let count = n as usize;
    let mut bvv = BitmappedVersionVector::new();
    let mut i: usize = 0;
    let mut prev: u64 = 0;
    while i < count
        invariant
            pos <= data@.len(),
            pos + 8 <= cur <= data@.len(),
            dec_u64(data@, pos as int) == Some(count as u64),
            count <= 0xFFFF_FFFF,
            i <= count,
            bvv.wf(),
            bvv.entries_seq().len() == i,
            i > 0 ==> bvv.entries_seq().last().0 == prev,
            forall|j: int| 0 <= j < i ==> (#[trigger] bvv.entries_seq()[j]).0 <= prev,
            dec_bvv_entries(data@, pos + 8, count as nat) == (match dec_bvv_entries(
                data@,
                cur as int,
                (count - i) as nat,
            ) {
                Some((rest, end)) => Some(
                    (
                        bvv.entries_seq().map_values(
                            |e: (u64, BitmappedVersion)| (e.0, (e.1.base_val(), e.1.bits())),
                        ) + rest,
                        end,
                    ),
                ),
                None => None,
            }),
        decreases count - i,
    {
        let (id, c1) = match read_u64(data, cur) {
            Some(x) => x,
            None => {
                return None;
            },
        };
        let (bv, c2) = match decode_bv(data, c1) {
            Some(x) => x,
            None => {
                return None;
            },
        };
        if i > 0 && id <= prev {
            proof {
                let rec = dec_bvv_entries(data@, cur as int, (count - i) as nat);
                if rec is Some {
                    let pr = rec->Some_0.0;
                    assert(pr[0].0 == id);
                    let whole = dec_bvv_entries(data@, pos + 8, count as nat)->Some_0.0;
                    let mapped = bvv.entries_seq().map_values(
                        |e: (u64, BitmappedVersion)| (e.0, (e.1.base_val(), e.1.bits())),
                    );
                    assert(whole == mapped + pr);
                    assert(mapped[i - 1].0 == prev);
                    assert(whole[i - 1].0 == prev && whole[i as int].0 == id);
                    if forall|x: int, y: int|
                        0 <= x < y < whole.len() ==> whole[x].0 < whole[y].0 {
                        assert(whole[i - 1].0 < whole[i as int].0);
                        assert(false);
                    }
                }
            }
            return None;
        }
        let ghost pre = bvv;
        let ghost bvg = bv;
        bvv.set_entry(id, bv);
        proof {
            crate::assoc::lemma_assoc_get(pre.entries_seq());
            if pre.get_bv(id) is Some {
                let j = choose|j: int|
                    0 <= j < pre.entries_seq().len() && pre.entries_seq()[j].0 == id;
                assert(false);
            }
            assert forall|j: int|
                0 <= j < pre.entries_seq().len() implies (#[trigger] pre.entries_seq()[j]).0
                < id by {
                if i > 0 {
                    assert(pre.entries_seq()[j].0 <= prev);
                }
            }
            lemma_bvv_snoc(pre, bvv, id, bvg);
        }
        prev = id;
        let ghost oldcur = cur as int;
        cur = c2;
        i = i + 1;
        proof {
            assert(dec_bvv_entries(data@, oldcur, (count - i + 1) as nat) == (
            match dec_bvv_entries(data@, cur as int, (count - i) as nat) {
                Some((rest, end)) => Some(
                    (seq![(id, (bvg.base_val(), bvg.bits()))] + rest, end),
                ),
                None => None,
            }));
            if dec_bvv_entries(data@, cur as int, (count - i) as nat) is Some {
                let rest = dec_bvv_entries(data@, cur as int, (count - i) as nat)->Some_0.0;
                let mapped_pre = pre.entries_seq().map_values(
                    |e: (u64, BitmappedVersion)| (e.0, (e.1.base_val(), e.1.bits())),
                );
                let mapped = bvv.entries_seq().map_values(
                    |e: (u64, BitmappedVersion)| (e.0, (e.1.base_val(), e.1.bits())),
                );
                assert(mapped =~= mapped_pre + seq![(id, (bvg.base_val(), bvg.bits()))]);
                assert(mapped + rest =~= mapped_pre + (seq![(id, (bvg.base_val(), bvg.bits()))]
                    + rest));
            }
        }
    }
    proof {
        assert(dec_bvv_entries(data@, cur as int, 0) == Some(
            (Seq::<(u64, (u64, Seq<bool>))>::empty(), cur as int),
        ));
        let mapped = bvv.entries_seq().map_values(
            |e: (u64, BitmappedVersion)| (e.0, (e.1.base_val(), e.1.bits())),
        );
        assert(mapped + Seq::<(u64, (u64, Seq<bool>))>::empty() =~= mapped);
        assert(dec_bvv_entries(data@, pos + 8, count as nat) == Some((mapped, cur as int)));
        assert forall|x: int, y: int|
            0 <= x < y < mapped.len() implies mapped[x].0 < mapped[y].0 by {
            assert(bvv.entries_seq()[x].0 < bvv.entries_seq()[y].0);
        }
        assert forall|i2: int|
            0 <= i2 < mapped.len() implies (#[trigger] bvv.entries_seq()[i2]).0 == mapped[i2].0
            && bvv.entries_seq()[i2].1.base_val() == mapped[i2].1.0
            && bvv.entries_seq()[i2].1.bits() == mapped[i2].1.1 by {}
    }
    Some((bvv, cur))
}

/// Reading back an encoded node clock returns its actors, bases and bits.
pub proof fn lemma_bvv_round_trip(s: Seq<(u64, BitmappedVersion)>, data: Seq<u8>, pos: int)
    requires
        0 <= pos,
        forall|i: int, j: int| 0 <= i < j < s.len() ==> s[i].0 < s[j].0,
        forall|i: int| 0 <= i < s.len() ==> (#[trigger] s[i]).1.wf(),
        forall|i: int| 0 <= i < s.len() ==> (#[trigger] s[i]).1.bits().len() <= 0xFFFF_FFFF,
        s.len() <= 0xFFFF_FFFF,
        pos + enc_bvv(s).len() <= data.len(),
        data.subrange(pos, pos + enc_bvv(s).len() as int) == enc_bvv(s),
    ensures
        match dec_bvv(data, pos) {
            Some((entries, end)) => {
                &&& entries == s.map_values(
                    |e: (u64, BitmappedVersion)| (e.0, (e.1.base_val(), e.1.bits())),
                )
                &&& end == pos + enc_bvv(s).len()
            },
            None => false,
        },
{
    let e = enc_bvv(s);
    assert forall|i: int| 0 <= i < 8 implies data[pos + i] == #[trigger] u64_byte(
        s.len() as u64,
        i,
    ) by {
        assert(data[pos + i] == e[i]);
        assert(e[i] == enc_u64(s.len() as u64)[i]);
    }
    lemma_u64_round_trip(s.len() as u64, data, pos);
    assert(data.subrange(pos + 8, pos + 8 + enc_bvv_entries(s).len() as int) =~= enc_bvv_entries(
        s,
    )) by {
        assert forall|i: int|
            0 <= i < enc_bvv_entries(s).len() implies data[pos + 8 + i] == enc_bvv_entries(
            s,
        )[i] by {
            assert(data[pos + 8 + i] == e[8 + i]);
        }
    }
    lemma_bvv_entries_round_trip(s, data, pos + 8);
    let mapped = s.map_values(|e2: (u64, BitmappedVersion)| (e2.0, (e2.1.base_val(), e2.1.bits())));
    assert forall|x: int, y: int|
        0 <= x < y < mapped.len() implies mapped[x].0 < mapped[y].0 by {
        assert(s[x].0 < s[y].0);
    }
}

/// Reading back encoded clock entries returns them.
proof fn lemma_bvv_entries_round_trip(s: Seq<(u64, BitmappedVersion)>, data: Seq<u8>, pos: int)
    requires
        0 <= pos,
        forall|i: int| 0 <= i < s.len() ==> (#[trigger] s[i]).1.wf(),
        forall|i: int| 0 <= i < s.len() ==> (#[trigger] s[i]).1.bits().len() <= 0xFFFF_FFFF,
        pos + enc_bvv_entries(s).len() <= data.len(),
        data.subrange(pos, pos + enc_bvv_entries(s).len() as int) == enc_bvv_entries(s),
    ensures
        dec_bvv_entries(data, pos, s.len()) == Some(
            (
                s.map_values(|e: (u64, BitmappedVersion)| (e.0, (e.1.base_val(), e.1.bits()))),
                pos + enc_bvv_entries(s).len(),
            ),
        ),
    decreases s.len(),
{
    let mapped = s.map_values(|e: (u64, BitmappedVersion)| (e.0, (e.1.base_val(), e.1.bits())));
    if s.len() == 0 {
        assert(mapped =~= Seq::<(u64, (u64, Seq<bool>))>::empty());
    } else {
        let e = enc_bvv_entries(s);
        let hd = s[0];
        let hb = enc_bv(hd.1.base_val(), hd.1.bits());
        assert(e == enc_u64(hd.0) + hb + enc_bvv_entries(s.drop_first()));
        assert forall|i: int| 0 <= i < 8 implies data[pos + i] == #[trigger] u64_byte(
            hd.0,
            i,
        ) by {
            assert(data[pos + i] == e[i]);
            assert(e[i] == enc_u64(hd.0)[i]);
        }
        lemma_u64_round_trip(hd.0, data, pos);
        assert(data.subrange(pos + 8, pos + 8 + hb.len() as int) =~= hb) by {
            assert forall|i: int| 0 <= i < hb.len() implies data[pos + 8 + i] == hb[i] by {
                assert(data[pos + 8 + i] == e[8 + i]);
            }
        }
        assert(hd.1.base_val() + hd.1.bits().len() <= u64::MAX) by {
            assert(s[0].1.wf());
        }
        lemma_bv_round_trip(hd.1.base_val(), hd.1.bits(), data, pos + 8);
        let l = hb.len() as int;
        assert(data.subrange(pos + 8 + l, pos + 8 + l + enc_bvv_entries(
            s.drop_first(),
        ).len() as int) =~= enc_bvv_entries(s.drop_first())) by {
            assert forall|i: int|
                0 <= i < enc_bvv_entries(s.drop_first()).len() implies data[pos + 8 + l + i]
                == enc_bvv_entries(s.drop_first())[i] by {
                assert(data[pos + 8 + l + i] == e[8 + l + i]);
            }
        }
        assert forall|i: int|
            0 <= i < s.drop_first().len() implies (#[trigger] s.drop_first()[i]).1.wf()
            && s.drop_first()[i].1.bits().len() <= 0xFFFF_FFFF by {
            assert(s.drop_first()[i] == s[i + 1]);
        }
        lemma_bvv_entries_round_trip(s.drop_first(), data, pos + 8 + l);
        assert(seq![(hd.0, (hd.1.base_val(), hd.1.bits()))] + s.drop_first().map_values(
            |e2: (u64, BitmappedVersion)| (e2.0, (e2.1.base_val(), e2.1.bits())),
        ) =~= mapped);
        assert(dec_bvv_entries(data, pos, s.len()) == Some(
            (mapped, pos + enc_bvv_entries(s).len()),
        ));
    }
}

} // verus!
