//! Association sequences sorted by key.
//!
//! The causal types store their maps as vectors of pairs kept in strictly
//! increasing key order. The order makes the representation canonical: two
//! sorted sequences that associate the same values to the same keys are equal
//! element by element. Keys are either plain actor ids (`u64`) or dots
//! (`(u64, u64)` pairs ordered lexicographically).

use vstd::prelude::*;

verus! {

/// Strict lexicographic order on dots.
pub open spec fn dot_lt(a: (u64, u64), b: (u64, u64)) -> bool {
    a.0 < b.0 || (a.0 == b.0 && a.1 < b.1)
}

/// The keys of `s` are strictly increasing.
pub open spec fn sorted_by_id<V>(s: Seq<(u64, V)>) -> bool {
    forall|i: int, j: int| 0 <= i < j < s.len() ==> s[i].0 < s[j].0
}

/// The dot keys of `s` are strictly increasing.
pub open spec fn sorted_by_dot<V>(s: Seq<((u64, u64), V)>) -> bool {
    forall|i: int, j: int| 0 <= i < j < s.len() ==> dot_lt(s[i].0, s[j].0)
}

/// The value associated to `k` in `s`, when there is one. A later pair wins,
/// which matters only for sequences with repeated keys.
pub open spec fn assoc_get<V>(s: Seq<(u64, V)>, k: u64) -> Option<V>
    decreases s.len(),
{
    if s.len() == 0 {
        None
    } else if s.last().0 == k {
        Some(s.last().1)
    } else {
        assoc_get(s.drop_last(), k)
    }
}

/// The value associated to dot `k` in `s`, when there is one.
pub open spec fn assoc_get_dot<V>(s: Seq<((u64, u64), V)>, k: (u64, u64)) -> Option<V>
    decreases s.len(),
{
    if s.len() == 0 {
        None
    } else if s.last().0 == k {
        Some(s.last().1)
    } else {
        assoc_get_dot(s.drop_last(), k)
    }
}

/// `assoc_get` finds exactly the keys that occur in the sequence, and on a
/// sequence with strictly increasing keys it returns the stored value.
pub proof fn lemma_assoc_get<V>(s: Seq<(u64, V)>)
    ensures
        forall|k: u64|
            (#[trigger] assoc_get(s, k)) is Some <==> exists|i: int| 0 <= i < s.len() && s[i].0 == k,
        sorted_by_id(s) ==> forall|i: int|
            0 <= i < s.len() ==> assoc_get(s, #[trigger] s[i].0) == Some(s[i].1),
    decreases s.len(),
{
    if s.len() > 0 {
        lemma_assoc_get(s.drop_last());
        assert forall|k: u64| (#[trigger] assoc_get(s, k)) is Some implies exists|i: int|
            0 <= i < s.len() && s[i].0 == k by {
            if s.last().0 == k {
                assert(s[s.len() - 1].0 == k);
            } else {
                assert(assoc_get(s, k) == assoc_get(s.drop_last(), k));
                assert(assoc_get(s.drop_last(), k) is Some);
                let i = choose|i: int| 0 <= i < s.drop_last().len() && s.drop_last()[i].0 == k;
                assert(s[i].0 == k);
            }
        }
        assert forall|k: u64| (exists|i: int| 0 <= i < s.len() && s[i].0 == k) implies (
        #[trigger] assoc_get(s, k)) is Some by {
            let i = choose|i: int| 0 <= i < s.len() && s[i].0 == k;
            if i < s.len() - 1 {
                assert(s.drop_last()[i].0 == k);
                assert(assoc_get(s.drop_last(), k) is Some);
                if s.last().0 != k {
                    assert(assoc_get(s, k) == assoc_get(s.drop_last(), k));
                }
            }
        }
        if sorted_by_id(s) {
            assert(sorted_by_id(s.drop_last()));
            assert forall|i: int| 0 <= i < s.len() implies assoc_get(s, #[trigger] s[i].0) == Some(
                s[i].1,
            ) by {
                if i < s.len() - 1 {
                    assert(s[i].0 < s.last().0);
                    assert(s.drop_last()[i] == s[i]);
                }
            }
        }
    }
}

/// Same statement for dot keys.
pub proof fn lemma_assoc_get_dot<V>(s: Seq<((u64, u64), V)>)
    ensures
        forall|k: (u64, u64)|
            (#[trigger] assoc_get_dot(s, k)) is Some <==> exists|i: int|
                0 <= i < s.len() && s[i].0 == k,
        sorted_by_dot(s) ==> forall|i: int|
            0 <= i < s.len() ==> assoc_get_dot(s, #[trigger] s[i].0) == Some(s[i].1),
    decreases s.len(),
{
    if s.len() > 0 {
        lemma_assoc_get_dot(s.drop_last());
        assert forall|k: (u64, u64)| (#[trigger] assoc_get_dot(s, k)) is Some implies exists|i: int|
            0 <= i < s.len() && s[i].0 == k by {
            if s.last().0 == k {
                assert(s[s.len() - 1].0 == k);
            } else {
                assert(assoc_get_dot(s, k) == assoc_get_dot(s.drop_last(), k));
                assert(assoc_get_dot(s.drop_last(), k) is Some);
                let i = choose|i: int|
                    0 <= i < s.drop_last().len() && s.drop_last()[i].0 == k;
                assert(s[i].0 == k);
            }
        }
        assert forall|k: (u64, u64)| (exists|i: int| 0 <= i < s.len() && s[i].0 == k) implies (
        #[trigger] assoc_get_dot(s, k)) is Some by {
            let i = choose|i: int| 0 <= i < s.len() && s[i].0 == k;
            if i < s.len() - 1 {
                assert(s.drop_last()[i].0 == k);
                assert(assoc_get_dot(s.drop_last(), k) is Some);
                if s.last().0 != k {
                    assert(assoc_get_dot(s, k) == assoc_get_dot(s.drop_last(), k));
                }
            }
        }
        if sorted_by_dot(s) {
            assert(sorted_by_dot(s.drop_last()));
            assert forall|i: int| 0 <= i < s.len() implies assoc_get_dot(s, #[trigger] s[i].0)
                == Some(s[i].1) by {
                if i < s.len() - 1 {
                    assert(dot_lt(s[i].0, s.last().0));
                    assert(s.drop_last()[i] == s[i]);
                }
            }
        }
    }
}

/// Two sorted association sequences that agree on every lookup are equal.
pub proof fn lemma_assoc_canonical<V>(a: Seq<(u64, V)>, b: Seq<(u64, V)>)
    requires
        sorted_by_id(a),
        sorted_by_id(b),
        forall|k: u64| #[trigger] assoc_get(a, k) == assoc_get(b, k),
    ensures
        a == b,
    decreases a.len(),
{
    lemma_assoc_get(a);
    lemma_assoc_get(b);
    if a.len() == 0 {
        if b.len() > 0 {
            assert(assoc_get(b, b[0].0) is Some);
            assert(assoc_get(a, b[0].0) is Some);
            assert(false);
        }
        assert(a =~= b);
    } else {
        if b.len() == 0 {
            assert(assoc_get(a, a[0].0) is Some);
            assert(false);
        }
        let ka = a.last().0;
        let kb = b.last().0;
        assert(assoc_get(b, ka) is Some);
        let ia = choose|i: int| 0 <= i < b.len() && b[i].0 == ka;
        assert(b[ia].0 <= kb);
        assert(assoc_get(a, kb) is Some);
        let ib = choose|i: int| 0 <= i < a.len() && a[i].0 == kb;
        assert(a[ib].0 <= ka);
        assert(ka == kb);
        assert(assoc_get(a, ka) == Some(a.last().1));
        assert(assoc_get(b, kb) == Some(b.last().1));
        assert(a.last() == b.last());
        assert forall|k: u64| #[trigger]
            assoc_get(a.drop_last(), k) == assoc_get(b.drop_last(), k) by {
            lemma_assoc_get(a.drop_last());
            lemma_assoc_get(b.drop_last());
            if k == ka {
                if assoc_get(a.drop_last(), k) is Some {
                    let i = choose|i: int|
                        0 <= i < a.drop_last().len() && a.drop_last()[i].0 == k;
                    assert(a[i].0 < a.last().0);
                    assert(false);
                }
                if assoc_get(b.drop_last(), k) is Some {
                    let i = choose|i: int|
                        0 <= i < b.drop_last().len() && b.drop_last()[i].0 == k;
                    assert(b[i].0 < b.last().0);
                    assert(false);
                }
            } else {
                assert(assoc_get(a, k) == assoc_get(a.drop_last(), k));
                assert(assoc_get(b, k) == assoc_get(b.drop_last(), k));
            }
        }
        assert(sorted_by_id(a.drop_last()));
        assert(sorted_by_id(b.drop_last()));
        lemma_assoc_canonical(a.drop_last(), b.drop_last());
        assert(a =~= a.drop_last().push(a.last()));
        assert(b =~= b.drop_last().push(b.last()));
    }
}

/// Two sorted dot-keyed association sequences that agree on every lookup are
/// equal.
pub proof fn lemma_assoc_canonical_dot<V>(a: Seq<((u64, u64), V)>, b: Seq<((u64, u64), V)>)
    requires
        sorted_by_dot(a),
        sorted_by_dot(b),
        forall|k: (u64, u64)| #[trigger] assoc_get_dot(a, k) == assoc_get_dot(b, k),
    ensures
        a == b,
    decreases a.len(),
{
    lemma_assoc_get_dot(a);
    lemma_assoc_get_dot(b);
    if a.len() == 0 {
        if b.len() > 0 {
            assert(assoc_get_dot(b, b[0].0) is Some);
            assert(assoc_get_dot(a, b[0].0) is Some);
            assert(false);
        }
        assert(a =~= b);
    } else {
        if b.len() == 0 {
            assert(assoc_get_dot(a, a[0].0) is Some);
            assert(false);
        }
        let ka = a.last().0;
        let kb = b.last().0;
        assert(assoc_get_dot(b, ka) is Some);
        let ia = choose|i: int| 0 <= i < b.len() && b[i].0 == ka;
        assert(ia < b.len() - 1 ==> dot_lt(b[ia].0, kb));
        assert(assoc_get_dot(a, kb) is Some);
        let ib = choose|i: int| 0 <= i < a.len() && a[i].0 == kb;
        assert(ib < a.len() - 1 ==> dot_lt(a[ib].0, ka));
        assert(ka == kb);
        assert(assoc_get_dot(a, ka) == Some(a.last().1));
        assert(assoc_get_dot(b, kb) == Some(b.last().1));
        assert(a.last() == b.last());
        assert forall|k: (u64, u64)| #[trigger]
            assoc_get_dot(a.drop_last(), k) == assoc_get_dot(b.drop_last(), k) by {
            lemma_assoc_get_dot(a.drop_last());
            lemma_assoc_get_dot(b.drop_last());
            if k == ka {
                if assoc_get_dot(a.drop_last(), k) is Some {
                    let i = choose|i: int|
                        0 <= i < a.drop_last().len() && a.drop_last()[i].0 == k;
                    assert(dot_lt(a[i].0, a.last().0));
                    assert(false);
                }
                if assoc_get_dot(b.drop_last(), k) is Some {
                    let i = choose|i: int|
                        0 <= i < b.drop_last().len() && b.drop_last()[i].0 == k;
                    assert(dot_lt(b[i].0, b.last().0));
                    assert(false);
                }
            } else {
                assert(assoc_get_dot(a, k) == assoc_get_dot(a.drop_last(), k));
                assert(assoc_get_dot(b, k) == assoc_get_dot(b.drop_last(), k));
            }
        }
        assert(sorted_by_dot(a.drop_last()));
        assert(sorted_by_dot(b.drop_last()));
        lemma_assoc_canonical_dot(a.drop_last(), b.drop_last());
        assert(a =~= a.drop_last().push(a.last()));
        assert(b =~= b.drop_last().push(b.last()));
    }
}

/// Inserting a pair at its sorted position keeps the order and changes only
/// the lookup of its key.
pub proof fn lemma_assoc_insert<V>(s: Seq<(u64, V)>, i: int, id: u64, v: V)
    requires
        sorted_by_id(s),
        0 <= i <= s.len(),
        forall|j: int| 0 <= j < i ==> s[j].0 < id,
        forall|j: int| i <= j < s.len() ==> s[j].0 > id,
    ensures
        sorted_by_id(s.insert(i, (id, v))),
        assoc_get(s.insert(i, (id, v)), id) == Some(v),
        forall|k: u64| k != id ==> assoc_get(s.insert(i, (id, v)), k) == #[trigger] assoc_get(s, k),
{
    let t = s.insert(i, (id, v));
    assert forall|x: int, y: int| 0 <= x < y < t.len() implies t[x].0 < t[y].0 by {
        if y < i {
        } else if x < i && y == i {
        } else if x < i && y > i {
            assert(t[y] == s[y - 1]);
        } else if x == i {
            assert(t[y] == s[y - 1]);
        } else {
            assert(t[x] == s[x - 1]);
            assert(t[y] == s[y - 1]);
        }
    }
    lemma_assoc_get(t);
    lemma_assoc_get(s);
    assert(t[i] == (id, v));
    assert(assoc_get(t, id) == Some(v));
    assert forall|k: u64| k != id implies assoc_get(t, k) == #[trigger] assoc_get(s, k) by {
        if assoc_get(t, k) is Some {
            let j = choose|j: int| 0 <= j < t.len() && t[j].0 == k;
            if j < i {
                assert(s[j].0 == k);
                assert(assoc_get(s, k) == Some(s[j].1));
                assert(assoc_get(t, k) == Some(t[j].1));
            } else {
                assert(t[j] == s[j - 1]);
                assert(assoc_get(s, k) == Some(s[j - 1].1));
                assert(assoc_get(t, k) == Some(t[j].1));
            }
        } else if assoc_get(s, k) is Some {
            let j = choose|j: int| 0 <= j < s.len() && s[j].0 == k;
            if j < i {
                assert(t[j].0 == k);
            } else {
                assert(t[j + 1] == s[j]);
            }
            assert(assoc_get(t, k) is Some);
            assert(false);
        }
    }
}

/// Updating the value at one position changes only the lookup of its key.
pub proof fn lemma_assoc_update<V>(s: Seq<(u64, V)>, i: int, v: V)
    requires
        sorted_by_id(s),
        0 <= i < s.len(),
    ensures
        sorted_by_id(s.update(i, (s[i].0, v))),
        assoc_get(s.update(i, (s[i].0, v)), s[i].0) == Some(v),
        forall|k: u64|
            k != s[i].0 ==> assoc_get(s.update(i, (s[i].0, v)), k) == #[trigger] assoc_get(s, k),
{
    let t = s.update(i, (s[i].0, v));
    assert(forall|j: int| 0 <= j < t.len() ==> t[j].0 == s[j].0);
    lemma_assoc_get(t);
    lemma_assoc_get(s);
    assert(t[i].0 == s[i].0 && t[i].1 == v);
    assert forall|k: u64| k != s[i].0 implies assoc_get(t, k) == #[trigger] assoc_get(s, k) by {
        if assoc_get(t, k) is Some {
            let j = choose|j: int| 0 <= j < t.len() && t[j].0 == k;
            assert(j != i);
            assert(t[j] == s[j]);
            assert(assoc_get(s, k) == Some(s[j].1));
            assert(assoc_get(t, k) == Some(t[j].1));
        } else if assoc_get(s, k) is Some {
            let j = choose|j: int| 0 <= j < s.len() && s[j].0 == k;
            assert(t[j].0 == k);
            assert(false);
        }
    }
}

/// Removing the pair at one position clears only the lookup of its key.
pub proof fn lemma_assoc_remove<V>(s: Seq<(u64, V)>, i: int)
    requires
        sorted_by_id(s),
        0 <= i < s.len(),
    ensures
        sorted_by_id(s.remove(i)),
        assoc_get(s.remove(i), s[i].0) is None,
        forall|k: u64| k != s[i].0 ==> assoc_get(s.remove(i), k) == #[trigger] assoc_get(s, k),
{
    let t = s.remove(i);
    assert forall|x: int, y: int| 0 <= x < y < t.len() implies t[x].0 < t[y].0 by {
        if y < i {
        } else if x < i {
            assert(t[y] == s[y + 1]);
        } else {
            assert(t[x] == s[x + 1]);
            assert(t[y] == s[y + 1]);
        }
    }
    lemma_assoc_get(t);
    lemma_assoc_get(s);
    if assoc_get(t, s[i].0) is Some {
        let j = choose|j: int| 0 <= j < t.len() && t[j].0 == s[i].0;
        if j < i {
            assert(s[j].0 == s[i].0);
        } else {
            assert(t[j] == s[j + 1]);
        }
        assert(false);
    }
    assert forall|k: u64| k != s[i].0 implies assoc_get(t, k) == #[trigger] assoc_get(s, k) by {
        if assoc_get(t, k) is Some {
            let j = choose|j: int| 0 <= j < t.len() && t[j].0 == k;
            if j < i {
                assert(assoc_get(s, k) == Some(s[j].1));
                assert(assoc_get(t, k) == Some(t[j].1));
            } else {
                assert(t[j] == s[j + 1]);
                assert(assoc_get(s, k) == Some(s[j + 1].1));
                assert(assoc_get(t, k) == Some(t[j].1));
            }
        } else if assoc_get(s, k) is Some {
            let j = choose|j: int| 0 <= j < s.len() && s[j].0 == k;
            if j < i {
                assert(t[j].0 == k);
            } else {
                assert(j > i);
                assert(t[j - 1] == s[j]);
            }
            assert(assoc_get(t, k) is Some);
            assert(false);
        }
    }
}

/// Two sorted association sequences whose lookups succeed on the same keys
/// hold the same keys in the same order.
pub proof fn lemma_assoc_keys_canonical<V, W>(a: Seq<(u64, V)>, b: Seq<(u64, W)>)
    requires
        sorted_by_id(a),
        sorted_by_id(b),
        forall|k: u64| #[trigger] assoc_get(a, k) is Some <==> #[trigger] assoc_get(b, k) is Some,
    ensures
        a.len() == b.len(),
        forall|i: int| 0 <= i < a.len() ==> a[i].0 == b[i].0,
    decreases a.len(),
{
    lemma_assoc_get(a);
    lemma_assoc_get(b);
    if a.len() == 0 {
        if b.len() > 0 {
            assert(assoc_get(b, b[0].0) is Some);
            assert(assoc_get(a, b[0].0) is Some);
            assert(false);
        }
    } else {
        if b.len() == 0 {
            assert(assoc_get(a, a[0].0) is Some);
            assert(assoc_get(b, a[0].0) is Some);
            assert(false);
        }
        let ka = a.last().0;
        let kb = b.last().0;
        assert(assoc_get(a, ka) is Some);
        assert(assoc_get(b, ka) is Some);
        let ia = choose|i: int| 0 <= i < b.len() && b[i].0 == ka;
        assert(b[ia].0 <= kb);
        assert(assoc_get(b, kb) is Some);
        assert(assoc_get(a, kb) is Some);
        let ib = choose|i: int| 0 <= i < a.len() && a[i].0 == kb;
        assert(a[ib].0 <= ka);
        assert(ka == kb);
        assert forall|k: u64| #[trigger]
            assoc_get(a.drop_last(), k) is Some <==> #[trigger] assoc_get(
            b.drop_last(),
            k,
        ) is Some by {
            lemma_assoc_get(a.drop_last());
            lemma_assoc_get(b.drop_last());
            if k == ka {
                if assoc_get(a.drop_last(), k) is Some {
                    let i = choose|i: int|
                        0 <= i < a.drop_last().len() && a.drop_last()[i].0 == k;
                    assert(a[i].0 < a.last().0);
                    assert(false);
                }
                if assoc_get(b.drop_last(), k) is Some {
                    let i = choose|i: int|
                        0 <= i < b.drop_last().len() && b.drop_last()[i].0 == k;
                    assert(b[i].0 < b.last().0);
                    assert(false);
                }
            } else {
                assert(assoc_get(a, k) == assoc_get(a.drop_last(), k));
                assert(assoc_get(b, k) == assoc_get(b.drop_last(), k));
            }
        }
        assert(sorted_by_id(a.drop_last()));
        assert(sorted_by_id(b.drop_last()));
        lemma_assoc_keys_canonical(a.drop_last(), b.drop_last());
        assert forall|i: int| 0 <= i < a.len() implies a[i].0 == b[i].0 by {
            if i < a.len() - 1 {
                assert(a.drop_last()[i].0 == b.drop_last()[i].0);
            }
        }
    }
}


/// Inserting a pair at its sorted position keeps the order and changes only
/// the lookup of its dot key.
pub proof fn lemma_assoc_insert_dot<V>(s: Seq<((u64, u64), V)>, i: int, d: (u64, u64), v: V)
    requires
        sorted_by_dot(s),
        0 <= i <= s.len(),
        forall|j: int| 0 <= j < i ==> dot_lt(s[j].0, d),
        forall|j: int| i <= j < s.len() ==> dot_lt(d, s[j].0),
    ensures
        sorted_by_dot(s.insert(i, (d, v))),
        assoc_get_dot(s.insert(i, (d, v)), d) == Some(v),
        forall|k: (u64, u64)|
            k != d ==> assoc_get_dot(s.insert(i, (d, v)), k) == #[trigger] assoc_get_dot(s, k),
{
    let t = s.insert(i, (d, v));
    assert forall|x: int, y: int| 0 <= x < y < t.len() implies dot_lt(t[x].0, t[y].0) by {
        if y < i {
        } else if x < i && y == i {
        } else if x < i && y > i {
            assert(t[y] == s[y - 1]);
        } else if x == i {
            assert(t[y] == s[y - 1]);
        } else {
            assert(t[x] == s[x - 1]);
            assert(t[y] == s[y - 1]);
        }
    }
    lemma_assoc_get_dot(t);
    lemma_assoc_get_dot(s);
    assert(t[i] == (d, v));
    assert(assoc_get_dot(t, d) == Some(v));
    assert forall|k: (u64, u64)| k != d implies assoc_get_dot(t, k) == #[trigger] assoc_get_dot(
        s,
        k,
    ) by {
        if assoc_get_dot(t, k) is Some {
            let j = choose|j: int| 0 <= j < t.len() && t[j].0 == k;
            if j < i {
                assert(s[j].0 == k);
                assert(assoc_get_dot(s, k) == Some(s[j].1));
                assert(assoc_get_dot(t, k) == Some(t[j].1));
            } else {
                assert(t[j] == s[j - 1]);
                assert(assoc_get_dot(s, k) == Some(s[j - 1].1));
                assert(assoc_get_dot(t, k) == Some(t[j].1));
            }
        } else if assoc_get_dot(s, k) is Some {
            let j = choose|j: int| 0 <= j < s.len() && s[j].0 == k;
            if j < i {
                assert(t[j].0 == k);
            } else {
                assert(t[j + 1] == s[j]);
            }
            assert(assoc_get_dot(t, k) is Some);
            assert(false);
        }
    }
}

/// Updating the value at one position changes only the lookup of its dot key.
pub proof fn lemma_assoc_update_dot<V>(s: Seq<((u64, u64), V)>, i: int, v: V)
    requires
        sorted_by_dot(s),
        0 <= i < s.len(),
    ensures
        sorted_by_dot(s.update(i, (s[i].0, v))),
        assoc_get_dot(s.update(i, (s[i].0, v)), s[i].0) == Some(v),
        forall|k: (u64, u64)|
            k != s[i].0 ==> assoc_get_dot(s.update(i, (s[i].0, v)), k) == #[trigger] assoc_get_dot(
                s,
                k,
            ),
{
    let t = s.update(i, (s[i].0, v));
    assert(forall|j: int| 0 <= j < t.len() ==> t[j].0 == s[j].0);
    assert forall|x: int, y: int| 0 <= x < y < t.len() implies dot_lt(t[x].0, t[y].0) by {
        assert(dot_lt(s[x].0, s[y].0));
    }
    lemma_assoc_get_dot(t);
    lemma_assoc_get_dot(s);
    assert(t[i].0 == s[i].0 && t[i].1 == v);
    assert forall|k: (u64, u64)| k != s[i].0 implies assoc_get_dot(t, k) == #[trigger] assoc_get_dot(
        s,
        k,
    ) by {
        if assoc_get_dot(t, k) is Some {
            let j = choose|j: int| 0 <= j < t.len() && t[j].0 == k;
            assert(j != i);
            assert(t[j] == s[j]);
            assert(assoc_get_dot(s, k) == Some(s[j].1));
            assert(assoc_get_dot(t, k) == Some(t[j].1));
        } else if assoc_get_dot(s, k) is Some {
            let j = choose|j: int| 0 <= j < s.len() && s[j].0 == k;
            assert(t[j].0 == k);
            assert(false);
        }
    }
}

} // verus!
