//! Tables keyed by byte strings, kept in strictly increasing key order.
use vstd::prelude::*;

use crate::paths::{bytes_eq, lemma_lex_irrefl, lemma_lex_total, lemma_lex_trans, lex_less, lex_lt};

verus! {

/// Keys strictly increasing.
pub open spec fn sorted_keys<V>(s: Seq<(Seq<u8>, V)>) -> bool {
    forall|i: int, j: int| 0 <= i < j < s.len() ==> lex_lt(#[trigger] s[i].0, #[trigger] s[j].0)
}

/// Number of leading entries whose key sorts before `k` (the insertion point).
pub open spec fn count_lt<V>(s: Seq<(Seq<u8>, V)>, k: Seq<u8>) -> nat
    decreases s.len(),
{
    if s.len() == 0 {
        0
    } else if lex_lt(s[0].0, k) {
        1 + count_lt(s.drop_first(), k)
    } else {
        0
    }
}

/// Whether the entry at the insertion point of `k` has key `k`.
pub open spec fn has_key<V>(s: Seq<(Seq<u8>, V)>, k: Seq<u8>) -> bool {
    count_lt(s, k) < s.len() && s[count_lt(s, k) as int].0 == k
}

/// Value stored under `k`.
pub open spec fn find<V>(s: Seq<(Seq<u8>, V)>, k: Seq<u8>) -> Option<V> {
    if has_key(s, k) {
        Some(s[count_lt(s, k) as int].1)
    } else {
        None
    }
}

/// Store `v` under `k`: replace an existing entry, or insert at the insertion point.
pub open spec fn put<V>(s: Seq<(Seq<u8>, V)>, k: Seq<u8>, v: V) -> Seq<(Seq<u8>, V)> {
    if has_key(s, k) {
        s.update(count_lt(s, k) as int, (k, v))
    } else {
        s.insert(count_lt(s, k) as int, (k, v))
    }
}

/// Remove the entry under `k`, if any.
pub open spec fn remove_key<V>(s: Seq<(Seq<u8>, V)>, k: Seq<u8>) -> Seq<(Seq<u8>, V)> {
    if has_key(s, k) {
        s.remove(count_lt(s, k) as int)
    } else {
        s
    }
}

/// The keys of a table, in order.
pub open spec fn keys<V>(s: Seq<(Seq<u8>, V)>) -> Seq<Seq<u8>> {
    s.map_values(|e: (Seq<u8>, V)| e.0)
}

/// The insertion point is at most the length; every entry before it sorts
/// before `k`; in a sorted table no entry at or after it does.
pub proof fn lemma_count_lt<V>(s: Seq<(Seq<u8>, V)>, k: Seq<u8>)
    ensures
        count_lt(s, k) <= s.len(),
        forall|i: int| 0 <= i < count_lt(s, k) ==> lex_lt(#[trigger] s[i].0, k),
        count_lt(s, k) < s.len() ==> !lex_lt(s[count_lt(s, k) as int].0, k),
        sorted_keys(s) ==> forall|i: int| count_lt(s, k) <= i < s.len() ==> !lex_lt(#[trigger] s[i].0, k),
    decreases s.len(),
{
    if s.len() > 0 && lex_lt(s[0].0, k) {
        let t = s.drop_first();
        lemma_count_lt(t, k);
        assert forall|i: int| 0 <= i < count_lt(s, k) implies lex_lt(#[trigger] s[i].0, k) by {
            if i > 0 {
                assert(s[i] == t[i - 1]);
            }
        }
        if sorted_keys(s) {
            assert(sorted_keys(t)) by {
                assert forall|i: int, j: int| 0 <= i < j < t.len() implies lex_lt(#[trigger] t[i].0, #[trigger] t[j].0) by {
                    assert(t[i] == s[i + 1]);
                    assert(t[j] == s[j + 1]);
                }
            }
            assert forall|i: int| count_lt(s, k) <= i < s.len() implies !lex_lt(#[trigger] s[i].0, k) by {
                assert(s[i] == t[i - 1]);
            }
        }
    } else if s.len() > 0 && sorted_keys(s) {
        assert forall|i: int| 0 <= i < s.len() implies !lex_lt(#[trigger] s[i].0, k) by {
            if i > 0 && lex_lt(s[i].0, k) {
                lemma_lex_trans(s[0].0, s[i].0, k);
            }
        }
    }
}

/// In a sorted table, `k` is present exactly when some entry has key `k`, and
/// then it is the entry at the insertion point.
pub proof fn lemma_has_key<V>(s: Seq<(Seq<u8>, V)>, k: Seq<u8>, i: int)
    requires
        sorted_keys(s),
        0 <= i < s.len(),
        s[i].0 == k,
    ensures
        has_key(s, k),
        count_lt(s, k) == i,
{
    lemma_count_lt(s, k);
    lemma_lex_irrefl(k);
    let c = count_lt(s, k) as int;
    if c < i {
        assert(lex_lt(s[c].0, s[i].0));
        lemma_lex_total(s[c].0, k);
        if s[c].0 != k {
        }
    } else if c > i {
        assert(lex_lt(s[i].0, k));
    }
}

/// Storing keeps the keys sorted.
pub proof fn lemma_put_sorted<V>(s: Seq<(Seq<u8>, V)>, k: Seq<u8>, v: V)
    requires
        sorted_keys(s),
    ensures
        sorted_keys(put(s, k, v)),
        put(s, k, v).len() == if has_key(s, k) { s.len() } else { s.len() + 1 },
{
    lemma_count_lt(s, k);
    let c = count_lt(s, k) as int;
    let t = put(s, k, v);
    if has_key(s, k) {
        assert forall|i: int, j: int| 0 <= i < j < t.len() implies lex_lt(#[trigger] t[i].0, #[trigger] t[j].0) by {
            assert(t[i].0 == s[i].0);
            assert(t[j].0 == s[j].0);
        }
    } else {
        assert forall|i: int, j: int| 0 <= i < j < t.len() implies lex_lt(#[trigger] t[i].0, #[trigger] t[j].0) by {
            if j < c {
                assert(t[i] == s[i] && t[j] == s[j]);
            } else if j == c {
                assert(t[i] == s[i]);
            } else if i == c {
                assert(t[j] == s[j - 1]);
                assert(!lex_lt(s[j - 1].0, k));
                lemma_lex_total(s[j - 1].0, k);
                if j - 1 == c {
                } else {
                    assert(lex_lt(s[c].0, s[j - 1].0));
                    lemma_lex_total(s[c].0, k);
                    if lex_lt(k, s[c].0) {
                        lemma_lex_trans(k, s[c].0, s[j - 1].0);
                    }
                }
            } else if i < c {
                assert(t[i] == s[i] && t[j] == s[j - 1]);
                assert(lex_lt(s[i].0, k));
                if j - 1 >= c {
                    if j - 1 > i {
                    }
                }
            } else {
                assert(t[i] == s[i - 1] && t[j] == s[j - 1]);
            }
        }
    }
}

/// Looking up a stored key gives the stored value; other keys are unaffected.
pub proof fn lemma_find_put<V>(s: Seq<(Seq<u8>, V)>, k: Seq<u8>, v: V, k2: Seq<u8>)
    requires
        sorted_keys(s),
    ensures
        find(put(s, k, v), k) == Some(v),
        k2 != k ==> find(put(s, k, v), k2) == find(s, k2),
{
    lemma_count_lt(s, k);
    lemma_put_sorted(s, k, v);
    let c = count_lt(s, k) as int;
    let t = put(s, k, v);
    assert(t[c].0 == k);
    lemma_has_key(t, k, c);
    if k2 != k {
        if has_key(s, k2) {
            let i = count_lt(s, k2) as int;
            let i2 = if has_key(s, k) || i < c { i } else { i + 1 };
            assert(t[i2] == s[i]);
            lemma_has_key(t, k2, i2);
        } else {
            if has_key(t, k2) {
                let i = count_lt(t, k2) as int;
                assert(i != c);
                let i1 = if has_key(s, k) || i < c { i } else { i - 1 };
                assert(t[i] == s[i1]);
                lemma_has_key(s, k2, i1);
            }
        }
    }
}

/// Removing keeps the keys sorted and affects only the removed key.
pub proof fn lemma_remove<V>(s: Seq<(Seq<u8>, V)>, k: Seq<u8>, k2: Seq<u8>)
    requires
        sorted_keys(s),
    ensures
        sorted_keys(remove_key(s, k)),
        find(remove_key(s, k), k) is None,
        k2 != k ==> find(remove_key(s, k), k2) == find(s, k2),
{
    lemma_count_lt(s, k);
    let c = count_lt(s, k) as int;
    let t = remove_key(s, k);
    if has_key(s, k) {
        assert forall|i: int, j: int| 0 <= i < j < t.len() implies lex_lt(#[trigger] t[i].0, #[trigger] t[j].0) by {
            let i1 = if i < c { i } else { i + 1 };
            let j1 = if j < c { j } else { j + 1 };
            assert(t[i] == s[i1] && t[j] == s[j1]);
        }
        if has_key(t, k) {
            let i = count_lt(t, k) as int;
            let i1 = if i < c { i } else { i + 1 };
            assert(t[i] == s[i1]);
            lemma_has_key(s, k, i1);
        }
        if k2 != k {
            if has_key(s, k2) {
                let i = count_lt(s, k2) as int;
                assert(i != c);
                let i2 = if i < c { i } else { i - 1 };
                assert(t[i2] == s[i]);
                lemma_has_key(t, k2, i2);
            } else if has_key(t, k2) {
                let i = count_lt(t, k2) as int;
                let i1 = if i < c { i } else { i + 1 };
                assert(t[i] == s[i1]);
                lemma_has_key(s, k2, i1);
            }
        }
    }
}

/// Insertion point of `k` in a table, and whether `k` is there.
pub fn table_find<T>(t: &Vec<(Vec<u8>, T)>, k: &[u8]) -> (res: (usize, bool))
    ensures
        res.0 == count_lt(table_view(t@), k@),
        res.1 == has_key(table_view(t@), k@),
{
    let ghost s = table_view(t@);
    let mut i: usize = 0;
    assert(s.subrange(0, s.len() as int) =~= s);
    while i < t.len() && lex_less(t[i].0.as_slice(), k)
        invariant
            i <= t@.len(),
            s == table_view(t@),
            count_lt(s, k@) == i + count_lt(s.subrange(i as int, s.len() as int), k@),
        decreases t@.len() - i,
    {
        proof {
            let r = s.subrange(i as int, s.len() as int);
            assert(r.drop_first() =~= s.subrange(i + 1, s.len() as int));
        }
        i = i + 1;
    }
    proof {
        let r = s.subrange(i as int, s.len() as int);
        if i < t@.len() {
            assert(r[0] == s[i as int]);
        }
    }
    let found = i < t.len() && bytes_eq(t[i].0.as_slice(), k);
    (i, found)
}

/// The entries of `t` after storing `v` under `k`: the entry at the
/// insertion point is overwritten when it has key `k`, a new one is inserted
/// there otherwise.
pub open spec fn put_entry<T>(t: Seq<(Vec<u8>, T)>, k: Vec<u8>, v: T) -> Seq<(Vec<u8>, T)> {
    if has_key(table_view(t), k@) {
        t.update(count_lt(table_view(t), k@) as int, (k, v))
    } else {
        t.insert(count_lt(table_view(t), k@) as int, (k, v))
    }
}

/// The entries of `t` without the one under `k`.
pub open spec fn remove_entry<T>(t: Seq<(Vec<u8>, T)>, k: Seq<u8>) -> Seq<(Vec<u8>, T)> {
    if has_key(table_view(t), k) {
        t.remove(count_lt(table_view(t), k) as int)
    } else {
        t
    }
}

/// Store `v` under `k`.
pub fn table_put<T>(t: &mut Vec<(Vec<u8>, T)>, k: Vec<u8>, v: T)
    ensures
        final(t)@ == put_entry(old(t)@, k, v),
{
    proof {
        lemma_count_lt(table_view(t@), k@);
    }
    let (c, found) = table_find(t, k.as_slice());
    if found {
        let _ = t.remove(c);
        t.insert(c, (k, v));
        assert(t@ =~= old(t)@.update(c as int, (k, v)));
    } else {
        t.insert(c, (k, v));
    }
}

/// Remove the entry under `k`, if there is one.
pub fn table_remove<T>(t: &mut Vec<(Vec<u8>, T)>, k: &[u8])
    ensures
        final(t)@ == remove_entry(old(t)@, k@),
{
    proof {
        lemma_count_lt(table_view(t@), k@);
    }
    let (c, found) = table_find(t, k);
    if found {
        let _ = t.remove(c);
    }
}

/// Keys as byte sequences, values as they are.
pub open spec fn table_view<T>(t: Seq<(Vec<u8>, T)>) -> Seq<(Seq<u8>, T)> {
    t.map_values(|e: (Vec<u8>, T)| (e.0@, e.1))
}


/// Tables with the same keys agree on insertion points and presence.
pub proof fn lemma_same_keys<V, W>(s1: Seq<(Seq<u8>, V)>, s2: Seq<(Seq<u8>, W)>, k: Seq<u8>)
    requires
        s1.len() == s2.len(),
        forall|i: int| 0 <= i < s1.len() ==> #[trigger] s1[i].0 == s2[i].0,
    ensures
        count_lt(s1, k) == count_lt(s2, k),
        has_key(s1, k) == has_key(s2, k),
        sorted_keys(s1) == sorted_keys(s2),
    decreases s1.len(),
{
    if s1.len() > 0 {
        lemma_same_keys(s1.drop_first(), s2.drop_first(), k);
        assert(s1[0].0 == s2[0].0);
    }
    lemma_count_lt(s1, k);
    lemma_count_lt(s2, k);
    if sorted_keys(s1) {
        assert forall|i: int, j: int| 0 <= i < j < s2.len() implies lex_lt(#[trigger] s2[i].0, #[trigger] s2[j].0) by {
            assert(s1[i].0 == s2[i].0 && s1[j].0 == s2[j].0);
        }
    }
    if sorted_keys(s2) {
        assert forall|i: int, j: int| 0 <= i < j < s1.len() implies lex_lt(#[trigger] s1[i].0, #[trigger] s1[j].0) by {
            assert(s1[i].0 == s2[i].0 && s1[j].0 == s2[j].0);
        }
    }
}

/// Dropping the first entry of a sorted table removes exactly its key.
pub proof fn lemma_find_drop_first<V>(s: Seq<(Seq<u8>, V)>, k: Seq<u8>)
    requires
        sorted_keys(s),
        s.len() > 0,
    ensures
        sorted_keys(s.drop_first()),
        find(s.drop_first(), k) == if k == s[0].0 {
            None
        } else {
            find(s, k)
        },
{
    let t = s.drop_first();
    assert forall|i: int, j: int| 0 <= i < j < t.len() implies lex_lt(#[trigger] t[i].0, #[trigger] t[j].0) by {
        assert(t[i] == s[i + 1] && t[j] == s[j + 1]);
    }
    lemma_lex_irrefl(s[0].0);
    if has_key(t, k) {
        let i = count_lt(t, k) as int;
        assert(t[i] == s[i + 1]);
        lemma_has_key(s, k, i + 1);
        assert(lex_lt(s[0].0, s[i + 1].0));
    } else if has_key(s, k) {
        let c = count_lt(s, k) as int;
        if c > 0 {
            assert(t[c - 1] == s[c]);
            lemma_has_key(t, k, c - 1);
        }
    }
}

/// Sorted tables that agree on every lookup are equal.
pub proof fn lemma_sorted_ext<V>(s1: Seq<(Seq<u8>, V)>, s2: Seq<(Seq<u8>, V)>)
    requires
        sorted_keys(s1),
        sorted_keys(s2),
        forall|k: Seq<u8>| #![trigger find(s1, k), find(s2, k)] find(s1, k) == find(s2, k),
    ensures
        s1 == s2,
    decreases s1.len(),
{
    if s1.len() == 0 {
        if s2.len() > 0 {
            lemma_has_key(s2, s2[0].0, 0);
            assert(find(s1, s2[0].0) == find(s2, s2[0].0));
        }
        assert(s1 =~= s2);
    } else {
        let k1 = s1[0].0;
        lemma_has_key(s1, k1, 0);
        assert(find(s1, k1) == find(s2, k1));
        assert(has_key(s2, k1));
        let k2 = s2[0].0;
        lemma_has_key(s2, k2, 0);
        assert(find(s1, k2) == find(s2, k2));
        if k1 != k2 {
            lemma_lex_total(k1, k2);
            let j = count_lt(s2, k1) as int;
            let i = count_lt(s1, k2) as int;
            if lex_lt(k1, k2) {
                assert(j != 0);
                assert(lex_lt(s2[0].0, s2[j].0));
            } else {
                assert(i != 0);
                assert(lex_lt(s1[0].0, s1[i].0));
            }
        }
        assert(s1[0] == s2[0]);
        assert forall|k: Seq<u8>| #![trigger find(s1.drop_first(), k), find(s2.drop_first(), k)] find(
            s1.drop_first(),
            k,
        ) == find(s2.drop_first(), k) by {
            lemma_find_drop_first(s1, k);
            lemma_find_drop_first(s2, k);
            assert(find(s1, k) == find(s2, k));
        }
        lemma_find_drop_first(s1, k1);
        lemma_find_drop_first(s2, k1);
        lemma_sorted_ext(s1.drop_first(), s2.drop_first());
        assert(s1 =~= seq![s1[0]] + s1.drop_first());
        assert(s2 =~= seq![s2[0]] + s2.drop_first());
    }
}

} // verus!
