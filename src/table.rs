//! Tables held as sequences of key/value pairs with unique keys: the spec
//! functions that say what a lookup, an insertion and a removal do.
use vstd::prelude::*;

verus! {

/// The position of key `k` in `s`, or -1 where no entry has it.
pub open spec fn index_of<K, V>(s: Seq<(K, V)>, k: K) -> int
    decreases s.len(),
{
    if s.len() == 0 {
        -1
    } else if s.last().0 == k {
        s.len() - 1
    } else {
        index_of(s.drop_last(), k)
    }
}

/// No two entries of `s` have the same key.
pub open spec fn unique_keys<K, V>(s: Seq<(K, V)>) -> bool {
    forall|i: int, j: int| 0 <= i < j < s.len() ==> s[i].0 != s[j].0
}

/// Whether some entry of `s` has key `k`.
pub open spec fn has_key<K, V>(s: Seq<(K, V)>, k: K) -> bool {
    exists|i: int| 0 <= i < s.len() && s[i].0 == k
}

/// The value stored under `k`, if any.
pub open spec fn lookup<K, V>(s: Seq<(K, V)>, k: K) -> Option<V> {
    let i = index_of(s, k);
    if i >= 0 {
        Some(s[i].1)
    } else {
        None
    }
}

/// `s` with the entry `e` stored under its key: the old entry of that key is
/// replaced in place, or `e` is appended.
pub open spec fn upsert<K, V>(s: Seq<(K, V)>, e: (K, V)) -> Seq<(K, V)> {
    let i = index_of(s, e.0);
    if i >= 0 {
        s.update(i, e)
    } else {
        s.push(e)
    }
}

/// `s` without the entry of key `k`.
pub open spec fn remove_key<K, V>(s: Seq<(K, V)>, k: K) -> Seq<(K, V)> {
    let i = index_of(s, k);
    if i >= 0 {
        s.remove(i)
    } else {
        s
    }
}

/// The keys of `s`, in order.
pub open spec fn keys_of<K, V>(s: Seq<(K, V)>) -> Seq<K> {
    s.map_values(|e: (K, V)| e.0)
}

pub proof fn lemma_index_of<K, V>(s: Seq<(K, V)>, k: K)
    requires
        unique_keys(s),
    ensures
        -1 <= index_of(s, k) < s.len(),
        index_of(s, k) >= 0 <==> has_key(s, k),
        index_of(s, k) >= 0 ==> s[index_of(s, k)].0 == k,
        forall|i: int| 0 <= i < s.len() && s[i].0 == k ==> index_of(s, k) == i,
    decreases s.len(),
{
    if s.len() > 0 {
        let t = s.drop_last();
        assert(unique_keys(t));
        lemma_index_of(t, k);
        if s.last().0 != k {
            if has_key(s, k) {
                let i = choose|i: int| 0 <= i < s.len() && s[i].0 == k;
                assert(t[i].0 == k);
            }
            if has_key(t, k) {
                let i = choose|i: int| 0 <= i < t.len() && t[i].0 == k;
                assert(s[i].0 == k);
            }
        }
    }
}

pub proof fn lemma_upsert<K, V>(s: Seq<(K, V)>, e: (K, V))
    requires
        unique_keys(s),
    ensures
        unique_keys(upsert(s, e)),
        lookup(upsert(s, e), e.0) == Some(e.1),
        forall|k: K| k != e.0 ==> lookup(upsert(s, e), k) == lookup(s, k),
        has_key(s, e.0) ==> upsert(s, e).len() == s.len(),
        !has_key(s, e.0) ==> upsert(s, e).len() == s.len() + 1,
{
    lemma_index_of(s, e.0);
    let u = upsert(s, e);
    assert(unique_keys(u));
    lemma_index_of(u, e.0);
    assert(u[index_of(s, e.0) + if index_of(s, e.0) >= 0 { 0 } else { s.len() + 1 }].0 == e.0);
    assert forall|k: K| k != e.0 implies lookup(u, k) == lookup(s, k) by {
        lemma_index_of(s, k);
        lemma_index_of(u, k);
        if has_key(s, k) {
            assert(u[index_of(s, k)].0 == k);
        }
        if has_key(u, k) {
            let j = index_of(u, k);
            assert(s[j].0 == k);
        }
    }
}

pub proof fn lemma_remove_key<K, V>(s: Seq<(K, V)>, k: K)
    requires
        unique_keys(s),
    ensures
        unique_keys(remove_key(s, k)),
        !has_key(remove_key(s, k), k),
        forall|k2: K| k2 != k ==> lookup(remove_key(s, k), k2) == lookup(s, k2),
        !has_key(s, k) ==> remove_key(s, k) == s,
{
    lemma_index_of(s, k);
    let r = remove_key(s, k);
    let i = index_of(s, k);
    if i >= 0 {
        assert forall|a: int, b: int| 0 <= a < b < r.len() implies r[a].0 != r[b].0 by {
            let a2 = if a < i { a } else { a + 1 };
            let b2 = if b < i { b } else { b + 1 };
            assert(r[a] == s[a2] && r[b] == s[b2]);
        }
        assert forall|j: int| 0 <= j < r.len() implies r[j].0 != k by {
            let j2 = if j < i { j } else { j + 1 };
            assert(r[j] == s[j2]);
        }
        assert forall|k2: K| k2 != k implies lookup(r, k2) == lookup(s, k2) by {
            lemma_index_of(s, k2);
            lemma_index_of(r, k2);
            if has_key(s, k2) {
                let j = index_of(s, k2);
                let j2 = if j < i { j } else { j - 1 };
                assert(r[j2] == s[j]);
            }
            if has_key(r, k2) {
                let j = index_of(r, k2);
                let j2 = if j < i { j } else { j + 1 };
                assert(r[j] == s[j2]);
            }
        }
    }
}

} // verus!

verus! {

/// `s` with `e` appended unless its key is already present.
pub open spec fn insert_absent<K, V>(s: Seq<(K, V)>, e: (K, V)) -> Seq<(K, V)> {
    if has_key(s, e.0) {
        s
    } else {
        s.push(e)
    }
}

/// `s` after `insert_absent` of each entry of `list`, in order.
pub open spec fn seed<K, V>(s: Seq<(K, V)>, list: Seq<(K, V)>) -> Seq<(K, V)>
    decreases list.len(),
{
    if list.len() == 0 {
        s
    } else {
        insert_absent(seed(s, list.drop_last()), list.last())
    }
}

pub proof fn lemma_insert_absent<K, V>(s: Seq<(K, V)>, e: (K, V))
    requires
        unique_keys(s),
    ensures
        unique_keys(insert_absent(s, e)),
        has_key(insert_absent(s, e), e.0),
        forall|k: K| has_key(s, k) ==> has_key(insert_absent(s, e), k),
        forall|k: K| #[trigger] has_key(insert_absent(s, e), k) ==> has_key(s, k) || k == e.0,
        insert_absent(s, e).len() >= s.len(),
        forall|i: int| 0 <= i < s.len() ==> insert_absent(s, e)[i] == s[i],
{
    let u = insert_absent(s, e);
    if !has_key(s, e.0) {
        assert(u[s.len() as int].0 == e.0);
        assert forall|k: K| has_key(s, k) implies has_key(u, k) by {
            let i = choose|i: int| 0 <= i < s.len() && s[i].0 == k;
            assert(u[i].0 == k);
        }
        assert forall|k: K| #[trigger] has_key(u, k) implies has_key(s, k) || k == e.0 by {
            let i = choose|i: int| 0 <= i < u.len() && u[i].0 == k;
            if i < s.len() {
                assert(s[i].0 == k);
            }
        }
    }
}

} // verus!

verus! {

} // verus!

verus! {

broadcast use vstd::seq_lib::group_filter_ensures;

/// Holds of the entries whose key is not `k`.
pub open spec fn key_other_than<K, V>(k: K) -> spec_fn((K, V)) -> bool {
    |e: (K, V)| e.0 != k
}

/// Filtering keeps entries in order, so values that differ under `key` in
/// `s` still differ in the filtered sequence, and each of its entries comes
/// from `s`.
pub proof fn lemma_filter_distinct<A, B>(s: Seq<A>, key: spec_fn(A) -> B, pred: spec_fn(A) -> bool)
    requires
        forall|i: int, j: int| 0 <= i < j < s.len() ==> key(s[i]) != key(s[j]),
    ensures
        forall|i: int, j: int|
            0 <= i < j < s.filter(pred).len() ==> key(s.filter(pred)[i]) != key(s.filter(pred)[j]),
        forall|i: int| 0 <= i < s.filter(pred).len() ==> s.contains(#[trigger] s.filter(pred)[i]),
    decreases s.len(),
{
    reveal(Seq::filter);
    if s.len() > 0 {
        let t = s.drop_last();
        lemma_filter_distinct(t, key, pred);
        let ft = t.filter(pred);
        assert forall|i: int| 0 <= i < ft.len() implies s.contains(#[trigger] ft[i]) by {
            let j = choose|j: int| 0 <= j < t.len() && t[j] == ft[i];
            assert(s[j] == ft[i]);
        }
        if pred(s.last()) {
            let f = ft.push(s.last());
            assert forall|a: int, b: int| 0 <= a < b < f.len() implies key(f[a]) != key(f[b]) by {
                if b == f.len() - 1 {
                    let j = choose|j: int| 0 <= j < t.len() && t[j] == ft[a];
                    assert(s[j] == f[a]);
                }
            }
            assert forall|i: int| 0 <= i < f.len() implies s.contains(#[trigger] f[i]) by {
                if i == f.len() - 1 {
                    assert(s[s.len() - 1] == f[i]);
                }
            }
        }
    }
}

pub proof fn lemma_filter_unique<K, V>(s: Seq<(K, V)>, pred: spec_fn((K, V)) -> bool)
    requires
        unique_keys(s),
    ensures
        unique_keys(s.filter(pred)),
        forall|i: int| 0 <= i < s.filter(pred).len() ==> s.contains(#[trigger] s.filter(pred)[i]),
{
    lemma_filter_distinct(s, |e: (K, V)| e.0, pred);
}

pub proof fn lemma_filter_no_duplicates<A>(s: Seq<A>, pred: spec_fn(A) -> bool)
    requires
        s.no_duplicates(),
    ensures
        s.filter(pred).no_duplicates(),
        forall|i: int| 0 <= i < s.filter(pred).len() ==> s.contains(#[trigger] s.filter(pred)[i]),
{
    lemma_filter_distinct(s, |a: A| a, pred);
}

/// A filter that every entry passes keeps the sequence.
pub proof fn lemma_filter_all<A>(s: Seq<A>, pred: spec_fn(A) -> bool)
    requires
        forall|i: int| 0 <= i < s.len() ==> pred(s[i]),
    ensures
        s.filter(pred) == s,
    decreases s.len(),
{
    reveal(Seq::filter);
    if s.len() > 0 {
        lemma_filter_all(s.drop_last(), pred);
        assert(s.drop_last().push(s.last()) =~= s);
    }
}

/// Filtering twice by the same predicate is filtering once.
pub proof fn lemma_filter_twice<A>(s: Seq<A>, pred: spec_fn(A) -> bool)
    ensures
        s.filter(pred).filter(pred) == s.filter(pred),
{
    lemma_filter_all(s.filter(pred), pred);
}

/// Filtering by one predicate and then another is filtering by both.
pub proof fn lemma_filter_both<A>(s: Seq<A>, p: spec_fn(A) -> bool, q: spec_fn(A) -> bool)
    ensures
        s.filter(p).filter(q) == s.filter(|a: A| p(a) && q(a)),
    decreases s.len(),
{
    reveal(Seq::filter);
    if s.len() > 0 {
        lemma_filter_both(s.drop_last(), p, q);
        let fp = s.drop_last().filter(p);
        if p(s.last()) {
            assert(fp.push(s.last()).drop_last() =~= fp);
        }
    }
}

/// Removing the entry of a key is filtering out that key.
pub proof fn lemma_remove_key_filter<K, V>(s: Seq<(K, V)>, k: K)
    requires
        unique_keys(s),
    ensures
        remove_key(s, k) == s.filter(key_other_than(k)),
    decreases s.len(),
{
    reveal(Seq::filter);
    lemma_index_of(s, k);
    if s.len() > 0 {
        let t = s.drop_last();
        assert(unique_keys(t));
        if s.last().0 == k {
            assert forall|i: int| 0 <= i < t.len() implies (key_other_than(k))(t[i]) by {
                assert(s[i] == t[i]);
            }
            lemma_filter_all(t, key_other_than(k));
            assert(s.remove(s.len() - 1) =~= t);
        } else {
            lemma_remove_key_filter(t, k);
            lemma_index_of(t, k);
            let i = index_of(t, k);
            if i >= 0 {
                assert(s.remove(i) =~= t.remove(i).push(s.last()));
            } else {
                assert(t.push(s.last()) =~= s);
            }
        }
    }
}

} // verus!
