//! The mathematical model of the cache: a sequence of key/value pairs in
//! recency order, least recently inserted first.
use vstd::prelude::*;

use crate::weighted::Weighted;

verus! {

/// Sum of the weights of the values in `s`.
pub open spec fn total_weight<K, V: Weighted>(s: Seq<(K, V)>) -> nat
    decreases s.len(),
{
    if s.len() == 0 {
        0
    } else {
        s[0].1.weight_spec() as nat + total_weight(s.drop_first())
    }
}

/// Some pair of `s` has key `k`.
pub open spec fn has_key<K, V>(s: Seq<(K, V)>, k: K) -> bool {
    exists|i: int| 0 <= i < s.len() && #[trigger] s[i].0 == k
}

/// No key occurs twice in `s`.
pub open spec fn distinct_keys<K, V>(s: Seq<(K, V)>) -> bool {
    forall|i: int, j: int|
        0 <= i < s.len() && 0 <= j < s.len() && i != j ==> #[trigger] s[i].0 != #[trigger] s[j].0
}

/// The index of the pair with key `k`, where there is one.
pub open spec fn position_of<K, V>(s: Seq<(K, V)>, k: K) -> int {
    choose|i: int| 0 <= i < s.len() && #[trigger] s[i].0 == k
}

/// `s` without the pair whose key is `k`.
pub open spec fn without_key<K, V>(s: Seq<(K, V)>, k: K) -> Seq<(K, V)> {
    if has_key(s, k) {
        s.remove(position_of(s, k))
    } else {
        s
    }
}

/// What remains of `s` once the oldest pairs are dropped, one at a time,
/// until a newcomer of weight `w` fits within the budget `cap`.
pub open spec fn evict<K, V: Weighted>(s: Seq<(K, V)>, w: nat, cap: nat) -> Seq<(K, V)>
    decreases s.len(),
{
    if s.len() == 0 || total_weight(s) + w <= cap {
        s
    } else {
        evict(s.drop_first(), w, cap)
    }
}

/// The contents after `(k, v)` is put into a cache with contents `s` and
/// budget `cap`: any old pair for `k` is replaced, room is made by dropping
/// the oldest pairs, and the new pair becomes the most recent.
pub open spec fn inserted<K, V: Weighted>(s: Seq<(K, V)>, k: K, v: V, cap: nat) -> Seq<(K, V)> {
    evict(without_key(s, k), v.weight_spec() as nat, cap).push((k, v))
}

/// The value stored under `k` in `s`, if any.
pub open spec fn value_of<K, V>(s: Seq<(K, V)>, k: K) -> Option<V> {
    if has_key(s, k) {
        Some(s[position_of(s, k)].1)
    } else {
        None
    }
}

pub proof fn lemma_total_push<K, V: Weighted>(s: Seq<(K, V)>, x: (K, V))
    ensures
        total_weight(s.push(x)) == total_weight(s) + x.1.weight_spec(),
    decreases s.len(),
{
    if s.len() > 0 {
        assert(s.push(x).drop_first() =~= s.drop_first().push(x));
        lemma_total_push(s.drop_first(), x);
    } else {
        assert(s.push(x).drop_first() =~= s);
    }
}

pub proof fn lemma_total_remove<K, V: Weighted>(s: Seq<(K, V)>, i: int)
    requires
        0 <= i < s.len(),
    ensures
        total_weight(s.remove(i)) + s[i].1.weight_spec() == total_weight(s),
    decreases i,
{
    if i == 0 {
        assert(s.remove(0) =~= s.drop_first());
    } else {
        assert(s.remove(i).drop_first() =~= s.drop_first().remove(i - 1));
        lemma_total_remove(s.drop_first(), i - 1);
    }
}

pub proof fn lemma_position_unique<K, V>(s: Seq<(K, V)>, i: int)
    requires
        distinct_keys(s),
        0 <= i < s.len(),
    ensures
        has_key(s, s[i].0),
        position_of(s, s[i].0) == i,
{
    assert(has_key(s, s[i].0));
}

pub proof fn lemma_distinct_remove<K, V>(s: Seq<(K, V)>, i: int)
    requires
        distinct_keys(s),
        0 <= i < s.len(),
    ensures
        distinct_keys(s.remove(i)),
        !has_key(s.remove(i), s[i].0),
        forall|k: K| has_key(s.remove(i), k) ==> has_key(s, k),
{
    let r = s.remove(i);
    assert forall|a: int, b: int|
        0 <= a < r.len() && 0 <= b < r.len() && a != b implies #[trigger] r[a].0
        != #[trigger] r[b].0 by {
        let a2 = if a < i { a } else { a + 1 };
        let b2 = if b < i { b } else { b + 1 };
        assert(r[a] == s[a2] && r[b] == s[b2]);
    }
    assert forall|k: K| has_key(r, k) implies has_key(s, k) by {
        let a = choose|a: int| 0 <= a < r.len() && #[trigger] r[a].0 == k;
        let a2 = if a < i { a } else { a + 1 };
        assert(r[a] == s[a2]);
    }
    if has_key(r, s[i].0) {
        let a = choose|a: int| 0 <= a < r.len() && #[trigger] r[a].0 == s[i].0;
        let a2 = if a < i { a } else { a + 1 };
        assert(r[a] == s[a2]);
    }
}

/// Eviction drops the oldest pairs first, and no more of them than needed:
/// what remains is a suffix of `s` within the budget, and every longer
/// suffix would leave no room for the newcomer.
pub proof fn lemma_evict_oldest_first<K, V: Weighted>(s: Seq<(K, V)>, w: nat, cap: nat)
    requires
        w <= cap,
    ensures
        evict(s, w, cap).len() <= s.len(),
        evict(s, w, cap) == s.subrange(s.len() - evict(s, w, cap).len(), s.len() as int),
        total_weight(evict(s, w, cap)) + w <= cap,
        forall|m: int|
            0 <= m < s.len() - evict(s, w, cap).len() ==> total_weight(
                #[trigger] s.subrange(m, s.len() as int),
            ) + w > cap,
    decreases s.len(),
{
    let e = evict(s, w, cap);
    if s.len() == 0 || total_weight(s) + w <= cap {
        assert(s.subrange(0, s.len() as int) =~= s);
    } else {
        let t = s.drop_first();
        lemma_evict_oldest_first(t, w, cap);
        let n = s.len() - e.len();
        assert(t.subrange(t.len() - e.len(), t.len() as int) =~= s.subrange(n, s.len() as int));
        assert forall|m: int| 0 <= m < n implies total_weight(#[trigger] s.subrange(m, s.len() as int))
            + w > cap by {
            if m == 0 {
                assert(s.subrange(0, s.len() as int) =~= s);
            } else {
                assert(t.subrange(m - 1, t.len() as int) =~= s.subrange(m, s.len() as int));
            }
        }
    }
}

proof fn lemma_distinct_suffix<K, V>(s: Seq<(K, V)>, n: int, k: K)
    requires
        distinct_keys(s),
        !has_key(s, k),
        0 <= n <= s.len(),
    ensures
        distinct_keys(s.subrange(n, s.len() as int)),
        !has_key(s.subrange(n, s.len() as int), k),
{
    let r = s.subrange(n, s.len() as int);
    assert forall|a: int, b: int|
        0 <= a < r.len() && 0 <= b < r.len() && a != b implies #[trigger] r[a].0
        != #[trigger] r[b].0 by {
        assert(r[a] == s[a + n] && r[b] == s[b + n]);
    }
    if has_key(r, k) {
        let a = choose|a: int| 0 <= a < r.len() && #[trigger] r[a].0 == k;
        assert(r[a] == s[a + n]);
    }
}

/// After `(k, v)` is inserted, `k` is held exactly once, with the value
/// `v`, and it is the most recent entry: the last one eviction would take.
pub proof fn lemma_inserted_is_newest<K, V: Weighted>(s: Seq<(K, V)>, k: K, v: V, cap: nat)
    requires
        distinct_keys(s),
        v.weight_spec() <= cap,
    ensures
        distinct_keys(inserted(s, k, v, cap)),
        inserted(s, k, v, cap).last() == (k, v),
        has_key(inserted(s, k, v, cap), k),
        value_of(inserted(s, k, v, cap), k) == Some(v),
{
    let rest = without_key(s, k);
    if has_key(s, k) {
        let i = position_of(s, k);
        lemma_distinct_remove(s, i);
    }
    let w = v.weight_spec() as nat;
    lemma_evict_oldest_first(rest, w, cap);
    let e = evict(rest, w, cap);
    lemma_distinct_suffix(rest, rest.len() - e.len(), k);
    let r = e.push((k, v));
    assert forall|a: int, b: int|
        0 <= a < r.len() && 0 <= b < r.len() && a != b implies #[trigger] r[a].0
        != #[trigger] r[b].0 by {
        if a < e.len() && b < e.len() {
            assert(r[a] == e[a] && r[b] == e[b]);
        } else if a < e.len() {
            assert(r[a] == e[a]);
        } else {
            assert(r[b] == e[b]);
        }
    }
    lemma_position_unique(r, r.len() - 1);
}

} // verus!
