//! The recency order as a doubly linked list over arena indices.
//!
//! `o` lists arena indices from the least to the most recently inserted
//! entry; `prev` and `next` hold each entry's neighbours in that order, and
//! `oldest` and `newest` its two ends.
use vstd::prelude::*;

verus! {

pub open spec fn link(o: Seq<int>, p: int) -> Option<usize> {
    if 0 <= p < o.len() {
        Some(o[p] as usize)
    } else {
        None
    }
}

/// Arena index `x` occurs in `o`.
pub open spec fn listed(o: Seq<int>, x: int) -> bool {
    exists|p: int| 0 <= p < o.len() && o[p] == x
}

/// `prev`, `next`, `oldest` and `newest` describe the order `o` over an
/// arena of `prev.len()` slots.
#[verifier::opaque]
pub open spec fn linked(
    o: Seq<int>,
    prev: Seq<Option<usize>>,
    next: Seq<Option<usize>>,
    oldest: Option<usize>,
    newest: Option<usize>,
) -> bool {
    &&& next.len() == prev.len()
    &&& prev.len() <= usize::MAX
    &&& forall|p: int| 0 <= p < o.len() ==> 0 <= #[trigger] o[p] < prev.len()
    &&& forall|p: int, q: int|
        0 <= p < o.len() && 0 <= q < o.len() && p != q ==> #[trigger] o[p] != #[trigger] o[q]
    &&& forall|p: int| 0 <= p < o.len() ==> prev[#[trigger] o[p]] == link(o, p - 1)
    &&& forall|p: int| 0 <= p < o.len() ==> next[#[trigger] o[p]] == link(o, p + 1)
    &&& oldest == link(o, 0)
    &&& newest == link(o, o.len() - 1)
}

/// Every slot of an arena of `n` slots occurs in `o`, and `o` has `n`
/// elements.
#[verifier::opaque]
pub open spec fn covers(o: Seq<int>, n: int) -> bool {
    &&& o.len() == n
    &&& forall|x: int| 0 <= x < n ==> #[trigger] listed(o, x)
}

/// `next` once the entry at position `p` is spliced out.
pub open spec fn unlinked_next(o: Seq<int>, next: Seq<Option<usize>>, p: int) -> Seq<Option<usize>> {
    if p > 0 {
        next.update(o[p - 1], next[o[p]])
    } else {
        next
    }
}

/// `prev` once the entry at position `p` is spliced out.
pub open spec fn unlinked_prev(o: Seq<int>, prev: Seq<Option<usize>>, p: int) -> Seq<Option<usize>> {
    if p < o.len() - 1 {
        prev.update(o[p + 1], prev[o[p]])
    } else {
        prev
    }
}

proof fn lemma_unlink_order(o: Seq<int>, n: int, p: int)
    requires
        forall|q: int| 0 <= q < o.len() ==> 0 <= #[trigger] o[q] < n,
        forall|a: int, b: int|
            0 <= a < o.len() && 0 <= b < o.len() && a != b ==> #[trigger] o[a] != #[trigger] o[b],
        0 <= p < o.len(),
    ensures
        forall|q: int| 0 <= q < o.remove(p).len() ==> 0 <= #[trigger] o.remove(p)[q] < n,
        forall|a: int, b: int|
            0 <= a < o.remove(p).len() && 0 <= b < o.remove(p).len() && a != b
                ==> #[trigger] o.remove(p)[a] != #[trigger] o.remove(p)[b],
        !listed(o.remove(p), o[p]),
        forall|x: int| x != o[p] && listed(o, x) ==> #[trigger] listed(o.remove(p), x),
{
    let r = o.remove(p);
    assert forall|q: int| 0 <= q < r.len() implies 0 <= #[trigger] r[q] < n by {
        if q >= p {
            assert(r[q] == o[q + 1]);
        }
    }
    assert forall|a: int, b: int| 0 <= a < r.len() && 0 <= b < r.len() && a != b implies #[trigger] r[a]
        != #[trigger] r[b] by {
        let a2 = if a < p { a } else { a + 1 };
        let b2 = if b < p { b } else { b + 1 };
        assert(r[a] == o[a2] && r[b] == o[b2]);
    }
    if listed(r, o[p]) {
        let a = choose|a: int| 0 <= a < r.len() && r[a] == o[p];
        let a2 = if a < p { a } else { a + 1 };
        assert(r[a] == o[a2]);
    }
    assert forall|x: int| x != o[p] && listed(o, x) implies #[trigger] listed(r, x) by {
        let a = choose|a: int| 0 <= a < o.len() && o[a] == x;
        if a < p {
            assert(r[a] == o[a]);
        } else {
            assert(r[a - 1] == o[a]);
        }
    }
}

#[verifier::rlimit(40)]
proof fn lemma_unlink_prev(o: Seq<int>, prev: Seq<Option<usize>>, p: int)
    requires
        forall|q: int| 0 <= q < o.len() ==> 0 <= #[trigger] o[q] < prev.len(),
        forall|a: int, b: int|
            0 <= a < o.len() && 0 <= b < o.len() && a != b ==> #[trigger] o[a] != #[trigger] o[b],
        forall|q: int| 0 <= q < o.len() ==> prev[#[trigger] o[q]] == link(o, q - 1),
        0 <= p < o.len(),
    ensures
        forall|q: int|
            0 <= q < o.remove(p).len() ==> unlinked_prev(o, prev, p)[#[trigger] o.remove(p)[q]]
                == link(o.remove(p), q - 1),
{
    let r = o.remove(p);
    let np = unlinked_prev(o, prev, p);
    assert forall|q: int| 0 <= q < r.len() implies np[#[trigger] r[q]] == link(r, q - 1) by {
        let q2 = if q < p { q } else { q + 1 };
        assert(r[q] == o[q2]);
        assert(prev[o[q2]] == link(o, q2 - 1));
        if q > 0 {
            let q3 = if q - 1 < p { q - 1 } else { q };
            assert(r[q - 1] == o[q3]);
        }
        if p < o.len() - 1 && q == p {
            assert(prev[o[p]] == link(o, p - 1));
            assert(np[o[p + 1]] == prev[o[p]]);
        } else if p < o.len() - 1 {
            assert(o[q2] != o[p + 1]);
            assert(np[o[q2]] == prev[o[q2]]);
        }
    }
}

#[verifier::rlimit(40)]
proof fn lemma_unlink_next(o: Seq<int>, next: Seq<Option<usize>>, p: int)
    requires
        forall|q: int| 0 <= q < o.len() ==> 0 <= #[trigger] o[q] < next.len(),
        forall|a: int, b: int|
            0 <= a < o.len() && 0 <= b < o.len() && a != b ==> #[trigger] o[a] != #[trigger] o[b],
        forall|q: int| 0 <= q < o.len() ==> next[#[trigger] o[q]] == link(o, q + 1),
        0 <= p < o.len(),
    ensures
        forall|q: int|
            0 <= q < o.remove(p).len() ==> unlinked_next(o, next, p)[#[trigger] o.remove(p)[q]]
                == link(o.remove(p), q + 1),
{
    let r = o.remove(p);
    let nn = unlinked_next(o, next, p);
    assert forall|q: int| 0 <= q < r.len() implies nn[#[trigger] r[q]] == link(r, q + 1) by {
        let q2 = if q < p { q } else { q + 1 };
        assert(r[q] == o[q2]);
        assert(next[o[q2]] == link(o, q2 + 1));
        if q + 1 < r.len() {
            let q3 = if q + 1 < p { q + 1 } else { q + 2 };
            assert(r[q + 1] == o[q3]);
        }
        if p > 0 && q == p - 1 {
            assert(next[o[p]] == link(o, p + 1));
            assert(nn[o[p - 1]] == next[o[p]]);
        } else if p > 0 {
            assert(o[q2] != o[p - 1]);
            assert(nn[o[q2]] == next[o[q2]]);
        }
    }
}

/// Splicing out the entry at position `p` leaves a list of the other
/// entries, in the same order.
pub proof fn lemma_unlink(
    o: Seq<int>,
    prev: Seq<Option<usize>>,
    next: Seq<Option<usize>>,
    oldest: Option<usize>,
    newest: Option<usize>,
    p: int,
)
    requires
        linked(o, prev, next, oldest, newest),
        0 <= p < o.len(),
    ensures
        linked(
            o.remove(p),
            unlinked_prev(o, prev, p),
            unlinked_next(o, next, p),
            if p == 0 { next[o[p]] } else { oldest },
            if p == o.len() - 1 { prev[o[p]] } else { newest },
        ),
        !listed(o.remove(p), o[p]),
        forall|x: int| x != o[p] && listed(o, x) ==> #[trigger] listed(o.remove(p), x),
{
    reveal(linked);
    reveal(covers);
    let r = o.remove(p);
    lemma_unlink_order(o, prev.len() as int, p);
    lemma_unlink_prev(o, prev, p);
    lemma_unlink_next(o, next, p);
    if r.len() > 0 {
        assert(r[0] == if p == 0 { o[1] } else { o[0] });
        assert(r[r.len() - 1] == if p == o.len() - 1 { o[o.len() - 2] } else { o[o.len() - 1] });
    }
}

/// `o` with arena index `from` renamed `to`.
pub open spec fn relabel(o: Seq<int>, from: int, to: int) -> Seq<int> {
    o.map_values(|x: int| if x == from { to } else { x })
}

/// `s` after `swap_remove(j)`: the last slot moves into slot `j`.
pub open spec fn moved<T>(s: Seq<T>, j: int) -> Seq<T> {
    s.update(j, s.last()).drop_last()
}

/// `s` with the link at `at`, if any, pointed to `j`.
pub open spec fn repoint(s: Seq<Option<usize>>, at: Option<usize>, j: int) -> Seq<Option<usize>> {
    match at {
        Some(a) => s.update(a as int, Some(j as usize)),
        None => s,
    }
}

#[verifier::rlimit(40)]
proof fn lemma_move_prev(o: Seq<int>, prev: Seq<Option<usize>>, next: Seq<Option<usize>>, j: int, q: int)
    requires
        next.len() == prev.len(),
        prev.len() <= usize::MAX,
        forall|r: int| 0 <= r < o.len() ==> 0 <= #[trigger] o[r] < prev.len(),
        forall|a: int, b: int|
            0 <= a < o.len() && 0 <= b < o.len() && a != b ==> #[trigger] o[a] != #[trigger] o[b],
        forall|r: int| 0 <= r < o.len() ==> prev[#[trigger] o[r]] == link(o, r - 1),
        forall|r: int| 0 <= r < o.len() ==> next[#[trigger] o[r]] == link(o, r + 1),
        0 <= j < prev.len() - 1,
        !listed(o, j),
        0 <= q < o.len(),
        o[q] == prev.len() - 1,
    ensures
        ({
            let o2 = relabel(o, prev.len() - 1, j);
            let p3 = repoint(moved(prev, j), moved(next, j)[j], j);
            forall|r: int| 0 <= r < o2.len() ==> p3[#[trigger] o2[r]] == link(o2, r - 1)
        }),
{
    let m = prev.len() - 1;
    let o2 = relabel(o, m, j);
    let p2 = moved(prev, j);
    let n2 = moved(next, j);
    let p3 = repoint(p2, n2[j], j);
    assert(p2[j] == prev[m]);
    assert(n2[j] == next[m]);
    assert forall|r: int| 0 <= r < o2.len() implies p3[#[trigger] o2[r]] == link(o2, r - 1) by {
        assert(prev[o[r]] == link(o, r - 1));
        assert(o2[r] == if o[r] == m { j } else { o[r] });
        if r > 0 {
            assert(o2[r - 1] == if o[r - 1] == m { j } else { o[r - 1] });
        }
        if r == q {
            assert(o2[r] == j);
            if q > 0 {
                assert(o[q - 1] != o[q]);
            }
            if q + 1 < o.len() {
                assert(o[q + 1] != j);
                assert((o[q + 1] as usize) as int == o[q + 1]);
            }
            assert(p3[j] == p2[j]);
        } else if r == q + 1 {
            assert(o[r] != o[q]);
            assert(o2[q] == j);
            assert(n2[j] == Some(o[r] as usize));
            assert(p3[o[r]] == Some(j as usize));
        } else {
            assert(o[r] != o[q]);
            assert(o[r] != j);
            if r > 0 {
                assert(o[r - 1] != o[q]);
            }
            if q + 1 < o.len() {
                assert(o[q + 1] != o[r]);
                assert((o[q + 1] as usize) as int == o[q + 1]);
            }
            assert(p2[o[r]] == prev[o[r]]);
        }
    }
}

#[verifier::rlimit(40)]
proof fn lemma_move_next(o: Seq<int>, prev: Seq<Option<usize>>, next: Seq<Option<usize>>, j: int, q: int)
    requires
        next.len() == prev.len(),
        prev.len() <= usize::MAX,
        forall|r: int| 0 <= r < o.len() ==> 0 <= #[trigger] o[r] < prev.len(),
        forall|a: int, b: int|
            0 <= a < o.len() && 0 <= b < o.len() && a != b ==> #[trigger] o[a] != #[trigger] o[b],
        forall|r: int| 0 <= r < o.len() ==> prev[#[trigger] o[r]] == link(o, r - 1),
        forall|r: int| 0 <= r < o.len() ==> next[#[trigger] o[r]] == link(o, r + 1),
        0 <= j < prev.len() - 1,
        !listed(o, j),
        0 <= q < o.len(),
        o[q] == prev.len() - 1,
    ensures
        ({
            let o2 = relabel(o, prev.len() - 1, j);
            let n3 = repoint(moved(next, j), moved(prev, j)[j], j);
            forall|r: int| 0 <= r < o2.len() ==> n3[#[trigger] o2[r]] == link(o2, r + 1)
        }),
{
    let m = prev.len() - 1;
    let o2 = relabel(o, m, j);
    let p2 = moved(prev, j);
    let n2 = moved(next, j);
    let n3 = repoint(n2, p2[j], j);
    assert(p2[j] == prev[m]);
    assert(n2[j] == next[m]);
    assert forall|r: int| 0 <= r < o2.len() implies n3[#[trigger] o2[r]] == link(o2, r + 1) by {
        assert(next[o[r]] == link(o, r + 1));
        assert(o2[r] == if o[r] == m { j } else { o[r] });
        if r + 1 < o2.len() {
            assert(o2[r + 1] == if o[r + 1] == m { j } else { o[r + 1] });
        }
        if r == q {
            assert(o2[r] == j);
            if q + 1 < o.len() {
                assert(o[q + 1] != o[q]);
            }
            if q > 0 {
                assert(o[q - 1] != j);
                assert((o[q - 1] as usize) as int == o[q - 1]);
            }
            assert(n3[j] == n2[j]);
        } else if r == q - 1 {
            assert(o[r] != o[q]);
            assert(o2[q] == j);
            assert(p2[j] == Some(o[r] as usize));
            assert(n3[o[r]] == Some(j as usize));
        } else {
            assert(o[r] != o[q]);
            assert(o[r] != j);
            if r + 1 < o.len() {
                assert(o[r + 1] != o[q]);
            }
            if q > 0 {
                assert(o[q - 1] != o[r]);
                assert((o[q - 1] as usize) as int == o[q - 1]);
            }
            assert(n2[o[r]] == next[o[r]]);
        }
    }
}

proof fn lemma_moved_neighbours(o: Seq<int>, prev: Seq<Option<usize>>, next: Seq<Option<usize>>, j: int, q: int)
    requires
        next.len() == prev.len(),
        prev.len() <= usize::MAX,
        forall|r: int| 0 <= r < o.len() ==> 0 <= #[trigger] o[r] < prev.len(),
        forall|a: int, b: int|
            0 <= a < o.len() && 0 <= b < o.len() && a != b ==> #[trigger] o[a] != #[trigger] o[b],
        forall|r: int| 0 <= r < o.len() ==> prev[#[trigger] o[r]] == link(o, r - 1),
        forall|r: int| 0 <= r < o.len() ==> next[#[trigger] o[r]] == link(o, r + 1),
        0 <= j < prev.len() - 1,
        !listed(o, j),
        0 <= q < o.len(),
        o[q] == prev.len() - 1,
    ensures
        moved(prev, j)[j] matches Some(a) ==> a < prev.len() - 1,
        moved(next, j)[j] matches Some(b) ==> b < prev.len() - 1,
{
    let m = prev.len() - 1;
    assert(moved(prev, j)[j] == prev[m]);
    assert(moved(next, j)[j] == next[m]);
    assert(prev[o[q]] == link(o, q - 1));
    assert(next[o[q]] == link(o, q + 1));
    if q > 0 {
        assert(o[q - 1] != o[q]);
    }
    if q + 1 < o.len() {
        assert(o[q + 1] != o[q]);
    }
}

/// Moving the last arena slot into the free slot `j`, and pointing its
/// neighbours at `j`, keeps the list of the same entries in the same order.
#[verifier::rlimit(60)]
pub proof fn lemma_move_last(
    o: Seq<int>,
    prev: Seq<Option<usize>>,
    next: Seq<Option<usize>>,
    oldest: Option<usize>,
    newest: Option<usize>,
    j: int,
)
    requires
        linked(o, prev, next, oldest, newest),
        0 <= j < prev.len(),
        !listed(o, j),
        o.len() == prev.len() - 1,
        forall|x: int| 0 <= x < prev.len() && x != j ==> #[trigger] listed(o, x),
    ensures
        j == prev.len() - 1 ==> {
            &&& linked(o, prev.drop_last(), next.drop_last(), oldest, newest)
            &&& covers(o, prev.len() - 1)
        },
        j < prev.len() - 1 ==> {
            let o2 = relabel(o, prev.len() - 1, j);
            let p2 = moved(prev, j);
            let n2 = moved(next, j);
            &&& linked(
                o2,
                repoint(p2, n2[j], j),
                repoint(n2, p2[j], j),
                if p2[j] is None { Some(j as usize) } else { oldest },
                if n2[j] is None { Some(j as usize) } else { newest },
            )
            &&& covers(o2, prev.len() - 1)
            &&& (p2[j] matches Some(a) ==> a < prev.len() - 1)
            &&& (n2[j] matches Some(b) ==> b < prev.len() - 1)
        },
{
    reveal(linked);
    reveal(covers);
    let m = prev.len() - 1;
    if j == m {
        assert forall|r: int| 0 <= r < o.len() implies 0 <= #[trigger] o[r] < m by {
            if o[r] == m {
                assert(listed(o, j));
            }
        }
        assert forall|x: int| 0 <= x < m implies #[trigger] listed(o, x) by {
            assert(listed(o, x));
        }
    } else {
        assert(listed(o, m));
        let q = choose|q: int| 0 <= q < o.len() && o[q] == m;
        let o2 = relabel(o, m, j);
        let p2 = moved(prev, j);
        let n2 = moved(next, j);
        lemma_move_prev(o, prev, next, j, q);
        lemma_move_next(o, prev, next, j, q);
        assert forall|r: int| 0 <= r < o2.len() implies 0 <= #[trigger] o2[r] < m by {
            assert(o2[r] == if o[r] == m { j } else { o[r] });
        }
        assert forall|a: int, b: int|
            0 <= a < o2.len() && 0 <= b < o2.len() && a != b implies #[trigger] o2[a]
            != #[trigger] o2[b] by {
            assert(o2[a] == if o[a] == m { j } else { o[a] });
            assert(o2[b] == if o[b] == m { j } else { o[b] });
            if o[a] == j {
                assert(listed(o, j));
            }
            if o[b] == j {
                assert(listed(o, j));
            }
        }
        assert(p2[j] == prev[m]);
        assert(n2[j] == next[m]);
        lemma_moved_neighbours(o, prev, next, j, q);
        if o2.len() > 0 {
            assert(o2[0] == if o[0] == m { j } else { o[0] });
            assert(o2[o2.len() - 1] == if o[o.len() - 1] == m { j } else { o[o.len() - 1] });
        }
        assert forall|x: int| 0 <= x < m implies #[trigger] listed(o2, x) by {
            if x == j {
                assert(o2[q] == j);
            } else {
                assert(listed(o, x));
                let a = choose|a: int| 0 <= a < o.len() && o[a] == x;
                assert(o2[a] == x);
            }
        }
    }
}

/// `next` once a new last entry at slot `n` follows `newest`.
pub open spec fn appended_next(next: Seq<Option<usize>>, newest: Option<usize>, n: int) -> Seq<
    Option<usize>,
> {
    repoint(next, newest, n).push(None)
}

/// Appending arena slot `n` as the most recent entry.
pub proof fn lemma_append(
    o: Seq<int>,
    prev: Seq<Option<usize>>,
    next: Seq<Option<usize>>,
    oldest: Option<usize>,
    newest: Option<usize>,
)
    requires
        linked(o, prev, next, oldest, newest),
        covers(o, prev.len() as int),
        prev.len() < usize::MAX,
    ensures
        ({
            let n = prev.len() as int;
            &&& linked(
                o.push(n),
                prev.push(newest),
                appended_next(next, newest, n),
                if oldest is None { Some(n as usize) } else { oldest },
                Some(n as usize),
            )
            &&& covers(o.push(n), n + 1)
            &&& forall|x: int| listed(o, x) ==> #[trigger] listed(o.push(n), x)
        }),
{
    reveal(linked);
    reveal(covers);
    let n = prev.len() as int;
    let o2 = o.push(n);
    let p2 = prev.push(newest);
    let n2 = appended_next(next, newest, n);
    assert forall|a: int, b: int|
        0 <= a < o2.len() && 0 <= b < o2.len() && a != b implies #[trigger] o2[a]
        != #[trigger] o2[b] by {
        if a < o.len() {
            assert(o2[a] == o[a]);
        }
        if b < o.len() {
            assert(o2[b] == o[b]);
        }
    }
    assert forall|r: int| 0 <= r < o2.len() implies 0 <= #[trigger] o2[r] < p2.len() by {
        if r < o.len() {
            assert(o2[r] == o[r]);
        }
    }
    assert forall|r: int| 0 <= r < o2.len() implies p2[#[trigger] o2[r]] == link(o2, r - 1) by {
        if r < o.len() {
            assert(o2[r] == o[r]);
            assert(prev[o[r]] == link(o, r - 1));
            if r > 0 {
                assert(o2[r - 1] == o[r - 1]);
            }
        } else if r > 0 {
            assert(o2[r - 1] == o[r - 1]);
        }
    }
    assert forall|r: int| 0 <= r < o2.len() implies n2[#[trigger] o2[r]] == link(o2, r + 1) by {
        if r < o.len() {
            assert(o2[r] == o[r]);
            assert(next[o[r]] == link(o, r + 1));
            if r + 1 < o.len() {
                assert(o2[r + 1] == o[r + 1]);
                assert(o[r] != o[o.len() - 1]);
            }
            if o.len() > 0 {
                assert((o[o.len() - 1] as usize) as int == o[o.len() - 1]);
            }
        }
    }
    if o.len() > 0 {
        assert(o2[0] == o[0]);
    }
    assert forall|x: int| listed(o, x) implies #[trigger] listed(o2, x) by {
        let a = choose|a: int| 0 <= a < o.len() && o[a] == x;
        assert(o2[a] == x);
    }
    assert forall|x: int| 0 <= x < n + 1 implies #[trigger] listed(o2, x) by {
        if x == n {
            assert(o2[o.len() as int] == n);
        } else {
            assert(listed(o, x));
        }
    }
}

/// What the list says of the entry at position `p`, and of its ends.
pub proof fn lemma_linked_facts(
    o: Seq<int>,
    prev: Seq<Option<usize>>,
    next: Seq<Option<usize>>,
    oldest: Option<usize>,
    newest: Option<usize>,
    p: int,
)
    requires
        linked(o, prev, next, oldest, newest),
    ensures
        oldest == link(o, 0),
        newest == link(o, o.len() - 1),
        next.len() == prev.len(),
        prev.len() <= usize::MAX,
        0 <= p < o.len() ==> {
            &&& 0 <= o[p] < prev.len()
            &&& next[o[p]] == link(o, p + 1)
            &&& prev[o[p]] == link(o, p - 1)
        },
        forall|q: int| 0 <= q < o.len() ==> 0 <= #[trigger] o[q] < prev.len(),
        forall|a: int, b: int|
            0 <= a < o.len() && 0 <= b < o.len() && a != b ==> #[trigger] o[a] != #[trigger] o[b],
{
    reveal(linked);
}

/// An empty list over an empty arena.
pub proof fn lemma_empty()
    ensures
        linked(Seq::empty(), Seq::empty(), Seq::empty(), None, None),
        covers(Seq::empty(), 0),
{
    reveal(linked);
    reveal(covers);
}

/// Every slot of a covered arena occurs in the order.
pub proof fn lemma_covers_listed(o: Seq<int>, n: int, x: int)
    requires
        covers(o, n),
        0 <= x < n,
    ensures
        listed(o, x),
        o.len() == n,
{
    reveal(covers);
}

} // verus!
