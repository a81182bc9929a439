//! The abstract model shared by every cache strategy.
//!
//! A cache state is a sequence of `(key, value)` pairs ordered from
//! most-recently-used to least-recently-used, with pairwise distinct keys.
//! The spec functions here say how one `put` or `get` call transforms that
//! sequence; the executable caches promise in their contracts to follow
//! these transitions exactly.

use vstd::prelude::*;

verus! {

/// True iff no key occurs twice in the recency sequence.
pub open spec fn distinct_keys<V>(m: Seq<(Seq<char>, V)>) -> bool {
    forall|i: int, j: int|
        0 <= i < j < m.len() ==> (#[trigger] m[i]).0 != (#[trigger] m[j]).0
}

/// True iff some entry of the recency sequence carries the key `k`.
pub open spec fn contains_key<V>(m: Seq<(Seq<char>, V)>, k: Seq<char>) -> bool {
    exists|i: int| 0 <= i < m.len() && (#[trigger] m[i]).0 == k
}

/// The position of the entry carrying `k`; meaningful only when
/// `contains_key(m, k)` holds and unique whenever the keys are distinct.
pub open spec fn key_pos<V>(m: Seq<(Seq<char>, V)>, k: Seq<char>) -> int {
    choose|i: int| 0 <= i < m.len() && (#[trigger] m[i]).0 == k
}

/// The value stored under `k`; meaningful only when `contains_key(m, k)`.
pub open spec fn stored_at<V>(m: Seq<(Seq<char>, V)>, k: Seq<char>) -> V {
    m[key_pos(m, k)].1
}

/// What a cache of capacity `cap` holds after `put(k, v)`:
/// an existing key is re-stamped as most recently used with its new value;
/// a new key is prepended, evicting the least-recently-used entry when the
/// cache is already full.
pub open spec fn after_put<V>(
    m: Seq<(Seq<char>, V)>,
    cap: nat,
    k: Seq<char>,
    v: V,
) -> Seq<(Seq<char>, V)> {
    if contains_key(m, k) {
        seq![(k, v)] + m.remove(key_pos(m, k))
    } else if m.len() < cap {
        seq![(k, v)] + m
    } else {
        seq![(k, v)] + m.drop_last()
    }
}

/// What `put(k, _)` returns: the previous value when `k` was present.
pub open spec fn put_returns<V>(m: Seq<(Seq<char>, V)>, k: Seq<char>) -> Option<V> {
    if contains_key(m, k) {
        Some(stored_at(m, k))
    } else {
        None
    }
}

/// What a cache holds after `get(k)`: a hit moves the entry to the front
/// unchanged, a miss leaves the cache as it was.
pub open spec fn after_get<V>(m: Seq<(Seq<char>, V)>, k: Seq<char>) -> Seq<(Seq<char>, V)> {
    if contains_key(m, k) {
        seq![m[key_pos(m, k)]] + m.remove(key_pos(m, k))
    } else {
        m
    }
}

/// True iff `r` lists each of the arena slots `0 .. n` exactly once.  The
/// caches keep such a sequence as the ghost recency ordering of their slots.
pub open spec fn is_ordering(r: Seq<int>, n: int) -> bool {
    &&& r.len() == n
    &&& forall|i: int| 0 <= i < n ==> 0 <= #[trigger] r[i] < n
    &&& forall|i: int, j: int| 0 <= i < j < n ==> r[i] != r[j]
    &&& forall|x: int| 0 <= x < n ==> r.contains(x)
}

/// The position of slot `x` in the ordering `r`; meaningful when `r`
/// contains `x`.
pub open spec fn pos_of(r: Seq<int>, x: int) -> int {
    choose|p: int| 0 <= p < r.len() && r[p] == x
}

/// In an ordering every slot has exactly one position.
pub proof fn lemma_pos_of(r: Seq<int>, n: int, x: int)
    requires
        is_ordering(r, n),
        0 <= x < n,
    ensures
        0 <= pos_of(r, x) < n,
        r[pos_of(r, x)] == x,
        forall|p: int| 0 <= p < n && r[p] == x ==> p == pos_of(r, x),
{
    assert(r.contains(x));
    let q = pos_of(r, x);
    assert(0 <= q < n && r[q] == x);
    assert forall|p: int| 0 <= p < n && r[p] == x implies p == q by {
        if p < q {
            assert(r[p] != r[q]);
        } else if q < p {
            assert(r[q] != r[p]);
        }
    }
}

/// Moving the element at position `p` to the front keeps an ordering an
/// ordering.
pub proof fn lemma_ordering_move_front(r: Seq<int>, n: int, p: int)
    requires
        is_ordering(r, n),
        0 <= p < n,
    ensures
        is_ordering(seq![r[p]] + r.remove(p), n),
{
    let s = seq![r[p]] + r.remove(p);
    assert(s.len() == n);
    assert forall|i: int| 0 <= i < n implies 0 <= #[trigger] s[i] < n by {
        if i == 0 {
        } else if i <= p {
            assert(s[i] == r[i - 1]);
        } else {
            assert(s[i] == r[i]);
        }
    }
    assert forall|i: int, j: int| 0 <= i < j < n implies s[i] != s[j] by {
        let oi: int = if i == 0 { p } else if i <= p { i - 1 } else { i };
        let oj: int = if j <= p { j - 1 } else { j };
        assert(s[i] == r[oi]);
        assert(s[j] == r[oj]);
        assert(oi != oj);
        if oi < oj {
            assert(r[oi] != r[oj]);
        } else {
            assert(r[oj] != r[oi]);
        }
    }
    assert forall|x: int| 0 <= x < n implies s.contains(x) by {
        let w = choose|w: int| 0 <= w < n && r[w] == x;
        assert(r.contains(x));
        assert(0 <= w < n && r[w] == x);
        if w == p {
            assert(s[0] == x);
        } else if w < p {
            assert(s[w + 1] == r[w]);
            assert(s[w + 1] == x);
        } else {
            assert(s[w] == r[w]);
            assert(s[w] == x);
        }
    }
}

/// Prepending the fresh slot `n` extends an ordering of `n` slots to one of
/// `n + 1` slots.
pub proof fn lemma_ordering_grow(r: Seq<int>, n: int)
    requires
        is_ordering(r, n),
        n >= 0,
    ensures
        is_ordering(seq![n] + r, n + 1),
{
    let s = seq![n] + r;
    assert(s.len() == n + 1);
    assert forall|i: int| 0 <= i < n + 1 implies 0 <= #[trigger] s[i] < n + 1 by {
        if i > 0 {
            assert(s[i] == r[i - 1]);
        }
    }
    assert forall|i: int, j: int| 0 <= i < j < n + 1 implies s[i] != s[j] by {
        if i == 0 {
            assert(s[j] == r[j - 1] && r[j - 1] < n);
        } else {
            assert(s[i] == r[i - 1] && s[j] == r[j - 1]);
            assert(r[i - 1] != r[j - 1]);
        }
    }
    assert forall|x: int| 0 <= x < n + 1 implies s.contains(x) by {
        if x == n {
            assert(s[0] == x);
        } else {
            assert(r.contains(x));
            let w = choose|w: int| 0 <= w < r.len() && r[w] == x;
            assert(s[w + 1] == x);
        }
    }
}

/// Removing the last-ordered slot `j` by a swap-remove — the store moves
/// its last slot `n - 1` into `j` — leaves an ordering of `n - 1` slots
/// once the moved slot is renamed.
pub proof fn lemma_ordering_swap_remove(r: Seq<int>, n: int, j: int)
    requires
        is_ordering(r, n),
        n >= 1,
        r[n - 1] == j,
    ensures
        is_ordering(
            r.drop_last().map_values(|x: int| if x == n - 1 { j } else { x }),
            n - 1,
        ),
{
    let s = r.drop_last().map_values(|x: int| if x == n - 1 { j } else { x });
    assert(s.len() == n - 1);
    assert forall|q: int| 0 <= q < n - 1 implies 0 <= #[trigger] s[q] < n - 1 by {
        assert(r[q] != r[n - 1]);
        if r[q] == n - 1 {
            assert(s[q] == j);
            assert(j != n - 1);
        } else {
            assert(s[q] == r[q]);
        }
    }
    assert forall|q1: int, q2: int| 0 <= q1 < q2 < n - 1 implies s[q1] != s[q2] by {
        assert(r[q1] != r[q2]);
        assert(r[q1] != r[n - 1] && r[q2] != r[n - 1]);
        if r[q1] == n - 1 {
            assert(s[q1] == j && s[q2] == r[q2]);
        } else if r[q2] == n - 1 {
            assert(s[q2] == j && s[q1] == r[q1]);
        }
    }
    assert forall|y: int| 0 <= y < n - 1 implies s.contains(y) by {
        if y == j {
            assert(r.contains(n - 1));
            let w = choose|w: int| 0 <= w < n && r[w] == n - 1;
            assert(w != n - 1);
            assert(s[w] == j);
        } else {
            assert(r.contains(y));
            let w = choose|w: int| 0 <= w < n && r[w] == y;
            assert(w != n - 1);
            assert(s[w] == y);
        }
    }
}

/// With distinct keys the entry carrying `k` is unique, so every index that
/// carries `k` is `key_pos(m, k)`.
pub proof fn lemma_key_pos_unique<V>(m: Seq<(Seq<char>, V)>, k: Seq<char>, i: int)
    requires
        distinct_keys(m),
        0 <= i < m.len(),
        m[i].0 == k,
    ensures
        contains_key(m, k),
        key_pos(m, k) == i,
{
    assert(contains_key(m, k));
    let p = key_pos(m, k);
    assert(0 <= p < m.len() && m[p].0 == k);
    if p != i {
        if p < i {
            assert(m[p].0 != m[i].0);
        } else {
            assert(m[i].0 != m[p].0);
        }
    }
}

} // verus!
