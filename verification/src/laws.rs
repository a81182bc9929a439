//! Laws of the least-recently-used discipline.
//!
//! The proofs here are stated over the abstract transitions of
//! [`crate::model`].  Because every cache method promises in its contract
//! to follow those transitions exactly, each law carries over to any run
//! of executable `put`, `get` and `clear` calls on either strategy.

use vstd::prelude::*;

use crate::model::after_get;
use crate::model::after_put;
use crate::model::contains_key;
use crate::model::distinct_keys;
use crate::model::key_pos;
use crate::model::lemma_key_pos_unique;
use crate::model::put_returns;
use crate::model::stored_at;
use crate::Lru;

verus! {

/// The state after a whole train of `put` calls, first one first.
pub open spec fn after_puts<V>(
    m: Seq<(Seq<char>, V)>,
    cap: nat,
    ks: Seq<(Seq<char>, V)>,
) -> Seq<(Seq<char>, V)>
    decreases ks.len(),
{
    if ks.len() == 0 {
        m
    } else {
        after_puts(after_put(m, cap, ks[0].0, ks[0].1), cap, ks.drop_first())
    }
}

/// Law: a cache within its capacity stays within it across any `put`;
/// applied after every call of the contracts, this bounds `len()` by the
/// capacity over every sequence of `put` calls.
pub proof fn lemma_put_capacity_bound<V>(m: Seq<(Seq<char>, V)>, cap: nat, k: Seq<char>, v: V)
    requires
        m.len() <= cap,
        cap >= 1,
    ensures
        after_put(m, cap, k, v).len() <= cap,
{
    if contains_key(m, k) {
        let p = key_pos(m, k);
        assert(0 <= p < m.len());
    }
}

/// Law: a well-formed cache never holds more entries than its capacity —
/// the invariant form of the capacity bound, available after every call.
pub proof fn lemma_cache_within_capacity<V, C: Lru<V>>(c: &C)
    requires
        c.inv(),
    ensures
        c.entries().len() <= c.cap(),
{
    c.entries_wf();
}

/// A `put` keeps the keys pairwise distinct and the length within the
/// capacity.
pub proof fn lemma_put_keeps_distinct<V>(m: Seq<(Seq<char>, V)>, cap: nat, k: Seq<char>, v: V)
    requires
        distinct_keys(m),
        m.len() <= cap,
        cap >= 1,
    ensures
        distinct_keys(after_put(m, cap, k, v)),
        after_put(m, cap, k, v).len() <= cap,
        contains_key(after_put(m, cap, k, v), k),
        key_pos(after_put(m, cap, k, v), k) == 0,
        stored_at(after_put(m, cap, k, v), k) == v,
{
    let m2 = after_put(m, cap, k, v);
    if contains_key(m, k) {
        let p = key_pos(m, k);
        assert(0 <= p < m.len());
        assert forall|i: int, j: int|
            0 <= i < j < m2.len() implies (#[trigger] m2[i]).0 != (#[trigger] m2[j]).0 by {
            if i == 0 {
                let oj: int = if j <= p { j - 1 } else { j };
                assert(m2[j] == m[oj]);
                if m[oj].0 == k {
                    lemma_key_pos_unique(m, k, oj);
                }
            } else {
                let oi: int = if i <= p { i - 1 } else { i };
                let oj: int = if j <= p { j - 1 } else { j };
                assert(m2[i] == m[oi] && m2[j] == m[oj]);
                assert(m[oi].0 != m[oj].0);
            }
        }
    } else if m.len() < cap {
        assert forall|i: int, j: int|
            0 <= i < j < m2.len() implies (#[trigger] m2[i]).0 != (#[trigger] m2[j]).0 by {
            if i == 0 {
                assert(m2[j] == m[j - 1]);
                if m[j - 1].0 == k {
                    assert(contains_key(m, k));
                }
            } else {
                assert(m2[i] == m[i - 1] && m2[j] == m[j - 1]);
            }
        }
    } else {
        assert forall|i: int, j: int|
            0 <= i < j < m2.len() implies (#[trigger] m2[i]).0 != (#[trigger] m2[j]).0 by {
            if i == 0 {
                assert(m2[j] == m[j - 1]);
                if m[j - 1].0 == k {
                    assert(contains_key(m, k));
                }
            } else {
                assert(m2[i] == m[i - 1] && m2[j] == m[j - 1]);
            }
        }
    }
    assert(m2[0] == (k, v));
    lemma_key_pos_unique(m2, k, 0);
}

/// Law: filling the `(capacity + 1)`-th distinct key into a full cache
/// evicts exactly the least-recently-used key — the last of the recency
/// order — and keeps every other key.
pub proof fn lemma_eviction_removes_least_recent<V>(
    m: Seq<(Seq<char>, V)>,
    cap: nat,
    k: Seq<char>,
    v: V,
)
    requires
        distinct_keys(m),
        m.len() == cap,
        cap >= 1,
        !contains_key(m, k),
    ensures
        ({
            let m2 = after_put(m, cap, k, v);
            &&& m2.len() == cap
            &&& contains_key(m2, k)
            &&& !contains_key(m2, m.last().0)
            &&& forall|i: int| 0 <= i < m.len() - 1 ==> contains_key(m2, (#[trigger] m[i]).0)
        }),
{
    let m2 = after_put(m, cap, k, v);
    assert(m2 == seq![(k, v)] + m.drop_last());
    assert(m2[0].0 == k);
    assert(contains_key(m2, k));
    let lk = m.last().0;
    assert(m[m.len() - 1].0 == lk);
    if contains_key(m2, lk) {
        let q = choose|q: int| 0 <= q < m2.len() && (#[trigger] m2[q]).0 == lk;
        if q == 0 {
            assert(contains_key(m, k));
        } else {
            assert(m2[q] == m[q - 1]);
            assert(m[q - 1].0 != m[m.len() - 1].0);
        }
    }
    assert forall|i: int| 0 <= i < m.len() - 1 implies contains_key(m2, (#[trigger] m[i]).0) by {
        assert(m2[i + 1] == m[i]);
    }
}

/// A hit moves the entry with key `k` to the front and keeps the rest of
/// the cache, in order.
pub proof fn lemma_get_moves_front<V>(m: Seq<(Seq<char>, V)>, k: Seq<char>)
    requires
        distinct_keys(m),
        contains_key(m, k),
    ensures
        ({
            let m2 = after_get(m, k);
            &&& m2.len() == m.len()
            &&& distinct_keys(m2)
            &&& contains_key(m2, k)
            &&& key_pos(m2, k) == 0
            &&& stored_at(m2, k) == stored_at(m, k)
        }),
{
    let p = key_pos(m, k);
    assert(0 <= p < m.len());
    let m2 = after_get(m, k);
    assert(m2 == seq![m[p]] + m.remove(p));
    assert forall|i: int, j: int|
        0 <= i < j < m2.len() implies (#[trigger] m2[i]).0 != (#[trigger] m2[j]).0 by {
        let oi: int = if i == 0 { p } else if i <= p { i - 1 } else { i };
        let oj: int = if j <= p { j - 1 } else { j };
        assert(m2[i] == m[oi] && m2[j] == m[oj]);
        assert(oi != oj);
        if oi < oj {
            assert(m[oi].0 != m[oj].0);
        } else {
            assert(m[oj].0 != m[oi].0);
        }
    }
    assert(m2[0] == m[p]);
    lemma_key_pos_unique(m2, k, 0);
}

/// After one `put` of a key other than `k`, the entry carrying `k` moves
/// back by at most one place and keeps its value.
pub proof fn lemma_put_shifts_key<V>(
    m: Seq<(Seq<char>, V)>,
    cap: nat,
    k: Seq<char>,
    k2: Seq<char>,
    v2: V,
)
    requires
        distinct_keys(m),
        m.len() <= cap,
        cap >= 1,
        contains_key(m, k),
        k2 != k,
        key_pos(m, k) < cap - 1,
    ensures
        ({
            let m2 = after_put(m, cap, k2, v2);
            &&& contains_key(m2, k)
            &&& key_pos(m2, k) <= key_pos(m, k) + 1
            &&& stored_at(m2, k) == stored_at(m, k)
        }),
{
    let p = key_pos(m, k);
    assert(0 <= p < m.len() && m[p].0 == k);
    let m2 = after_put(m, cap, k2, v2);
    lemma_put_keeps_distinct(m, cap, k2, v2);
    if contains_key(m, k2) {
        let p2 = key_pos(m, k2);
        assert(m[p2].0 == k2);
        assert(p2 != p);
        if p < p2 {
            assert(m2[p + 1] == m.remove(p2)[p]);
            assert(m2[p + 1] == m[p]);
            lemma_key_pos_unique(m2, k, p + 1);
        } else {
            assert(m2[p] == m.remove(p2)[p - 1]);
            assert(m2[p] == m[p]);
            lemma_key_pos_unique(m2, k, p);
        }
    } else if m.len() < cap {
        assert(m2[p + 1] == m[p]);
        lemma_key_pos_unique(m2, k, p + 1);
    } else {
        assert(p < m.len() - 1);
        assert(m2[p + 1] == m.drop_last()[p]);
        assert(m2[p + 1] == m[p]);
        lemma_key_pos_unique(m2, k, p + 1);
    }
}

/// Key `k` survives a train of `put` calls while its distance from the
/// front leaves it ahead of the eviction point.
pub proof fn lemma_puts_keep_key<V>(
    m: Seq<(Seq<char>, V)>,
    cap: nat,
    k: Seq<char>,
    ks: Seq<(Seq<char>, V)>,
)
    requires
        distinct_keys(m),
        m.len() <= cap,
        cap >= 1,
        contains_key(m, k),
        forall|i: int| 0 <= i < ks.len() ==> (#[trigger] ks[i]).0 != k,
        key_pos(m, k) + ks.len() <= cap - 1,
    ensures
        contains_key(after_puts(m, cap, ks), k),
        stored_at(after_puts(m, cap, ks), k) == stored_at(m, k),
    decreases ks.len(),
{
    if ks.len() > 0 {
        let m1 = after_put(m, cap, ks[0].0, ks[0].1);
        lemma_put_shifts_key(m, cap, k, ks[0].0, ks[0].1);
        lemma_put_keeps_distinct(m, cap, ks[0].0, ks[0].1);
        assert forall|i: int|
            0 <= i < ks.drop_first().len() implies (#[trigger] ks.drop_first()[i]).0 != k by {
            assert(ks.drop_first()[i] == ks[i + 1]);
        }
        lemma_puts_keep_key(m1, cap, k, ks.drop_first());
    }
}

/// Law: after a hit on `k`, the next `capacity - 1` insertions of other
/// keys cannot evict `k`.
pub proof fn lemma_get_protects_key<V>(
    m: Seq<(Seq<char>, V)>,
    cap: nat,
    k: Seq<char>,
    ks: Seq<(Seq<char>, V)>,
)
    requires
        distinct_keys(m),
        m.len() <= cap,
        cap >= 1,
        contains_key(m, k),
        forall|i: int| 0 <= i < ks.len() ==> (#[trigger] ks[i]).0 != k,
        ks.len() <= cap - 1,
    ensures
        contains_key(after_puts(after_get(m, k), cap, ks), k),
        stored_at(after_puts(after_get(m, k), cap, ks), k) == stored_at(m, k),
{
    lemma_get_moves_front(m, k);
    lemma_puts_keep_key(after_get(m, k), cap, k, ks);
}

/// Law: a `put` on an existing key returns the previous value, keeps the
/// length, moves the key to the front with its new value, and leaves
/// every other entry's value in place.
pub proof fn lemma_put_update_semantics<V>(m: Seq<(Seq<char>, V)>, cap: nat, k: Seq<char>, v: V)
    requires
        distinct_keys(m),
        m.len() <= cap,
        cap >= 1,
        contains_key(m, k),
    ensures
        ({
            let m2 = after_put(m, cap, k, v);
            &&& put_returns(m, k) == Some(stored_at(m, k))
            &&& m2.len() == m.len()
            &&& key_pos(m2, k) == 0
            &&& stored_at(m2, k) == v
            &&& forall|k2: Seq<char>|
                contains_key(m, k2) && k2 != k ==> #[trigger] contains_key(m2, k2)
                    && stored_at(m2, k2) == stored_at(m, k2)
        }),
{
    let p = key_pos(m, k);
    assert(0 <= p < m.len());
    let m2 = after_put(m, cap, k, v);
    lemma_put_keeps_distinct(m, cap, k, v);
    assert forall|k2: Seq<char>|
        contains_key(m, k2) && k2 != k implies #[trigger] contains_key(m2, k2) && stored_at(
        m2,
        k2,
    ) == stored_at(m, k2) by {
        let p2 = key_pos(m, k2);
        assert(0 <= p2 < m.len() && m[p2].0 == k2);
        assert(p2 != p);
        if p2 < p {
            assert(m2[p2 + 1] == m.remove(p)[p2]);
            assert(m2[p2 + 1] == m[p2]);
            lemma_key_pos_unique(m2, k2, p2 + 1);
        } else {
            assert(m2[p2] == m.remove(p)[p2 - 1]);
            assert(m2[p2] == m[p2]);
            lemma_key_pos_unique(m2, k2, p2);
        }
    }
}

/// Law: a cleared cache misses every key, and clearing it again leaves
/// it just as empty; a `get` on the empty state changes nothing.
pub proof fn lemma_clear_then_miss<V>(k: Seq<char>)
    ensures
        !contains_key(Seq::<(Seq<char>, V)>::empty(), k),
        after_get(Seq::<(Seq<char>, V)>::empty(), k) == Seq::<(Seq<char>, V)>::empty(),
{
}

} // verus!
