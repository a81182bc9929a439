//! A fixed-capacity key-value cache that evicts the least-recently-used
//! entry when full.
//!
//! Two interchangeable strategies implement the shared [`Lru`] interface:
//!
//! * [`LruCache1`] stamps every entry with the instant of its last access
//!   and, when the cache is full, scans all entries for the minimum stamp
//!   to decide which one to evict.
//! * [`LruCache2`] keeps an index from key to a node of a recency-ordered
//!   doubly linked list, so both the access update and the eviction are
//!   constant-size link surgery.
//!
//! [`Cache`] is a thin facade that commits to a strategy at construction
//! time — the indexed-list one — and only delegates.

use vstd::prelude::*;

mod model;
mod lru_double_list;
mod lru_time;
mod facade;
mod laws;

pub use model::after_get;
pub use model::after_put;
pub use model::contains_key;
pub use model::distinct_keys;
pub use model::key_pos;
pub use model::put_returns;
pub use model::stored_at;
pub use lru_double_list::Entry;
pub use lru_double_list::LruCache2;
pub use lru_time::LruCache1;
pub use facade::Cache;
pub use laws::after_puts;
pub use laws::lemma_cache_within_capacity;
pub use laws::lemma_clear_then_miss;
pub use laws::lemma_eviction_removes_least_recent;
pub use laws::lemma_get_moves_front;
pub use laws::lemma_get_protects_key;
pub use laws::lemma_put_capacity_bound;
pub use laws::lemma_put_keeps_distinct;
pub use laws::lemma_put_shifts_key;
pub use laws::lemma_put_update_semantics;
pub use laws::lemma_puts_keep_key;

verus! {

/// The capability set shared by every cache strategy: `put`, `get`, `len`
/// and `clear` over a fixed-capacity store of string keys.
///
/// The abstract state of a cache is [`entries`](Lru::entries), the stored
/// `(key, value)` pairs from most- to least-recently-used; every method
/// promises to transform it exactly as the transitions of [`crate::model`]
/// say.  A strategy that records accesses with finite stamps reports how
/// many it has drawn through [`stamps`](Lru::stamps); each call draws at
/// most one, a fresh cache has drawn none, so a cache can always absorb
/// `u64::MAX` accesses between constructions or clears.
pub trait Lru<V>: Sized {
    /// Well-formedness of the concrete representation.
    spec fn inv(&self) -> bool;

    /// The capacity the cache was constructed with.
    spec fn cap(&self) -> nat;

    /// The stored pairs, from most- to least-recently-used.
    spec fn entries(&self) -> Seq<(Seq<char>, V)>;

    /// How many recency stamps have been drawn so far; a strategy that
    /// needs none reports zero forever.
    spec fn stamps(&self) -> nat;

    /// A well-formed cache has pairwise distinct keys, at most `cap()`
    /// entries, and a positive capacity.
    proof fn entries_wf(&self)
        requires
            self.inv(),
        ensures
            distinct_keys(self.entries()),
            self.entries().len() <= self.cap(),
            self.cap() >= 1,
    ;

    /// Inserts or updates `k`.  An existing key keeps the cache length,
    /// returns the previous value and becomes most-recently-used; a new
    /// key is inserted in front, evicting the least-recently-used entry
    /// first when the cache is full, and returns `None`.
    fn put(&mut self, k: String, v: V) -> (prev: Option<V>)
        requires
            old(self).inv(),
            old(self).stamps() < u64::MAX,
        ensures
            final(self).inv(),
            final(self).cap() == old(self).cap(),
            final(self).entries() == after_put(
                old(self).entries(),
                old(self).cap(),
                k@,
                v,
            ),
            prev == put_returns(old(self).entries(), k@),
            final(self).stamps() <= old(self).stamps() + 1,
    ;

    /// Looks `k` up.  A hit marks the entry most-recently-used and returns
    /// a reference to its value; a miss returns `None` and changes
    /// nothing.
    fn get<'a>(&'a mut self, k: &String) -> (r: Option<&'a V>)
        requires
            old(self).inv(),
            old(self).stamps() < u64::MAX,
        ensures
            final(self).inv(),
            final(self).cap() == old(self).cap(),
            final(self).entries() == after_get(old(self).entries(), k@),
            contains_key(old(self).entries(), k@) ==> (r matches Some(w)
                && *w == stored_at(old(self).entries(), k@)),
            !contains_key(old(self).entries(), k@) ==> r is None
                && final(self).stamps() == old(self).stamps(),
            final(self).stamps() <= old(self).stamps() + 1,
    ;

    /// The number of entries currently stored; never exceeds the capacity.
    fn len(&self) -> (n: usize)
        requires
            self.inv(),
        ensures
            n == self.entries().len(),
    ;

    /// Removes every entry; the capacity is kept and all stamps are handed
    /// back.
    fn clear(&mut self)
        requires
            old(self).inv(),
        ensures
            final(self).inv(),
            final(self).cap() == old(self).cap(),
            final(self).entries() == Seq::<(Seq<char>, V)>::empty(),
            final(self).stamps() == 0,
    ;
}

} // verus!
