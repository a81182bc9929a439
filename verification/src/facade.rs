//! A thin facade over the cache strategies.
//!
//! The facade owns one backend, picked at construction time, and has no
//! logic of its own beyond delegation; it exists so that callers can name
//! one cache type without committing their code to a strategy.  Its
//! constructor picks the indexed-list strategy, the constant-time one.

use vstd::prelude::*;

use crate::lru_double_list::LruCache2;
use crate::model::after_get;
use crate::model::after_put;
use crate::model::contains_key;
use crate::model::distinct_keys;
use crate::model::put_returns;
use crate::model::stored_at;
use crate::Lru;

verus! {

/// A fixed-capacity least-recently-used cache behind the shared
/// interface.
pub struct Cache<V> {
    cache: LruCache2<V>,
}

impl<V> Cache<V> {
    /// Well-formedness of the backend.
    pub closed spec fn inv(&self) -> bool {
        self.cache.inv()
    }

    /// The capacity the cache was constructed with.
    pub closed spec fn cap(&self) -> nat {
        self.cache.cap()
    }

    /// The stored pairs, from most- to least-recently-used.
    pub closed spec fn entries(&self) -> Seq<(Seq<char>, V)> {
        self.cache.entries()
    }

    /// A well-formed cache has pairwise distinct keys, at most `cap()`
    /// entries, and a positive capacity.
    pub proof fn entries_wf(&self)
        requires
            self.inv(),
        ensures
            distinct_keys(self.entries()),
            self.entries().len() <= self.cap(),
            self.cap() >= 1,
    {
        self.cache.entries_wf();
    }

    /// A cache with room for `capacity` entries; a cache that could hold
    /// nothing would be unusable, so a positive capacity is demanded.
    pub fn new(capacity: usize) -> (c: Self)
        requires
            capacity >= 1,
        ensures
            c.inv(),
            c.cap() == capacity,
            c.entries() == Seq::<(Seq<char>, V)>::empty(),
    {
        Cache { cache: LruCache2::new(capacity) }
    }

    /// Inserts or updates `k`; see [`Lru::put`].
    pub fn put(&mut self, k: String, v: V) -> (prev: Option<V>)
        requires
            old(self).inv(),
        ensures
            final(self).inv(),
            final(self).cap() == old(self).cap(),
            final(self).entries() == after_put(
                old(self).entries(),
                old(self).cap(),
                k@,
                v,
            ),
            prev == put_returns(old(self).entries(), k@),
    {
        self.cache.put(k, v)
    }

    /// Looks `k` up; see [`Lru::get`].
    pub fn get<'a>(&'a mut self, k: &String) -> (r: Option<&'a V>)
        requires
            old(self).inv(),
        ensures
            final(self).inv(),
            final(self).cap() == old(self).cap(),
            final(self).entries() == after_get(old(self).entries(), k@),
            contains_key(old(self).entries(), k@) ==> (r matches Some(w)
                && *w == stored_at(old(self).entries(), k@)),
            !contains_key(old(self).entries(), k@) ==> r is None,
    {
        self.cache.get(k)
    }

    /// The number of entries currently stored.
    pub fn len(&self) -> (n: usize)
        requires
            self.inv(),
        ensures
            n == self.entries().len(),
    {
        self.cache.len()
    }

    /// Removes every entry; the capacity is kept.
    pub fn clear(&mut self)
        requires
            old(self).inv(),
        ensures
            final(self).inv(),
            final(self).cap() == old(self).cap(),
            final(self).entries() == Seq::<(Seq<char>, V)>::empty(),
    {
        self.cache.clear()
    }
}

} // verus!
