//! The timestamp strategy: every entry carries the instant of its last
//! access, and eviction scans all entries for the minimum stamp.
//!
//! Stamps are drawn from a logical clock owned by the cache: a counter
//! that grows by one with every recorded access.  Such a clock is a
//! monotonic time source — it never goes backwards, unlike a wall clock —
//! and its resolution is perfect, so two accesses never share a stamp.
//! The eviction scan may break a stamp tie either way; with this time
//! source a tie cannot arise in the first place, so the entry it finds is
//! in fact the unique least-recently-used one.  The clock is 64 bits wide:
//! a cache can absorb `u64::MAX` accesses between constructions or
//! clears, and each `put` or `get` draws at most one stamp.
//!
//! The access update is a single stamp write; the eviction is a scan of
//! the whole store, the documented cost of this strategy.

use vstd::prelude::*;

use crate::model::after_get;
use crate::model::after_put;
use crate::model::contains_key;
use crate::model::distinct_keys;
use crate::model::is_ordering;
use crate::model::key_pos;
use crate::model::lemma_key_pos_unique;
use crate::model::lemma_ordering_grow;
use crate::model::lemma_ordering_move_front;
use crate::model::lemma_ordering_swap_remove;
use crate::model::lemma_pos_of;
use crate::model::pos_of;
use crate::model::put_returns;
use crate::model::stored_at;
use crate::Lru;

verus! {

/// One stored entry: a key-value pair plus the stamp of its last access.
struct Stamped<V> {
    k: String,
    v: V,
    t: u64,
}

/// The timestamp cache.  `get` is a lookup plus one stamp write; a `put`
/// that evicts walks all entries to find the minimum stamp.
pub struct LruCache1<V> {
    cache: Vec<Stamped<V>>,
    capacity: usize,
    clock: u64,
    recency: Ghost<Seq<int>>,
}

impl<V> LruCache1<V> {
    /// A cache with room for `capacity` entries; a cache that could hold
    /// nothing would be unusable, so a positive capacity is demanded.
    pub fn new(capacity: usize) -> (c: Self)
        requires
            capacity >= 1,
        ensures
            c.inv(),
            c.cap() == capacity,
            c.entries() == Seq::<(Seq<char>, V)>::empty(),
            c.stamps() == 0,
    {
        let c = LruCache1 {
            cache: Vec::new(),
            capacity,
            clock: 0,
            recency: Ghost(Seq::empty()),
        };
        proof {
            assert(c.entries() =~= Seq::<(Seq<char>, V)>::empty());
        }
        c
    }

    /// Slot `x` appears in the recency ordering, and the entry it carries
    /// is the unique one with its key.
    proof fn lemma_slot_entry(&self, x: int)
        requires
            self.inv(),
            0 <= x < self.cache@.len(),
        ensures
            ({
                let p = pos_of(self.recency@, x);
                &&& 0 <= p < self.entries().len()
                &&& self.recency@[p] == x
                &&& self.entries()[p] == (self.cache@[x].k@, self.cache@[x].v)
                &&& contains_key(self.entries(), self.cache@[x].k@)
                &&& key_pos(self.entries(), self.cache@[x].k@) == p
                &&& stored_at(self.entries(), self.cache@[x].k@) == self.cache@[x].v
            }),
    {
        let r = self.recency@;
        let n = self.cache@.len() as int;
        lemma_pos_of(r, n, x);
        let p = pos_of(r, x);
        assert(self.entries()[p] == (self.cache@[x].k@, self.cache@[x].v));
        self.entries_wf();
        lemma_key_pos_unique(self.entries(), self.cache@[x].k@, p);
    }

    /// The slot holding `k`.
    fn find(&self, k: &String) -> (res: Option<usize>)
        requires
            self.inv(),
        ensures
            match res {
                Some(i) => i < self.cache@.len() && self.cache@[i as int].k@ == k@,
                None => !contains_key(self.entries(), k@),
            },
    {
        let n = self.cache.len();
        let mut i: usize = 0;
        while i < n
            invariant
                self.inv(),
                n == self.cache@.len(),
                i <= n,
                forall|x: int| 0 <= x < i ==> (#[trigger] self.cache@[x]).k@ != k@,
            decreases n - i,
        {
            if self.cache[i].k == *k {
                return Some(i);
            }
            i += 1;
        }
        proof {
            if contains_key(self.entries(), k@) {
                let q = choose|q: int|
                    0 <= q < self.entries().len() && (#[trigger] self.entries()[q]).0 == k@;
                assert(self.cache@[self.recency@[q]].k@ == k@);
            }
        }
        None
    }

    /// Stamps slot `i` with the present clock reading, which makes it the
    /// most recent entry.
    #[verifier::rlimit(100)]
    fn touch(&mut self, i: usize)
        requires
            old(self).inv(),
            i < old(self).cache@.len(),
            old(self).clock < u64::MAX,
        ensures
            final(self).inv(),
            final(self).capacity == old(self).capacity,
            final(self).clock == old(self).clock + 1,
            final(self).cache@.len() == old(self).cache@.len(),
            forall|x: int|
                0 <= x < old(self).cache@.len() ==> (#[trigger] final(self).cache@[x]).k@
                    == old(self).cache@[x].k@ && final(self).cache@[x].v == old(
                    self,
                ).cache@[x].v,
            final(self).recency@ == seq![i as int] + old(self).recency@.remove(
                pos_of(old(self).recency@, i as int),
            ),
            final(self).entries() == after_get(
                old(self).entries(),
                old(self).cache@[i as int].k@,
            ),
    {
        let ghost r0 = self.recency@;
        let ghost cs0 = self.cache@;
        let ghost e0 = self.entries();
        let ghost n = self.cache@.len() as int;
        proof {
            lemma_pos_of(r0, n, i as int);
            self.lemma_slot_entry(i as int);
            self.entries_wf();
        }
        let ghost p = pos_of(r0, i as int);
        let now = self.clock;
        self.cache[i].t = now;
        self.clock = now + 1;
        self.recency = Ghost(seq![i as int] + r0.remove(p));
        proof {
            lemma_ordering_move_front(r0, n, p);
            let rn = self.recency@;
            let cs = self.cache@;
            assert(rn[0] == i as int);
            assert forall|q: int| 1 <= q < n implies #[trigger] rn[q] == (if q <= p {
                r0[q - 1]
            } else {
                r0[q]
            }) by {
                assert(rn[q] == r0.remove(p)[q - 1]);
            }
            assert forall|x: int|
                0 <= x < n implies (#[trigger] cs[x]).k@ == cs0[x].k@ && cs[x].v == cs0[x].v && (
            x != i as int ==> cs[x].t == cs0[x].t) by {}
            assert(cs[i as int].t == now);
            // the touched slot now carries the newest stamp
            assert forall|q1: int, q2: int|
                0 <= q1 < q2 < n implies (#[trigger] cs[rn[q1]]).t > (#[trigger] cs[rn[q2]]).t by {
                if q1 == 0 {
                    assert(rn[q2] != i as int);
                    assert(cs0[rn[q2]].t < now);
                } else {
                    let o1: int = if q1 <= p { q1 - 1 } else { q1 };
                    let o2: int = if q2 <= p { q2 - 1 } else { q2 };
                    assert(rn[q1] == r0[o1] && rn[q2] == r0[o2]);
                    assert(0 <= o1 < o2 < n);
                    assert(cs0[r0[o1]].t > cs0[r0[o2]].t);
                    assert(o1 != p && o2 != p);
                    assert(r0[o1] != r0[p] && r0[o2] != r0[p]);
                }
            }
            assert forall|x: int| 0 <= x < n implies (#[trigger] cs[x]).t < self.clock by {}
            assert(self.inv());
            assert forall|q: int|
                0 <= q < n implies #[trigger] self.entries()[q] == (seq![e0[p]] + e0.remove(
                p,
            ))[q] by {
                if q == 0 {
                    assert(self.entries()[0] == (cs[i as int].k@, cs[i as int].v));
                    assert(e0[p] == (cs0[i as int].k@, cs0[i as int].v));
                } else if q <= p {
                    assert(rn[q] == r0[q - 1]);
                    assert(self.entries()[q] == (cs[r0[q - 1]].k@, cs[r0[q - 1]].v));
                    assert(e0[q - 1] == (cs0[r0[q - 1]].k@, cs0[r0[q - 1]].v));
                    assert((seq![e0[p]] + e0.remove(p))[q] == e0[q - 1]);
                } else {
                    assert(rn[q] == r0[q]);
                    assert(self.entries()[q] == (cs[r0[q]].k@, cs[r0[q]].v));
                    assert(e0[q] == (cs0[r0[q]].k@, cs0[r0[q]].v));
                    assert((seq![e0[p]] + e0.remove(p))[q] == e0[q]);
                }
            }
            assert(self.entries() =~= seq![e0[p]] + e0.remove(p));
            assert(after_get(e0, cs0[i as int].k@) == seq![e0[p]] + e0.remove(p));
        }
    }

    /// The key of the entry whose stamp is the oldest — the one the next
    /// eviction would remove — or `None` on an empty cache.
    fn oldest(&self) -> (res: Option<String>)
        requires
            self.inv(),
        ensures
            match res {
                Some(s) => self.entries().len() > 0 && s@ == self.entries().last().0,
                None => self.entries().len() == 0,
            },
    {
        let n = self.cache.len();
        if n == 0 {
            return None;
        }
        let mut best: usize = 0;
        let mut i: usize = 1;
        while i < n
            invariant
                self.inv(),
                n == self.cache@.len(),
                1 <= i <= n,
                best < i,
                forall|x: int| 0 <= x < i ==> (#[trigger] self.cache@[x]).t >= self.cache@[
                    best as int].t,
            decreases n - i,
        {
            if self.cache[i].t < self.cache[best].t {
                best = i;
            }
            i += 1;
        }
        proof {
            let r = self.recency@;
            let nn = n as int;
            lemma_pos_of(r, nn, best as int);
            let pb = pos_of(r, best as int);
            if pb < nn - 1 {
                assert(self.cache@[r[pb]].t > self.cache@[r[nn - 1]].t);
                assert(0 <= r[nn - 1] < nn);
                assert(self.cache@[r[nn - 1]].t >= self.cache@[best as int].t);
                assert(false);
            }
            assert(r[nn - 1] == best as int);
            assert(self.entries().last().0 == self.cache@[best as int].k@);
        }
        Some(self.cache[best].k.clone())
    }

    /// When the cache is at (or beyond) capacity, evicts the entry with
    /// the oldest stamp; otherwise leaves the cache untouched.
    #[verifier::rlimit(100)]
    fn knock_out(&mut self)
        requires
            old(self).inv(),
        ensures
            final(self).inv(),
            final(self).capacity == old(self).capacity,
            final(self).clock == old(self).clock,
            if old(self).cache@.len() < old(self).capacity {
                final(self).entries() == old(self).entries()
                    && final(self).cache@.len() == old(self).cache@.len()
            } else {
                final(self).entries() == old(self).entries().drop_last()
                    && final(self).cache@.len() == old(self).cache@.len() - 1
            },
    {
        if self.cache.len() < self.capacity {
            return ;
        }
        let ghost r0 = self.recency@;
        let ghost cs0 = self.cache@;
        let ghost e0 = self.entries();
        let ghost n = self.cache@.len() as int;
        match self.oldest() {
            Some(kk) => {
                match self.find(&kk) {
                    Some(j) => {
                        proof {
                            // the slot found for the oldest key is the
                            // last-ordered one
                            self.lemma_slot_entry(j as int);
                            self.entries_wf();
                            lemma_key_pos_unique(e0, kk@, n - 1);
                            assert(pos_of(r0, j as int) == n - 1);
                            assert(r0[n - 1] == j as int);
                        }
                        self.cache.swap_remove(j);
                        self.recency = Ghost(
                            r0.drop_last().map_values(
                                |x: int| if x == n - 1 { j as int } else { x },
                            ),
                        );
                        proof {
                            lemma_ordering_swap_remove(r0, n, j as int);
                            let rn = self.recency@;
                            let cs = self.cache@;
                            assert(cs == cs0.update(j as int, cs0.last()).drop_last());
                            assert(cs.len() == n - 1);
                            // every remaining slot still carries the entry
                            // its old name carried
                            assert forall|q: int| 0 <= q < n - 1 implies #[trigger] cs[rn[q]]
                                == cs0[r0[q]] by {
                                assert(r0[q] != r0[n - 1]);
                                if r0[q] == n - 1 {
                                    assert(rn[q] == j as int);
                                    if j as int != n - 1 {
                                        assert(cs[j as int] == cs0[n - 1]);
                                    }
                                } else {
                                    assert(rn[q] == r0[q]);
                                    assert(r0[q] != j as int);
                                    assert(cs[r0[q]] == cs0[r0[q]]);
                                }
                            }
                            assert forall|q1: int, q2: int|
                                0 <= q1 < q2 < n - 1 implies (#[trigger] cs[rn[q1]]).t > (
                            #[trigger] cs[rn[q2]]).t by {
                                assert(cs0[r0[q1]].t > cs0[r0[q2]].t);
                            }
                            assert forall|a: int, b: int|
                                0 <= a < b < n - 1 implies (#[trigger] cs[a]).k@ != (
                            #[trigger] cs[b]).k@ by {
                                let oa: int = if a == j as int && j as int != n - 1 {
                                    n - 1
                                } else {
                                    a
                                };
                                let ob: int = if b == j as int && j as int != n - 1 {
                                    n - 1
                                } else {
                                    b
                                };
                                assert(cs[a] == cs0[oa] && cs[b] == cs0[ob]);
                                assert(oa != ob);
                                if oa < ob {
                                    assert(cs0[oa].k@ != cs0[ob].k@);
                                } else {
                                    assert(cs0[ob].k@ != cs0[oa].k@);
                                }
                            }
                            assert forall|x: int| 0 <= x < n - 1 implies (#[trigger] cs[x]).t
                                < self.clock by {
                                let ox: int = if x == j as int && j as int != n - 1 {
                                    n - 1
                                } else {
                                    x
                                };
                                assert(cs[x] == cs0[ox]);
                            }
                            assert(self.inv());
                            assert forall|q: int|
                                0 <= q < n - 1 implies #[trigger] self.entries()[q] == e0[q] by {
                                assert(cs[rn[q]] == cs0[r0[q]]);
                            }
                            assert(self.entries() =~= e0.drop_last());
                        }
                    },
                    None => {},
                }
            },
            None => {},
        }
    }
}

impl<V> Lru<V> for LruCache1<V> {
    closed spec fn inv(&self) -> bool {
        let n = self.cache@.len() as int;
        let r = self.recency@;
        &&& self.capacity >= 1
        &&& self.cache@.len() <= self.capacity
        &&& is_ordering(r, n)
        &&& forall|a: int, b: int|
            0 <= a < b < n ==> (#[trigger] self.cache@[a]).k@ != (#[trigger] self.cache@[b]).k@
        &&& forall|q1: int, q2: int|
            0 <= q1 < q2 < n ==> (#[trigger] self.cache@[r[q1]]).t > (
            #[trigger] self.cache@[r[q2]]).t
        &&& forall|x: int| 0 <= x < n ==> (#[trigger] self.cache@[x]).t < self.clock
    }

    closed spec fn cap(&self) -> nat {
        self.capacity as nat
    }

    closed spec fn entries(&self) -> Seq<(Seq<char>, V)> {
        let cache = self.cache@;
        self.recency@.map_values(|j: int| (cache[j].k@, cache[j].v))
    }

    closed spec fn stamps(&self) -> nat {
        self.clock as nat
    }

    proof fn entries_wf(&self) {
        let r = self.recency@;
        assert forall|i: int, j: int|
            0 <= i < j < self.entries().len() implies (#[trigger] self.entries()[i]).0 != (
        #[trigger] self.entries()[j]).0 by {
            assert(r[i] != r[j]);
            if r[i] < r[j] {
                assert(self.cache@[r[i]].k@ != self.cache@[r[j]].k@);
            } else {
                assert(self.cache@[r[j]].k@ != self.cache@[r[i]].k@);
            }
        }
    }

    #[verifier::rlimit(100)]
    fn put(&mut self, k: String, v: V) -> (prev: Option<V>) {
        let ghost e0 = self.entries();
        let ghost r0 = self.recency@;
        let ghost cs0 = self.cache@;
        let ghost n = self.cache@.len() as int;
        match self.find(&k) {
            Some(i) => {
                // the key is present: stamp its entry and swap the value in
                proof {
                    self.lemma_slot_entry(i as int);
                }
                self.touch(i);
                let ghost e1 = self.entries();
                let ghost rn = self.recency@;
                let ghost cs1 = self.cache@;
                let mut tmp = v;
                core::mem::swap(&mut self.cache[i].v, &mut tmp);
                proof {
                    let p = pos_of(r0, i as int);
                    assert(key_pos(e0, k@) == p);
                    assert(e1 == seq![e0[p]] + e0.remove(p));
                    assert(rn[0] == i as int);
                    assert forall|q: int|
                        0 <= q < n implies #[trigger] self.entries()[q] == (seq![(k@, v)]
                        + e0.remove(p))[q] by {
                        if q == 0 {
                            assert(self.entries()[0] == (self.cache@[i as int].k@, v));
                        } else {
                            assert(rn[q] != rn[0]);
                            assert(self.entries()[q] == e1[q]);
                        }
                    }
                    assert(self.entries() =~= seq![(k@, v)] + e0.remove(p));
                    assert(tmp == cs0[i as int].v);
                    assert(tmp == stored_at(e0, k@));
                    // a value swap touches no key and no stamp
                    assert forall|x: int|
                        0 <= x < n implies (#[trigger] self.cache@[x]).k@ == cs1[x].k@
                        && self.cache@[x].t == cs1[x].t by {}
                    assert(self.inv());
                }
                Some(tmp)
            },
            None => {
                self.knock_out();
                let ghost emid = self.entries();
                let ghost rmid = self.recency@;
                let ghost csmid = self.cache@;
                let ghost nmid = self.cache@.len() as int;
                proof {
                    // a missed lookup means no remaining slot carries `k`
                    if contains_key(emid, k@) {
                        let q = choose|q: int|
                            0 <= q < emid.len() && (#[trigger] emid[q]).0 == k@;
                        if n < self.capacity {
                            assert(e0[q].0 == k@);
                        } else {
                            assert(emid[q] == e0[q]);
                        }
                        assert(contains_key(e0, k@));
                    }
                    assert forall|x: int| 0 <= x < nmid implies (#[trigger] csmid[x]).k@
                        != k@ by {
                        if csmid[x].k@ == k@ {
                            self.lemma_slot_entry(x);
                        }
                    }
                }
                let idx = self.cache.len();
                let now = self.clock;
                self.cache.push(Stamped { k, v, t: now });
                self.clock = now + 1;
                self.recency = Ghost(seq![idx as int] + rmid);
                proof {
                    lemma_ordering_grow(rmid, nmid);
                    let rn = self.recency@;
                    let cs = self.cache@;
                    assert(cs.len() == nmid + 1);
                    assert forall|x: int| 0 <= x < nmid implies #[trigger] cs[x] == csmid[x] by {}
                    assert(cs[nmid].k@ == k@ && cs[nmid].v == v && cs[nmid].t == now);
                    // the new entry is the freshest; nothing below it moved
                    assert forall|q1: int, q2: int|
                        0 <= q1 < q2 < nmid + 1 implies (#[trigger] cs[rn[q1]]).t > (
                    #[trigger] cs[rn[q2]]).t by {
                        if q1 == 0 {
                            assert(rn[q2] == rmid[q2 - 1]);
                            assert(csmid[rmid[q2 - 1]].t < now);
                        } else {
                            assert(rn[q1] == rmid[q1 - 1] && rn[q2] == rmid[q2 - 1]);
                            assert(csmid[rmid[q1 - 1]].t > csmid[rmid[q2 - 1]].t);
                        }
                    }
                    assert forall|a: int, b: int|
                        0 <= a < b < nmid + 1 implies (#[trigger] cs[a]).k@ != (
                    #[trigger] cs[b]).k@ by {
                        if b == nmid {
                            assert(cs[a].k@ == csmid[a].k@ && csmid[a].k@ != k@);
                        } else {
                            assert(csmid[a].k@ != csmid[b].k@);
                        }
                    }
                    assert forall|x: int| 0 <= x < nmid + 1 implies (#[trigger] cs[x]).t
                        < self.clock by {}
                    assert(self.inv());
                    assert forall|q: int|
                        0 <= q < nmid + 1 implies #[trigger] self.entries()[q] == (seq![(k@, v)]
                        + emid)[q] by {
                        if q > 0 {
                            assert(rn[q] == rmid[q - 1]);
                            assert(self.entries()[q] == (cs[rmid[q - 1]].k@, cs[rmid[q - 1]].v));
                            assert(emid[q - 1] == (csmid[rmid[q - 1]].k@, csmid[rmid[q - 1]].v));
                        }
                    }
                    assert(self.entries() =~= seq![(k@, v)] + emid);
                    assert(!contains_key(e0, k@));
                    if n < self.capacity {
                        assert(emid == e0);
                    } else {
                        assert(emid == e0.drop_last());
                        assert(!(e0.len() < self.cap()));
                    }
                }
                None
            },
        }
    }

    fn get<'a>(&'a mut self, k: &String) -> (r: Option<&'a V>) {
        let ghost e0 = self.entries();
        match self.find(k) {
            Some(i) => {
                proof {
                    self.lemma_slot_entry(i as int);
                }
                self.touch(i);
                proof {
                    assert(self.entries() == after_get(e0, k@));
                }
                Some(&self.cache[i].v)
            },
            None => None,
        }
    }

    fn len(&self) -> (n: usize) {
        self.cache.len()
    }

    fn clear(&mut self) {
        self.cache.clear();
        self.clock = 0;
        self.recency = Ghost(Seq::empty());
        proof {
            assert(self.entries() =~= Seq::<(Seq<char>, V)>::empty());
        }
    }
}

} // verus!
