//! The indexed-list strategy: a key index over the nodes of a
//! recency-ordered doubly linked list.
//!
//! The list nodes live in an arena (`Vec<Entry<V>>`) and the `prev`/`next`
//! relations are stable slot indices instead of raw pointers, so the
//! constant-size splice operations of an intrusive list are kept while the
//! slots always hold fully initialised entries.  The list boundaries are
//! the two owner fields `head` (most-recently-used) and `tail`
//! (least-recently-used); since slots are reused on eviction, the arena
//! never has holes and its length is the cache length.
//!
//! The ghost field `recency` records the slot indices from most- to
//! least-recently-used; the invariant says that the `prev`/`next` links
//! thread the slots in exactly that order and that the slot keys are
//! pairwise distinct.

use vstd::prelude::*;

use crate::model::after_get;
use crate::model::after_put;
use crate::model::contains_key;
use crate::model::distinct_keys;
use crate::model::is_ordering;
use crate::model::key_pos;
use crate::model::lemma_key_pos_unique;
use crate::model::lemma_ordering_grow;
use crate::model::lemma_ordering_move_front;
use crate::model::lemma_pos_of;
use crate::model::pos_of;
use crate::model::put_returns;
use crate::model::stored_at;
use crate::Lru;

verus! {

/// One arena slot: a key-value pair plus the slot indices of its list
/// neighbours (`None` at a list boundary).
pub struct Entry<V> {
    k: String,
    v: V,
    prev: Option<usize>,
    next: Option<usize>,
}

impl<V> Entry<V> {
    /// The key this entry carries.
    pub closed spec fn key(&self) -> Seq<char> {
        self.k@
    }

    /// The value this entry carries.
    pub closed spec fn value(&self) -> V {
        self.v
    }

    /// True iff the entry is not threaded into a list yet.
    pub closed spec fn unlinked(&self) -> bool {
        self.prev is None && self.next is None
    }

    /// A fresh, not yet linked entry holding `k` and `v`.
    pub fn new(k: String, v: V) -> (e: Entry<V>)
        ensures
            e.key() == k@,
            e.value() == v,
            e.unlinked(),
    {
        Entry { k, v, prev: None, next: None }
    }
}

/// The indexed-list cache.  After the index lookup — here a scan of the
/// slots — `get` and `put` touch only a constant number of links, so the
/// recency update and the eviction itself never walk the store.
pub struct LruCache2<V> {
    nodes: Vec<Entry<V>>,
    capacity: usize,
    head: Option<usize>,
    tail: Option<usize>,
    recency: Ghost<Seq<int>>,
}

impl<V> LruCache2<V> {
    /// A cache with room for `capacity` entries; a cache that could hold
    /// nothing would be unusable, so a positive capacity is demanded.
    pub fn new(capacity: usize) -> (c: Self)
        requires
            capacity >= 1,
        ensures
            c.inv(),
            c.cap() == capacity,
            c.entries() == Seq::<(Seq<char>, V)>::empty(),
            c.stamps() == 0,
    {
        let c = LruCache2 {
            nodes: Vec::new(),
            capacity,
            head: None,
            tail: None,
            recency: Ghost(Seq::empty()),
        };
        proof {
            assert(c.entries() =~= Seq::<(Seq<char>, V)>::empty());
        }
        c
    }

    /// Slot `x` appears in the recency ordering, and the entry it carries
    /// is the unique one with its key.
    proof fn lemma_slot_entry(&self, x: int)
        requires
            self.inv(),
            0 <= x < self.nodes@.len(),
        ensures
            ({
                let p = pos_of(self.recency@, x);
                &&& 0 <= p < self.entries().len()
                &&& self.recency@[p] == x
                &&& self.entries()[p] == (self.nodes@[x].k@, self.nodes@[x].v)
                &&& contains_key(self.entries(), self.nodes@[x].k@)
                &&& key_pos(self.entries(), self.nodes@[x].k@) == p
                &&& stored_at(self.entries(), self.nodes@[x].k@) == self.nodes@[x].v
            }),
    {
        let r = self.recency@;
        let n = self.nodes@.len() as int;
        lemma_pos_of(r, n, x);
        let p = pos_of(r, x);
        assert(self.entries()[p] == (self.nodes@[x].k@, self.nodes@[x].v));
        self.entries_wf();
        lemma_key_pos_unique(self.entries(), self.nodes@[x].k@, p);
    }

    /// The slot holding `k`, found through the index.
    fn find(&self, k: &String) -> (res: Option<usize>)
        requires
            self.inv(),
        ensures
            match res {
                Some(i) => i < self.nodes@.len() && self.nodes@[i as int].k@ == k@,
                None => !contains_key(self.entries(), k@),
            },
    {
        let n = self.nodes.len();
        let mut i: usize = 0;
        while i < n
            invariant
                self.inv(),
                n == self.nodes@.len(),
                i <= n,
                forall|x: int| 0 <= x < i ==> (#[trigger] self.nodes@[x]).k@ != k@,
            decreases n - i,
        {
            if self.nodes[i].k == *k {
                return Some(i);
            }
            i += 1;
        }
        proof {
            if contains_key(self.entries(), k@) {
                let q = choose|q: int|
                    0 <= q < self.entries().len() && (#[trigger] self.entries()[q]).0 == k@;
                assert(self.nodes@[self.recency@[q]].k@ == k@);
            }
        }
        None
    }

    /// Splices slot `i` out of its list position and relinks it
    /// immediately at the head; a slot that is the head already is left
    /// untouched.  All four link updates happen inside this one call, so
    /// no caller ever sees a half-linked node.
    #[verifier::rlimit(100)]
    fn move_to_front(&mut self, i: usize)
        requires
            old(self).inv(),
            i < old(self).nodes@.len(),
        ensures
            final(self).inv(),
            final(self).capacity == old(self).capacity,
            final(self).nodes@.len() == old(self).nodes@.len(),
            forall|x: int|
                0 <= x < old(self).nodes@.len() ==> (#[trigger] final(self).nodes@[x]).k@
                    == old(self).nodes@[x].k@ && final(self).nodes@[x].v == old(
                    self,
                ).nodes@[x].v,
            final(self).recency@ == seq![i as int] + old(self).recency@.remove(
                pos_of(old(self).recency@, i as int),
            ),
            final(self).entries() == after_get(
                old(self).entries(),
                old(self).nodes@[i as int].k@,
            ),
    {
        let ghost r0 = self.recency@;
        let ghost ns0 = self.nodes@;
        let ghost e0 = self.entries();
        let ghost n = self.nodes@.len() as int;
        let ghost key = ns0[i as int].k@;
        proof {
            lemma_pos_of(r0, n, i as int);
            self.lemma_slot_entry(i as int);
            self.entries_wf();
        }
        let ghost p = pos_of(r0, i as int);
        let prev_opt = self.nodes[i].prev;
        match prev_opt {
            None => {
                // the slot is the head already: a correct, cost-free case
                proof {
                    if p != 0 {
                        assert(ns0[r0[p]].prev == Some(r0[p - 1] as usize));
                    }
                    assert(p == 0);
                    assert(r0 =~= seq![i as int] + r0.remove(0));
                    assert(e0 =~= seq![e0[0]] + e0.remove(0));
                    assert(after_get(e0, key) == seq![e0[p]] + e0.remove(p));
                }
            },
            Some(pi) => {
                proof {
                    if p == 0 {
                        assert(ns0[r0[0]].prev is None);
                    }
                    assert(p >= 1);
                    assert(ns0[r0[p]].prev == Some(r0[p - 1] as usize));
                    assert(pi == r0[p - 1] && 0 <= r0[p - 1] < n);
                    assert(ns0[r0[p]].next == (if p == n - 1 {
                        Option::<usize>::None
                    } else {
                        Some(r0[p + 1] as usize)
                    }));
                    assert(ns0[r0[0]].prev is None);
                }
                let nx_opt = self.nodes[i].next;
                self.nodes[pi].next = nx_opt;
                match nx_opt {
                    Some(nx) => {
                        proof {
                            assert(nx == r0[p + 1] && 0 <= r0[p + 1] < n);
                        }
                        self.nodes[nx].prev = Some(pi);
                    },
                    None => {
                        self.tail = Some(pi);
                    },
                }
                let h = self.head.unwrap();
                self.nodes[h].prev = Some(i);
                self.nodes[i].prev = None;
                self.nodes[i].next = Some(h);
                self.head = Some(i);
                self.recency = Ghost(seq![i as int] + r0.remove(p));
                proof {
                    lemma_ordering_move_front(r0, n, p);
                    let rn = self.recency@;
                    let ns = self.nodes@;
                    assert(h == r0[0]);
                    assert(rn[0] == i as int);
                    // how the new positions map back to the old ones
                    assert forall|q: int| 1 <= q < n implies #[trigger] rn[q] == (if q <= p {
                        r0[q - 1]
                    } else {
                        r0[q]
                    }) by {
                        assert(rn[q] == r0.remove(p)[q - 1]);
                    }
                    // keys and values sit in their slots untouched
                    assert forall|x: int|
                        0 <= x < n implies (#[trigger] ns[x]).k@ == ns0[x].k@ && ns[x].v
                        == ns0[x].v by {}
                    // the links thread the slots in the new order
                    assert forall|q: int|
                        0 <= q < n implies (#[trigger] ns[rn[q]]).prev == (if q == 0 {
                        Option::<usize>::None
                    } else {
                        Some(rn[q - 1] as usize)
                    }) by {
                        if q == 0 {
                        } else if q == 1 {
                            assert(rn[1] == r0[0]);
                            assert(ns[r0[0]].prev == Some(i));
                        } else if q <= p {
                            assert(rn[q] == r0[q - 1] && rn[q - 1] == r0[q - 2]);
                            assert(r0[q - 1] != r0[0]);
                            assert(r0[q - 1] != r0[p]);
                            if p < n - 1 {
                                assert(r0[q - 1] != r0[p + 1]);
                            }
                            assert(ns[r0[q - 1]].prev == ns0[r0[q - 1]].prev);
                        } else if q == p + 1 {
                            assert(rn[q] == r0[p + 1]);
                            assert(ns[r0[p + 1]].prev == Some(pi));
                            assert(rn[q - 1] == r0[p - 1]);
                        } else {
                            assert(rn[q] == r0[q] && rn[q - 1] == r0[q - 1]);
                            assert(r0[q] != r0[0]);
                            assert(r0[q] != r0[p]);
                            if p < n - 1 {
                                assert(r0[q] != r0[p + 1]);
                            }
                            assert(ns[r0[q]].prev == ns0[r0[q]].prev);
                        }
                    }
                    assert forall|q: int|
                        0 <= q < n implies (#[trigger] ns[rn[q]]).next == (if q == n - 1 {
                        Option::<usize>::None
                    } else {
                        Some(rn[q + 1] as usize)
                    }) by {
                        if q == 0 {
                            assert(ns[i as int].next == Some(h));
                            if n > 1 {
                                assert(rn[1] == r0[0]);
                            }
                        } else if q < p {
                            assert(rn[q] == r0[q - 1] && rn[q + 1] == r0[q]);
                            assert(r0[q - 1] != r0[p]);
                            assert(r0[q - 1] != r0[p - 1]);
                            assert(ns[r0[q - 1]].next == ns0[r0[q - 1]].next);
                            if q - 1 == 0 {
                                assert(ns0[r0[0]].next == Some(r0[1] as usize));
                            }
                        } else if q == p {
                            assert(rn[q] == r0[p - 1]);
                            assert(ns[r0[p - 1]].next == nx_opt);
                            if p < n - 1 {
                                assert(rn[q + 1] == r0[p + 1]);
                            }
                        } else {
                            assert(rn[q] == r0[q] && (q < n - 1 ==> rn[q + 1] == r0[q + 1]));
                            assert(r0[q] != r0[p]);
                            assert(r0[q] != r0[p - 1]);
                            assert(ns[r0[q]].next == ns0[r0[q]].next);
                        }
                    }
                    // head and tail frame the new order
                    if p == n - 1 {
                        assert(self.tail == Some(pi));
                        assert(rn[n - 1] == r0[p - 1]);
                    } else {
                        assert(self.tail == Some(r0[n - 1] as usize));
                        assert(rn[n - 1] == r0[n - 1]);
                    }
                    // the entries are the old ones with `key` moved in front
                    assert forall|q: int|
                        0 <= q < n implies #[trigger] self.entries()[q] == (seq![e0[p]]
                        + e0.remove(p))[q] by {
                        if q == 0 {
                            assert(self.entries()[0] == (ns[i as int].k@, ns[i as int].v));
                            assert(e0[p] == (ns0[i as int].k@, ns0[i as int].v));
                        } else if q <= p {
                            assert(rn[q] == r0[q - 1]);
                            assert(self.entries()[q] == (ns[r0[q - 1]].k@, ns[r0[q - 1]].v));
                            assert(e0[q - 1] == (ns0[r0[q - 1]].k@, ns0[r0[q - 1]].v));
                            assert((seq![e0[p]] + e0.remove(p))[q] == e0[q - 1]);
                        } else {
                            assert(rn[q] == r0[q]);
                            assert(self.entries()[q] == (ns[r0[q]].k@, ns[r0[q]].v));
                            assert(e0[q] == (ns0[r0[q]].k@, ns0[r0[q]].v));
                            assert((seq![e0[p]] + e0.remove(p))[q] == e0[q]);
                        }
                    }
                    assert(self.entries() =~= seq![e0[p]] + e0.remove(p));
                    assert(after_get(e0, key) == seq![e0[p]] + e0.remove(p));
                }
            },
        }
    }
}

impl<V> Lru<V> for LruCache2<V> {
    closed spec fn inv(&self) -> bool {
        let n = self.nodes@.len() as int;
        let r = self.recency@;
        &&& self.capacity >= 1
        &&& self.nodes@.len() <= self.capacity
        &&& is_ordering(r, n)
        &&& forall|a: int, b: int|
            0 <= a < b < n ==> (#[trigger] self.nodes@[a]).k@ != (#[trigger] self.nodes@[b]).k@
        &&& (n == 0 ==> self.head is None && self.tail is None)
        &&& (n > 0 ==> self.head == Some(r[0] as usize) && self.tail == Some(r[n - 1] as usize))
        &&& forall|q: int|
            0 <= q < n ==> (#[trigger] self.nodes@[r[q]]).prev == (if q == 0 {
                Option::<usize>::None
            } else {
                Some(r[q - 1] as usize)
            })
        &&& forall|q: int|
            0 <= q < n ==> (#[trigger] self.nodes@[r[q]]).next == (if q == n - 1 {
                Option::<usize>::None
            } else {
                Some(r[q + 1] as usize)
            })
    }

    closed spec fn cap(&self) -> nat {
        self.capacity as nat
    }

    closed spec fn entries(&self) -> Seq<(Seq<char>, V)> {
        let nodes = self.nodes@;
        self.recency@.map_values(|j: int| (nodes[j].k@, nodes[j].v))
    }

    open spec fn stamps(&self) -> nat {
        0
    }

    proof fn entries_wf(&self) {
        let r = self.recency@;
        let n = self.nodes@.len() as int;
        assert forall|i: int, j: int|
            0 <= i < j < self.entries().len() implies (#[trigger] self.entries()[i]).0 != (
        #[trigger] self.entries()[j]).0 by {
            assert(r[i] != r[j]);
            if r[i] < r[j] {
                assert(self.nodes@[r[i]].k@ != self.nodes@[r[j]].k@);
            } else {
                assert(self.nodes@[r[j]].k@ != self.nodes@[r[i]].k@);
            }
        }
    }

    fn put(&mut self, k: String, v: V) -> (prev: Option<V>) {
        let ghost e0 = self.entries();
        let ghost r0 = self.recency@;
        let ghost ns0 = self.nodes@;
        let ghost n = self.nodes@.len() as int;
        match self.find(&k) {
            Some(i) => {
                // the key is present: re-stamp its node and swap the value in
                proof {
                    self.lemma_slot_entry(i as int);
                }
                self.move_to_front(i);
                let ghost e1 = self.entries();
                let ghost rn = self.recency@;
                let mut tmp = v;
                core::mem::swap(&mut self.nodes[i].v, &mut tmp);
                proof {
                    let p = pos_of(r0, i as int);
                    assert(key_pos(e0, k@) == p);
                    assert(e1 == seq![e0[p]] + e0.remove(p));
                    assert(rn[0] == i as int);
                    assert forall|q: int|
                        0 <= q < n implies #[trigger] self.entries()[q] == (seq![(k@, v)]
                        + e0.remove(p))[q] by {
                        if q == 0 {
                            assert(self.entries()[0] == (self.nodes@[i as int].k@, v));
                        } else {
                            assert(rn[q] != rn[0]);
                            assert(self.entries()[q] == e1[q]);
                        }
                    }
                    assert(self.entries() =~= seq![(k@, v)] + e0.remove(p));
                    assert(tmp == ns0[i as int].v);
                    assert(tmp == stored_at(e0, k@));
                    // the splice and the value swap change no link, so the
                    // invariant survives the slot update
                    assert forall|q: int|
                        0 <= q < n implies (#[trigger] self.nodes@[rn[q]]).prev == (if q == 0 {
                        Option::<usize>::None
                    } else {
                        Some(rn[q - 1] as usize)
                    }) && self.nodes@[rn[q]].next == (if q == n - 1 {
                        Option::<usize>::None
                    } else {
                        Some(rn[q + 1] as usize)
                    }) by {}
                    assert(self.inv());
                }
                Some(tmp)
            },
            None => {
                proof {
                    // a missed lookup means no slot carries this key
                    assert forall|x: int|
                        0 <= x < n implies (#[trigger] self.nodes@[x]).k@ != k@ by {
                        if self.nodes@[x].k@ == k@ {
                            self.lemma_slot_entry(x);
                        }
                    }
                }
                let len = self.nodes.len();
                if len == self.capacity {
                    // full: evict the least-recently-used node and reuse
                    // its slot for the new entry
                    let t = self.tail.unwrap();
                    proof {
                        assert(t == r0[n - 1] && 0 <= r0[n - 1] < n);
                    }
                    self.nodes[t].k = k;
                    self.nodes[t].v = v;
                    proof {
                        let ns1 = self.nodes@;
                        // only slot t changed, and only its key and value
                        assert forall|x: int|
                            0 <= x < n && x != t implies #[trigger] ns1[x] == ns0[x] by {}
                        assert(ns1[t as int].k@ == k@ && ns1[t as int].v == v);
                        assert(ns1[t as int].prev == ns0[t as int].prev);
                        assert(ns1[t as int].next == ns0[t as int].next);
                        assert forall|q: int|
                            0 <= q < n implies (#[trigger] ns1[r0[q]]).prev == (if q == 0 {
                            Option::<usize>::None
                        } else {
                            Some(r0[q - 1] as usize)
                        }) && ns1[r0[q]].next == (if q == n - 1 {
                            Option::<usize>::None
                        } else {
                            Some(r0[q + 1] as usize)
                        }) by {
                            assert(ns1[r0[q]].prev == ns0[r0[q]].prev);
                            assert(ns1[r0[q]].next == ns0[r0[q]].next);
                        }
                        assert forall|a: int, b: int|
                            0 <= a < b < n implies (#[trigger] ns1[a]).k@ != (
                        #[trigger] ns1[b]).k@ by {
                            if a == t as int {
                                assert(ns1[b].k@ == ns0[b].k@ && ns0[b].k@ != k@);
                            } else if b == t as int {
                                assert(ns1[a].k@ == ns0[a].k@ && ns0[a].k@ != k@);
                            } else {
                                assert(ns0[a].k@ != ns0[b].k@);
                            }
                        }
                        assert(self.inv());
                    }
                    let ghost emid = self.entries();
                    proof {
                        // the overwritten tail slot is the last entry
                        assert forall|q: int|
                            0 <= q < n implies #[trigger] emid[q] == (if q == n - 1 {
                            (k@, v)
                        } else {
                            e0[q]
                        }) by {
                            if q != n - 1 {
                                assert(r0[q] != r0[n - 1]);
                            }
                        }
                        self.entries_wf();
                        lemma_key_pos_unique(emid, k@, n - 1);
                        lemma_pos_of(r0, n, t as int);
                        assert(pos_of(r0, t as int) == n - 1);
                    }
                    self.move_to_front(t);
                    proof {
                        assert(self.entries() == seq![emid[n - 1]] + emid.remove(n - 1));
                        assert(emid.remove(n - 1) =~= e0.drop_last());
                        assert(self.entries() == seq![(k@, v)] + e0.drop_last());
                        assert(!(e0.len() < self.cap()));
                    }
                    None
                } else {
                    // room to spare: a fresh slot becomes the new head
                    let h_opt = self.head;
                    let idx = self.nodes.len();
                    self.nodes.push(Entry::new(k, v));
                    match h_opt {
                        Some(h) => {
                            proof {
                                assert(n > 0 && h == r0[0] && 0 <= r0[0] < n);
                            }
                            self.nodes[idx].next = Some(h);
                            self.nodes[h].prev = Some(idx);
                        },
                        None => {
                            self.tail = Some(idx);
                        },
                    }
                    self.head = Some(idx);
                    self.recency = Ghost(seq![idx as int] + r0);
                    proof {
                        lemma_ordering_grow(r0, n);
                        let rn = self.recency@;
                        let ns = self.nodes@;
                        assert(ns.len() == n + 1);
                        assert forall|x: int| 0 <= x < n implies (#[trigger] ns[x]).k@
                            == ns0[x].k@ && ns[x].v == ns0[x].v && (x != (if n > 0 {
                            r0[0]
                        } else {
                            -1
                        }) ==> ns[x] == ns0[x]) by {}
                        assert(ns[n].k@ == k@ && ns[n].v == v);
                        assert forall|q: int|
                            0 <= q < n + 1 implies (#[trigger] ns[rn[q]]).prev == (if q == 0 {
                            Option::<usize>::None
                        } else {
                            Some(rn[q - 1] as usize)
                        }) && ns[rn[q]].next == (if q == n {
                            Option::<usize>::None
                        } else {
                            Some(rn[q + 1] as usize)
                        }) by {
                            if q == 0 {
                                if n > 0 {
                                    assert(rn[1] == r0[0]);
                                }
                            } else if q == 1 {
                                assert(rn[1] == r0[0]);
                                assert(ns[r0[0]].prev == Some(idx));
                                if n > 1 {
                                    assert(rn[2] == r0[1]);
                                    assert(ns[r0[0]].next == ns0[r0[0]].next);
                                }
                            } else {
                                assert(rn[q] == r0[q - 1]);
                                assert(r0[q - 1] != r0[0]);
                                assert(ns[r0[q - 1]] == ns0[r0[q - 1]]);
                                assert(rn[q - 1] == r0[q - 2]);
                                if q < n {
                                    assert(rn[q + 1] == r0[q]);
                                }
                            }
                        }
                        assert forall|a: int, b: int|
                            0 <= a < b < n + 1 implies (#[trigger] ns[a]).k@ != (
                        #[trigger] ns[b]).k@ by {
                            if b == n {
                                assert(ns[a].k@ == ns0[a].k@ && ns0[a].k@ != k@);
                            } else {
                                assert(ns0[a].k@ != ns0[b].k@);
                            }
                        }
                        if n > 0 {
                            assert(rn[n] == r0[n - 1]);
                        }
                        assert(self.inv());
                        assert forall|q: int|
                            0 <= q < n + 1 implies #[trigger] self.entries()[q] == (seq![(k@, v)]
                            + e0)[q] by {
                            if q == 0 {
                            } else {
                                assert(rn[q] == r0[q - 1]);
                                assert(self.entries()[q] == (ns[r0[q - 1]].k@, ns[r0[q - 1]].v));
                                assert(e0[q - 1] == (ns0[r0[q - 1]].k@, ns0[r0[q - 1]].v));
                            }
                        }
                        assert(self.entries() =~= seq![(k@, v)] + e0);
                    }
                    None
                }
            },
        }
    }

    fn get<'a>(&'a mut self, k: &String) -> (r: Option<&'a V>) {
        let ghost e0 = self.entries();
        match self.find(k) {
            Some(i) => {
                proof {
                    self.lemma_slot_entry(i as int);
                }
                self.move_to_front(i);
                proof {
                    assert(self.entries() == after_get(e0, k@));
                }
                Some(&self.nodes[i].v)
            },
            None => None,
        }
    }

    fn len(&self) -> (n: usize) {
        self.nodes.len()
    }

    fn clear(&mut self) {
        self.nodes.clear();
        self.head = None;
        self.tail = None;
        self.recency = Ghost(Seq::empty());
        proof {
            assert(self.entries() =~= Seq::<(Seq<char>, V)>::empty());
        }
    }
}

} // verus!
