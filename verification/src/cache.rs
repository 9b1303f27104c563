//! The cache orchestrator: a fixed-capacity store of entries coordinated
//! between an ordered index (for lookup by address) and an eviction-order
//! queue (for choosing a victim when the capacity is reached).
//!
//! Entries live in an arena owned exclusively by the cache; both the index
//! and the queue refer to them through opaque handles (arena slots), never
//! by owning them. Every operation that removes or replaces an entry in one
//! structure does so in the other within the same call, so the two always
//! describe the same set of resident entries.

use crate::addr::Addr;
use crate::bst::BinarySearchTree;
use crate::data::Data;
use crate::elem::Elem;
use vstd::prelude::*;

verus! {

/// The fixed-capacity cache. `entries` is the arena of cache lines; a
/// handle is an index into it. `deque` holds the handles in eviction order
/// (front first), `bst` maps each resident address to its handle, and
/// `free` recycles vacated arena slots.
pub struct Cache {
    entries: Vec<Option<Elem>>,
    free: Vec<usize>,
    deque: Vec<usize>,
    bst: BinarySearchTree<usize>,
    capacity: usize,
}

impl Cache {
    /// The capacity fixed at construction.
    pub closed spec fn cap(self) -> usize {
        self.capacity
    }

    /// The slot behind `h` holds a live entry.
    pub closed spec fn valid_handle(self, h: usize) -> bool {
        h < self.entries@.len() && self.entries@[h as int] is Some
    }

    /// The address of the entry behind `h`.
    pub closed spec fn handle_addr(self, h: usize) -> usize
        recommends
            self.valid_handle(h),
    {
        self.entries@[h as int].unwrap().addr.0
    }

    /// The entry the queue refers to at position `i`.
    pub closed spec fn queue_entry(self, i: int) -> Elem
        recommends
            0 <= i < self.order().len(),
    {
        self.entries@[self.deque@[i] as int].unwrap()
    }

    /// The resident entries, by address.
    pub closed spec fn contents(self) -> Map<usize, Elem> {
        Map::new(
            |a: usize| self.bst@.dom().contains(a),
            |a: usize| self.entries@[self.bst@[a] as int].unwrap(),
        )
    }

    /// The resident addresses in eviction order: the front of the queue
    /// first, the most recently appended last.
    pub closed spec fn order(self) -> Seq<usize> {
        Seq::new(self.deque@.len(), |i: int| self.entries@[self.deque@[i] as int].unwrap().addr.0)
    }

    /// The free list only holds vacant arena slots, each at most once.
    pub closed spec fn arena_wf(self) -> bool {
        &&& forall|j: int|
            0 <= j < self.free@.len() ==> (#[trigger] self.free@[j]) < self.entries@.len()
                && self.entries@[self.free@[j] as int] is None
        &&& forall|i: int, j: int|
            #![trigger self.free@[i], self.free@[j]]
            0 <= i < self.free@.len() && 0 <= j < self.free@.len() && i != j ==> self.free@[i]
                != self.free@[j]
    }

    /// The dual-structure invariant. Every queue position holds a live
    /// handle whose entry's address the index maps back to that very
    /// handle; every indexed address is backed by a live handle that sits
    /// somewhere in the queue; no handle appears in the queue twice; and
    /// the queue never grows beyond the capacity.
    pub closed spec fn wf(self) -> bool {
        &&& self.bst.wf()
        &&& self.arena_wf()
        &&& self.deque@.len() <= self.capacity
        &&& forall|i: int|
            0 <= i < self.deque@.len() ==> self.valid_handle(#[trigger] self.deque@[i])
        &&& forall|i: int|
            0 <= i < self.deque@.len() ==> self.bst@.contains_key(
                self.handle_addr(#[trigger] self.deque@[i]),
            ) && self.bst@[self.handle_addr(self.deque@[i])] == self.deque@[i]
        &&& forall|i: int, j: int|
            #![trigger self.deque@[i], self.deque@[j]]
            0 <= i < self.deque@.len() && 0 <= j < self.deque@.len() && i != j ==> self.deque@[i]
                != self.deque@[j]
        &&& forall|a: usize|
            #[trigger] self.bst@.dom().contains(a) ==> self.valid_handle(self.bst@[a])
                && self.handle_addr(self.bst@[a]) == a && self.deque@.contains(self.bst@[a])
    }

    /// What `read` returns: the value stored for a resident address,
    /// nothing for an absent one.
    pub open spec fn read_spec(self, addr: Addr) -> Option<Data> {
        if self.contents().contains_key(addr.0) {
            Some(self.contents()[addr.0].data)
        } else {
            None
        }
    }

    /// How one store operation (a `put`, or the store half of a `write`)
    /// changes the cache, with `sync` the flag the stored entry ends up
    /// carrying and `ejected` the entry handed back to the caller.
    ///
    /// An already-resident address keeps its queue position and only has
    /// its entry replaced. A new address is appended at the back; if the
    /// queue is already full, one victim leaves first, taken from the back
    /// of the queue when the incoming address is numerically odd and from
    /// the front when it is even.
    pub open spec fn step(
        pre: Cache,
        post: Cache,
        addr: Addr,
        data: Data,
        sync: bool,
        ejected: Option<Elem>,
    ) -> bool {
        let a = addr.0;
        let e = Elem { addr, data, sync };
        &&& post.cap() == pre.cap()
        &&& if pre.contents().contains_key(a) {
            &&& post.contents() == pre.contents().insert(a, e)
            &&& post.order() == pre.order()
            &&& ejected == Some(pre.contents()[a])
        } else if pre.order().len() < pre.cap() {
            &&& post.contents() == pre.contents().insert(a, e)
            &&& post.order() == pre.order().push(a)
            &&& ejected is None
        } else {
            let victim = if a % 2 == 1 {
                pre.order().last()
            } else {
                pre.order().first()
            };
            let trimmed = if a % 2 == 1 {
                pre.order().drop_last()
            } else {
                pre.order().skip(1)
            };
            &&& post.contents() == pre.contents().remove(victim).insert(a, e)
            &&& post.order() == trimmed.push(a)
            &&& ejected == Some(pre.contents()[victim])
        }
    }

    /// An empty cache that will hold at most `capacity` entries.
    pub fn with_capacity(capacity: usize) -> (c: Cache)
        ensures
            c.wf(),
            c.cap() == capacity,
            c.contents() == Map::<usize, Elem>::empty(),
            c.order() == Seq::<usize>::empty(),
    {
        let c = Cache {
            entries: Vec::new(),
            free: Vec::new(),
            deque: Vec::new(),
            bst: BinarySearchTree::default(),
            capacity,
        };
        proof {
            assert(c.contents() =~= Map::<usize, Elem>::empty());
            assert(c.order() =~= Seq::<usize>::empty());
        }
        c
    }

    /// Look an address up without touching anything: a hit returns the
    /// stored value, a miss returns nothing.
    pub fn read(&self, addr: &Addr) -> (r: Option<Data>)
        requires
            self.wf(),
        ensures
            r == self.read_spec(*addr),
    {
        let a = addr.value();
        match self.bst.get(&a) {
            None => None,
            Some(h) => {
                let slot = self.entries[*h];
                Some(slot.unwrap().data)
            },
        }
    }

    /// Take a slot for a fresh entry: recycle a free one, or grow the
    /// arena. Everything the queue and the index refer to stays put, and
    /// the returned handle clashes with none of it.
    fn take_slot(&mut self, e: Elem) -> (h: usize)
        requires
            old(self).arena_wf(),
        ensures
            final(self).arena_wf(),
            final(self).deque == old(self).deque,
            final(self).bst == old(self).bst,
            final(self).capacity == old(self).capacity,
            h < final(self).entries@.len(),
            final(self).entries@[h as int] == Some(e),
            h >= old(self).entries@.len() || old(self).entries@[h as int] is None,
            old(self).entries@.len() <= final(self).entries@.len(),
            forall|j: int|
                0 <= j < old(self).entries@.len() && j != h ==> final(self).entries@[j] == old(
                    self,
                ).entries@[j],
    {
        match self.free.pop() {
            Some(h) => {
                self.entries[h] = Some(e);
                proof {
                    assert forall|j: int|
                        0 <= j < self.free@.len() implies (#[trigger] self.free@[j])
                        < self.entries@.len() && self.entries@[self.free@[j] as int] is None by {
                        assert(old(self).free@[j] == self.free@[j]);
                        assert(self.free@[j] != h);
                    }
                }
                h
            },
            None => {
                let h = self.entries.len();
                self.entries.push(Some(e));
                h
            },
        }
    }

    /// Vacate the slot behind a handle and hand its entry back, putting
    /// the slot on the free list.
    fn release(&mut self, h: usize) -> (e: Elem)
        requires
            old(self).arena_wf(),
            h < old(self).entries@.len(),
            old(self).entries@[h as int] is Some,
        ensures
            final(self).arena_wf(),
            final(self).deque == old(self).deque,
            final(self).bst == old(self).bst,
            final(self).capacity == old(self).capacity,
            e == old(self).entries@[h as int].unwrap(),
            final(self).entries@ == old(self).entries@.update(h as int, None),
    {
        let slot = self.entries[h];
        let e = slot.unwrap();
        self.entries[h] = None;
        self.free.push(h);
        e
    }

    /// Store `data` at `addr`. A resident address has its entry replaced
    /// in place, keeping its queue position, and the previous entry is
    /// returned to the caller. A new address is appended to the back of the
    /// queue; with the queue already full, one victim leaves first — from
    /// the back for a numerically odd incoming address, from the front for
    /// an even one — and is returned. A positive capacity is required:
    /// there is nowhere to store a new address otherwise.
    pub fn put(&mut self, addr: Addr, data: Data) -> (ejected: Option<Elem>)
        requires
            old(self).wf(),
            old(self).cap() > 0,
        ensures
            final(self).wf(),
            Cache::step(*old(self), *final(self), addr, data, true, ejected),
    {
        let ghost pre = *old(self);
        let elem = Elem::new(addr, data);
        let h = self.take_slot(elem);
        let ghost s1 = *self;
        proof {
            assert forall|k: usize| pre.bst@.dom().contains(k) implies pre.bst@[k] != h by {
                assert(pre.valid_handle(pre.bst@[k]));
            }
            assert forall|i: int| 0 <= i < pre.deque@.len() implies pre.deque@[i] != h by {
                assert(pre.valid_handle(pre.deque@[i]));
            }
            assert(s1.contents() =~= pre.contents());
            assert(s1.order() =~= pre.order());
        }
        let a = addr.value();
        let found: Option<usize> = match self.bst.get(&a) {
            Some(hit) => Some(*hit),
            None => None,
        };
        match found {
            Some(old_h) => {
                // The address is already resident: splice the fresh entry
                // into the index at `addr` and into the queue at the old
                // entry's position, then hand the old entry back.
                proof {
                    assert(pre.bst@.contains_key(a));
                    assert(old_h == pre.bst@[a]);
                    assert(self.deque@.contains(old_h));
                }
                let idx = self.find_in_deque(old_h);
                self.deque[idx] = h;
                self.bst.set(a, h);
                let prev = self.release(old_h);
                proof {
                    let post = *self;
                    assert(pre.valid_handle(old_h));
                    assert(old_h != h);
                    assert(post.bst@ == pre.bst@.insert(a, h));
                    assert(post.deque@ == pre.deque@.update(idx as int, h));
                    assert(pre.handle_addr(old_h) == a);
                    assert forall|k: usize| pre.bst@.dom().contains(k) && k != a implies pre.bst@[k]
                        != old_h by {
                        assert(pre.handle_addr(pre.bst@[k]) == k);
                    }
                    assert forall|i: int|
                        0 <= i < post.deque@.len() && i != idx implies post.deque@[i]
                        == pre.deque@[i] && post.deque@[i] != old_h && post.deque@[i] != h by {
                        assert(pre.deque@[idx as int] == old_h);
                    }
                    assert forall|i: int| 0 <= i < post.deque@.len() implies post.valid_handle(
                        #[trigger] post.deque@[i],
                    ) && post.bst@.contains_key(post.handle_addr(post.deque@[i]))
                        && post.bst@[post.handle_addr(post.deque@[i])] == post.deque@[i] by {
                        if i == idx {
                            assert(post.entries@[h as int] == Some(elem));
                            assert(post.handle_addr(h) == a);
                        } else {
                            assert(pre.valid_handle(pre.deque@[i]));
                            assert(post.handle_addr(post.deque@[i]) == pre.handle_addr(
                                pre.deque@[i],
                            ));
                            assert(pre.handle_addr(pre.deque@[i]) != a);
                        }
                    }
                    assert forall|k: usize| #[trigger]
                        post.bst@.dom().contains(k) implies post.valid_handle(post.bst@[k])
                        && post.handle_addr(post.bst@[k]) == k && post.deque@.contains(
                        post.bst@[k],
                    ) by {
                        if k == a {
                            assert(post.deque@[idx as int] == h);
                        } else {
                            assert(pre.bst@.dom().contains(k));
                            assert(post.bst@[k] == pre.bst@[k]);
                            assert(pre.valid_handle(pre.bst@[k]));
                            let w = choose|i: int|
                                0 <= i < pre.deque@.len() && pre.deque@[i] == pre.bst@[k];
                            assert(post.deque@[w] == pre.bst@[k]);
                        }
                    }
                    assert(post.wf());
                    assert(post.contents() =~= pre.contents().insert(
                        a,
                        Elem { addr, data, sync: true },
                    ));
                    assert(post.order() =~= pre.order()) by {
                        assert forall|i: int| 0 <= i < post.deque@.len() implies post.order()[i]
                            == pre.order()[i] by {
                            if i == idx {
                                assert(post.handle_addr(h) == a);
                            }
                        }
                    }
                    assert(prev == pre.contents()[a]);
                }
                Some(prev)
            },
            None => {
                // The address is new. At capacity, the parity of the
                // incoming address picks the queue end that loses its
                // entry; then the fresh entry joins the back of the queue
                // and the index.
                proof {
                    assert(!pre.contents().contains_key(a));
                    assert(pre.deque@.len() == pre.order().len());
                }
                let ejected: Option<Elem> = if self.deque.len() >= self.capacity {
                    let victim_h = if addr.is_even() {
                        self.deque.pop().unwrap()
                    } else {
                        self.deque.remove(0)
                    };
                    let ghost trimmed_deque = self.deque@;
                    proof {
                        assert(pre.valid_handle(victim_h));
                        assert(victim_h != h);
                        assert forall|i: int|
                            0 <= i < trimmed_deque.len() implies trimmed_deque[i] != victim_h
                            && trimmed_deque[i] != h && pre.valid_handle(trimmed_deque[i]) by {
                            if addr.0 % 2 != 0 {
                                assert(trimmed_deque[i] == pre.deque@[i]);
                                assert(pre.deque@[pre.deque@.len() - 1] == victim_h);
                            } else {
                                assert(trimmed_deque[i] == pre.deque@[i + 1]);
                                assert(pre.deque@[0] == victim_h);
                            }
                        }
                    }
                    let victim_slot = self.entries[victim_h];
                    let va = victim_slot.unwrap().addr().value();
                    proof {
                        assert(va == pre.handle_addr(victim_h));
                        assert(pre.bst@.contains_key(va));
                        assert(pre.bst@[va] == victim_h) by {
                            if addr.0 % 2 != 0 {
                                assert(pre.bst@[pre.handle_addr(
                                    pre.deque@[pre.deque@.len() - 1],
                                )] == pre.deque@[pre.deque@.len() - 1]);
                            } else {
                                assert(pre.bst@[pre.handle_addr(pre.deque@[0])] == pre.deque@[0]);
                            }
                        }
                        assert(va != a);
                    }
                    self.bst.delete(&va);
                    let victim = self.release(victim_h);
                    proof {
                        assert(victim == pre.contents()[va]);
                        assert forall|k: usize|
                            pre.bst@.dom().contains(k) && k != va implies pre.bst@[k]
                            != victim_h by {
                            assert(pre.handle_addr(pre.bst@[k]) == k);
                        }
                    }
                    Some(victim)
                } else {
                    None
                };
                let ghost s2 = *self;
                self.deque.push(h);
                self.bst.set(a, h);
                proof {
                    let post = *self;
                    let e = Elem { addr, data, sync: true };
                    assert(post.deque@ == s2.deque@.push(h));
                    assert(post.bst@ == s2.bst@.insert(a, h));
                    assert(post.entries@ == s2.entries@);
                    if ejected is None {
                        assert(s2.bst@ == pre.bst@);
                        assert(s2.deque@ == pre.deque@);
                        assert(pre.order().len() < pre.cap());
                        assert forall|i: int| 0 <= i < post.deque@.len() implies post.valid_handle(
                            #[trigger] post.deque@[i],
                        ) && post.bst@.contains_key(post.handle_addr(post.deque@[i]))
                            && post.bst@[post.handle_addr(post.deque@[i])] == post.deque@[i]
                            && (i != post.deque@.len() - 1 ==> post.deque@[i] != h) by {
                            if i == post.deque@.len() - 1 {
                                assert(post.deque@[i] == h);
                                assert(post.handle_addr(h) == a);
                            } else {
                                assert(post.deque@[i] == pre.deque@[i]);
                                assert(pre.valid_handle(pre.deque@[i]));
                                assert(pre.handle_addr(pre.deque@[i]) != a);
                            }
                        }
                        assert forall|k: usize| #[trigger]
                            post.bst@.dom().contains(k) implies post.valid_handle(post.bst@[k])
                            && post.handle_addr(post.bst@[k]) == k && post.deque@.contains(
                            post.bst@[k],
                        ) by {
                            if k == a {
                                assert(post.deque@[post.deque@.len() - 1] == h);
                            } else {
                                assert(pre.bst@.dom().contains(k));
                                assert(pre.valid_handle(pre.bst@[k]));
                                let w = choose|i: int|
                                    0 <= i < pre.deque@.len() && pre.deque@[i] == pre.bst@[k];
                                assert(post.deque@[w] == pre.bst@[k]);
                            }
                        }
                        assert(post.wf());
                        assert(post.contents() =~= pre.contents().insert(a, e));
                        assert(post.order() =~= pre.order().push(a)) by {
                            assert forall|i: int|
                                0 <= i < post.deque@.len() - 1 implies post.order()[i]
                                == pre.order()[i] by {
                                assert(post.deque@[i] == pre.deque@[i]);
                            }
                            assert(post.handle_addr(h) == a);
                        }
                    } else {
                        let victim = if a % 2 == 1 {
                            pre.order().last()
                        } else {
                            pre.order().first()
                        };
                        let trimmed = if a % 2 == 1 {
                            pre.order().drop_last()
                        } else {
                            pre.order().skip(1)
                        };
                        let victim_h = pre.bst@[victim];
                        assert(pre.deque@.len() == pre.cap());
                        assert(s2.bst@ == pre.bst@.remove(victim));
                        assert forall|i: int|
                            0 <= i < s2.deque@.len() implies s2.valid_handle(
                            #[trigger] s2.deque@[i],
                        ) && s2.handle_addr(s2.deque@[i]) == trimmed[i] by {
                            if a % 2 == 1 {
                                assert(s2.deque@[i] == pre.deque@[i]);
                            } else {
                                assert(s2.deque@[i] == pre.deque@[i + 1]);
                            }
                        }
                        assert forall|i: int| 0 <= i < post.deque@.len() implies post.valid_handle(
                            #[trigger] post.deque@[i],
                        ) && post.bst@.contains_key(post.handle_addr(post.deque@[i]))
                            && post.bst@[post.handle_addr(post.deque@[i])] == post.deque@[i] by {
                            if i == post.deque@.len() - 1 {
                                assert(post.deque@[i] == h);
                                assert(post.handle_addr(h) == a);
                            } else {
                                let p = if a % 2 == 1 { i } else { i + 1 };
                                assert(post.deque@[i] == pre.deque@[p]);
                                assert(pre.valid_handle(pre.deque@[p]));
                                assert(pre.handle_addr(pre.deque@[p]) != a);
                                assert(pre.handle_addr(pre.deque@[p]) != victim) by {
                                    if pre.handle_addr(pre.deque@[p]) == victim {
                                        assert(pre.bst@[victim] == pre.deque@[p]);
                                        assert(pre.deque@[p] != victim_h);
                                    }
                                }
                            }
                        }
                        assert forall|i: int, j: int|
                            #![trigger post.deque@[i], post.deque@[j]]
                            0 <= i < post.deque@.len() && 0 <= j < post.deque@.len() && i != j
                            implies post.deque@[i] != post.deque@[j] by {
                            let last = post.deque@.len() - 1;
                            if i != last && j != last {
                                let p = if a % 2 == 1 { i } else { i + 1 };
                                let q = if a % 2 == 1 { j } else { j + 1 };
                                assert(post.deque@[i] == pre.deque@[p]);
                                assert(post.deque@[j] == pre.deque@[q]);
                            }
                        }
                        assert forall|k: usize| #[trigger]
                            post.bst@.dom().contains(k) implies post.valid_handle(post.bst@[k])
                            && post.handle_addr(post.bst@[k]) == k && post.deque@.contains(
                            post.bst@[k],
                        ) by {
                            if k == a {
                                assert(post.deque@[post.deque@.len() - 1] == h);
                            } else {
                                assert(pre.bst@.dom().contains(k) && k != victim);
                                assert(pre.valid_handle(pre.bst@[k]));
                                assert(pre.bst@[k] != victim_h);
                                let w = choose|i: int|
                                    0 <= i < pre.deque@.len() && pre.deque@[i] == pre.bst@[k];
                                assert(pre.deque@[w] != victim_h);
                                let w2 = if a % 2 == 1 { w } else { w - 1 };
                                if a % 2 == 1 {
                                    assert(w != pre.deque@.len() - 1);
                                } else {
                                    assert(w != 0);
                                }
                                assert(post.deque@[w2] == pre.bst@[k]);
                            }
                        }
                        assert(post.wf());
                        assert(post.contents() =~= pre.contents().remove(victim).insert(a, e));
                        assert(post.order() =~= trimmed.push(a)) by {
                            assert forall|i: int|
                                0 <= i < post.deque@.len() - 1 implies post.order()[i]
                                == trimmed[i] by {
                                let p = if a % 2 == 1 { i } else { i + 1 };
                                assert(post.deque@[i] == pre.deque@[p]);
                                assert(post.handle_addr(pre.deque@[p]) == pre.handle_addr(
                                    pre.deque@[p],
                                ));
                            }
                            assert(post.handle_addr(h) == a);
                        }
                        assert(ejected == Some(pre.contents()[victim]));
                    }
                }
                ejected
            },
        }
    }

    /// Store `data` at `addr` exactly as `put` does, then mark the entry
    /// now resident at `addr` as desynchronized: its value no longer
    /// matches the backing store. Returns what `put` would have returned.
    pub fn write(&mut self, addr: Addr, data: Data) -> (ejected: Option<Elem>)
        requires
            old(self).wf(),
            old(self).cap() > 0,
        ensures
            final(self).wf(),
            Cache::step(*old(self), *final(self), addr, data, false, ejected),
    {
        let ghost pre = *old(self);
        let ejected = self.put(addr, data);
        let ghost mid = *self;
        let a = addr.value();
        let h = match self.bst.get(&a) {
            Some(hit) => *hit,
            None => {
                proof {
                    assert(mid.contents().contains_key(a));
                    assert(false);
                }
                0
            },
        };
        proof {
            assert(mid.contents().contains_key(a));
            assert(h == mid.bst@[a]);
            assert(mid.valid_handle(h));
        }
        let mut entry = self.entries[h].unwrap();
        entry.desync();
        self.entries[h] = Some(entry);
        proof {
            let post = *self;
            let et = Elem { addr, data, sync: true };
            let ef = Elem { addr, data, sync: false };
            assert(mid.contents()[a] == et);
            assert(mid.entries@[h as int] == Some(et));
            assert(entry == ef);
            assert forall|k: usize| mid.bst@.dom().contains(k) && k != a implies mid.bst@[k]
                != h by {
                assert(mid.handle_addr(mid.bst@[k]) == k);
                assert(mid.handle_addr(h) == a);
            }
            assert forall|x: usize| mid.valid_handle(x) implies post.valid_handle(x)
                && post.handle_addr(x) == mid.handle_addr(x) by {
                if x == h {
                    assert(post.entries@[h as int] == Some(ef));
                }
            }
            assert forall|i: int| 0 <= i < post.deque@.len() implies post.valid_handle(
                #[trigger] post.deque@[i],
            ) && post.bst@.contains_key(post.handle_addr(post.deque@[i]))
                && post.bst@[post.handle_addr(post.deque@[i])] == post.deque@[i] by {
                assert(mid.valid_handle(mid.deque@[i]));
            }
            assert forall|k: usize| #[trigger] post.bst@.dom().contains(k) implies
                post.valid_handle(post.bst@[k]) && post.handle_addr(post.bst@[k]) == k
                && post.deque@.contains(post.bst@[k]) by {
                assert(mid.valid_handle(mid.bst@[k]));
            }
            assert forall|j: int| 0 <= j < post.free@.len() implies (#[trigger] post.free@[j])
                < post.entries@.len() && post.entries@[post.free@[j] as int] is None by {
                assert(mid.free@[j] != h);
            }
            assert(post.wf());
            assert(post.contents() =~= mid.contents().insert(a, ef));
            assert(post.order() =~= mid.order());
            if pre.contents().contains_key(a) {
                assert(post.contents() =~= pre.contents().insert(a, ef));
            } else if pre.order().len() < pre.cap() {
                assert(post.contents() =~= pre.contents().insert(a, ef));
            } else {
                let victim = if a % 2 == 1 {
                    pre.order().last()
                } else {
                    pre.order().first()
                };
                assert(post.contents() =~= pre.contents().remove(victim).insert(a, ef));
            }
        }
        ejected
    }

    /// The address at the root of the index's tree, if any.
    pub closed spec fn index_root(self) -> Option<usize> {
        self.bst.root_key()
    }

    /// The resident entries in queue order, most recently appended first.
    pub fn iter(&self) -> (r: Vec<Elem>)
        requires
            self.wf(),
        ensures
            r@.len() == self.order().len(),
            forall|i: int|
                0 <= i < r@.len() ==> #[trigger] r@[i] == self.queue_entry(r@.len() - 1 - i)
                    && r@[i].addr.0 == self.order()[r@.len() - 1 - i]
                    && self.contents().contains_key(r@[i].addr.0) && r@[i]
                    == self.contents()[r@[i].addr.0],
    {
        let mut r: Vec<Elem> = Vec::new();
        let mut left: usize = self.deque.len();
        while left > 0
            invariant
                self.wf(),
                left <= self.deque@.len(),
                r@.len() + left == self.deque@.len(),
                forall|j: int|
                    0 <= j < r@.len() ==> #[trigger] r@[j] == self.queue_entry(
                        self.deque@.len() - 1 - j,
                    ),
            decreases left,
        {
            let idx = left - 1;
            proof {
                assert(self.valid_handle(self.deque@[idx as int]));
            }
            let slot = self.entries[self.deque[idx]];
            r.push(slot.unwrap());
            left = idx;
        }
        proof {
            assert forall|i: int|
                0 <= i < r@.len() implies #[trigger] r@[i] == self.queue_entry(r@.len() - 1 - i)
                && r@[i].addr.0 == self.order()[r@.len() - 1 - i] && self.contents().contains_key(
                r@[i].addr.0,
            ) && r@[i] == self.contents()[r@[i].addr.0] by {
                let p = r@.len() - 1 - i;
                assert(self.valid_handle(self.deque@[p]));
                assert(self.bst@[self.handle_addr(self.deque@[p])] == self.deque@[p]);
            }
        }
        r
    }

    /// The resident entries in ascending address order, read off the
    /// index's in-order traversal.
    pub fn inorder_iter(&self) -> (r: Vec<Elem>)
        requires
            self.wf(),
        ensures
            forall|i: int, j: int|
                0 <= i < j < r@.len() ==> #[trigger] r@[i].addr.0 < #[trigger] r@[j].addr.0,
            forall|i: int|
                0 <= i < r@.len() ==> self.contents().contains_key(#[trigger] r@[i].addr.0)
                    && r@[i] == self.contents()[r@[i].addr.0],
            forall|a: usize|
                #[trigger] self.contents().contains_key(a) ==> exists|i: int|
                    0 <= i < r@.len() && #[trigger] r@[i].addr.0 == a,
    {
        proof {
            self.bst.lemma_inorder_keys_ascending();
            self.bst.lemma_inorder_matches_view();
        }
        let ghost full = self.bst.inorder_seq();
        let mut it = self.bst.inorder_iter();
        let mut r: Vec<Elem> = Vec::new();
        loop
            invariant_except_break
                self.wf(),
                full == self.bst.inorder_seq(),
                r@.len() <= full.len(),
                it.remaining() == full.skip(r@.len() as int),
                forall|j: int|
                    0 <= j < r@.len() ==> #[trigger] r@[j].addr.0 == full[j].0 && r@[j]
                        == self.entries@[full[j].1 as int].unwrap(),
            ensures
                self.wf(),
                full == self.bst.inorder_seq(),
                r@.len() == full.len(),
                forall|j: int|
                    0 <= j < r@.len() ==> #[trigger] r@[j].addr.0 == full[j].0 && r@[j]
                        == self.entries@[full[j].1 as int].unwrap(),
            decreases full.len() - r@.len(),
        {
            match it.next() {
                None => {
                    proof {
                        assert(full.skip(r@.len() as int).len() == 0);
                    }
                    break;
                },
                Some(pair) => {
                    let ghost n = r@.len() as int;
                    proof {
                        self.bst.lemma_inorder_matches_view();
                        assert(full.skip(n)[0] == full[n]);
                        assert(self.bst@.contains_pair(full[n].0, full[n].1));
                        assert(self.valid_handle(self.bst@[full[n].0]));
                    }
                    let h = *pair.1;
                    let slot = self.entries[h];
                    r.push(slot.unwrap());
                    proof {
                        assert(full.skip(n).skip(1) =~= full.skip(n + 1));
                        assert(self.handle_addr(full[n].1) == full[n].0);
                    }
                },
            }
        }
        proof {
            self.bst.lemma_inorder_keys_ascending();
            self.bst.lemma_inorder_matches_view();
            assert forall|i: int|
                0 <= i < r@.len() implies self.contents().contains_key(#[trigger] r@[i].addr.0)
                && r@[i] == self.contents()[r@[i].addr.0] by {
                assert(self.bst@.contains_pair(full[i].0, full[i].1));
            }
            assert forall|a: usize| #[trigger] self.contents().contains_key(a) implies exists|
                i: int,
            | 0 <= i < r@.len() && #[trigger] r@[i].addr.0 == a by {
                let i = choose|i: int|
                    0 <= i < full.len() && #[trigger] full[i] == (a, self.bst@[a]);
                assert(r@[i].addr.0 == a);
            }
        }
        r
    }

    /// The resident entries in the index's pre-order: each tree node
    /// before either of its subtrees, the root therefore first.
    pub fn preorder_iter(&self) -> (r: Vec<Elem>)
        requires
            self.wf(),
        ensures
            r@.len() > 0 ==> Some(r@[0].addr.0) == self.index_root(),
            forall|i: int|
                0 <= i < r@.len() ==> self.contents().contains_key(#[trigger] r@[i].addr.0)
                    && r@[i] == self.contents()[r@[i].addr.0],
            forall|a: usize|
                #[trigger] self.contents().contains_key(a) ==> exists|i: int|
                    0 <= i < r@.len() && #[trigger] r@[i].addr.0 == a,
    {
        proof {
            self.bst.lemma_preorder_matches_view();
            self.bst.lemma_preorder_opens_with_root();
        }
        let ghost full = self.bst.preorder_seq();
        let mut it = self.bst.preorder_iter();
        let mut r: Vec<Elem> = Vec::new();
        loop
            invariant_except_break
                self.wf(),
                full == self.bst.preorder_seq(),
                r@.len() <= full.len(),
                it.remaining() == full.skip(r@.len() as int),
                forall|j: int|
                    0 <= j < r@.len() ==> #[trigger] r@[j].addr.0 == full[j].0 && r@[j]
                        == self.entries@[full[j].1 as int].unwrap(),
            ensures
                self.wf(),
                full == self.bst.preorder_seq(),
                r@.len() == full.len(),
                forall|j: int|
                    0 <= j < r@.len() ==> #[trigger] r@[j].addr.0 == full[j].0 && r@[j]
                        == self.entries@[full[j].1 as int].unwrap(),
            decreases full.len() - r@.len(),
        {
            match it.next() {
                None => {
                    proof {
                        assert(full.skip(r@.len() as int).len() == 0);
                    }
                    break;
                },
                Some(pair) => {
                    let ghost n = r@.len() as int;
                    proof {
                        self.bst.lemma_preorder_matches_view();
                        assert(full.skip(n)[0] == full[n]);
                        assert(self.bst@.contains_pair(full[n].0, full[n].1));
                        assert(self.valid_handle(self.bst@[full[n].0]));
                    }
                    let h = *pair.1;
                    let slot = self.entries[h];
                    r.push(slot.unwrap());
                    proof {
                        assert(full.skip(n).skip(1) =~= full.skip(n + 1));
                        assert(self.handle_addr(full[n].1) == full[n].0);
                    }
                },
            }
        }
        proof {
            self.bst.lemma_preorder_matches_view();
            self.bst.lemma_preorder_opens_with_root();
            assert forall|i: int|
                0 <= i < r@.len() implies self.contents().contains_key(#[trigger] r@[i].addr.0)
                && r@[i] == self.contents()[r@[i].addr.0] by {
                assert(self.bst@.contains_pair(full[i].0, full[i].1));
            }
            assert forall|a: usize| #[trigger] self.contents().contains_key(a) implies exists|
                i: int,
            | 0 <= i < r@.len() && #[trigger] r@[i].addr.0 == a by {
                let i = choose|i: int|
                    0 <= i < full.len() && #[trigger] full[i] == (a, self.bst@[a]);
                assert(r@[i].addr.0 == a);
            }
        }
        r
    }

    /// The position of a handle in the queue; the original walks the whole
    /// queue the same way to find the handle being replaced.
    fn find_in_deque(&self, target: usize) -> (idx: usize)
        requires
            self.deque@.contains(target),
        ensures
            idx < self.deque@.len(),
            self.deque@[idx as int] == target,
    {
        let mut i: usize = 0;
        while i < self.deque.len()
            invariant
                i <= self.deque@.len(),
                self.deque@.contains(target),
                forall|j: int| 0 <= j < i ==> self.deque@[j] != target,
            decreases self.deque@.len() - i,
        {
            if self.deque[i] == target {
                return i;
            }
            i += 1;
        }
        proof {
            let w = choose|j: int| 0 <= j < self.deque@.len() && self.deque@[j] == target;
            assert(false);
        }
        0
    }
}


/// Law: however it was driven there, a well-formed cache never holds more
/// resident addresses than its capacity; every operation above returns a
/// well-formed cache.
pub proof fn lemma_capacity_bound(c: Cache)
    requires
        c.wf(),
    ensures
        c.order().len() <= c.cap(),
{
}

/// Law: the index and the queue always agree. They list exactly the same
/// addresses, each exactly once, and for every resident address the entry
/// reached through the queue's handle is the entry the index returns.
pub proof fn lemma_index_queue_agree(c: Cache)
    requires
        c.wf(),
    ensures
        forall|i: int|
            0 <= i < c.order().len() ==> c.contents().contains_key(#[trigger] c.order()[i])
                && c.queue_entry(i) == c.contents()[c.order()[i]],
        forall|i: int, j: int|
            0 <= i < c.order().len() && 0 <= j < c.order().len() && i != j ==> #[trigger] c.order()[i]
                != #[trigger] c.order()[j],
        forall|a: usize| #[trigger] c.contents().contains_key(a) ==> c.order().contains(a),
{
    assert forall|i: int|
        0 <= i < c.order().len() implies c.contents().contains_key(#[trigger] c.order()[i])
        && c.queue_entry(i) == c.contents()[c.order()[i]] by {
        assert(c.valid_handle(c.deque@[i]));
        assert(c.bst@[c.handle_addr(c.deque@[i])] == c.deque@[i]);
    }
    assert forall|i: int, j: int|
        0 <= i < c.order().len() && 0 <= j < c.order().len() && i != j implies #[trigger] c.order()[i]
        != #[trigger] c.order()[j] by {
        assert(c.valid_handle(c.deque@[i]));
        assert(c.valid_handle(c.deque@[j]));
        assert(c.deque@[i] != c.deque@[j]);
        if c.handle_addr(c.deque@[i]) == c.handle_addr(c.deque@[j]) {
            assert(c.bst@[c.handle_addr(c.deque@[i])] == c.deque@[i]);
            assert(c.bst@[c.handle_addr(c.deque@[j])] == c.deque@[j]);
        }
    }
    assert forall|a: usize| #[trigger] c.contents().contains_key(a) implies c.order().contains(
        a,
    ) by {
        let w = choose|i: int| 0 <= i < c.deque@.len() && c.deque@[i] == c.bst@[a];
        assert(c.order()[w] == a);
    }
}

/// Law: a store at an address followed immediately by a read of the same
/// address yields exactly the stored value, for a `put` and for a `write`
/// alike.
pub proof fn lemma_store_then_read(
    pre: Cache,
    post: Cache,
    addr: Addr,
    data: Data,
    sync: bool,
    ejected: Option<Elem>,
)
    requires
        Cache::step(pre, post, addr, data, sync, ejected),
    ensures
        post.read_spec(addr) == Some(data),
{
}

/// Law: reading mutates nothing and its result is a function of the cache
/// state alone, so repeated reads with no intervening writes all agree.
pub proof fn lemma_read_repeatable(c: Cache, addr: Addr, r1: Option<Data>, r2: Option<Data>)
    requires
        r1 == c.read_spec(addr),
        r2 == c.read_spec(addr),
    ensures
        r1 == r2,
{
}

/// Law: storing a new address below capacity evicts nothing and appends
/// the address; the store that meets a full queue evicts exactly one
/// resident entry, taken from the queue end selected by the incoming
/// address's parity.
pub proof fn lemma_fill_then_evict(
    pre: Cache,
    post: Cache,
    addr: Addr,
    data: Data,
    sync: bool,
    ejected: Option<Elem>,
)
    requires
        pre.wf(),
        pre.cap() > 0,
        !pre.contents().contains_key(addr.0),
        Cache::step(pre, post, addr, data, sync, ejected),
    ensures
        pre.order().len() < pre.cap() ==> ejected is None && post.order() == pre.order().push(
            addr.0,
        ) && post.contents().dom() == pre.contents().dom().insert(addr.0),
        pre.order().len() >= pre.cap() ==> ({
            let victim = if addr.0 % 2 == 1 {
                pre.order().last()
            } else {
                pre.order().first()
            };
            &&& ejected == Some(pre.contents()[victim])
            &&& ejected.unwrap().addr.0 == victim
            &&& post.contents().dom() == pre.contents().dom().remove(victim).insert(addr.0)
            &&& post.order().len() == pre.order().len()
        }),
{
    if pre.order().len() < pre.cap() {
        assert(post.contents().dom() =~= pre.contents().dom().insert(addr.0));
    } else {
        let victim = if addr.0 % 2 == 1 {
            pre.order().last()
        } else {
            pre.order().first()
        };
        let vi = if addr.0 % 2 == 1 {
            pre.order().len() - 1
        } else {
            0
        };
        assert(pre.order()[vi] == victim);
        assert(pre.contents().contains_key(victim));
        assert(pre.valid_handle(pre.deque@[vi]));
        assert(pre.bst@[pre.handle_addr(pre.deque@[vi])] == pre.deque@[vi]);
        assert(pre.contents()[victim].addr.0 == victim);
        assert(post.contents().dom() =~= pre.contents().dom().remove(victim).insert(addr.0));
    }
}

/// Law: every store leaves the entry now resident at the stored address
/// carrying exactly the stored value and the operation's flag — in sync
/// after a `put`, desynchronized after a `write`.
pub proof fn lemma_sync_flag(
    pre: Cache,
    post: Cache,
    addr: Addr,
    data: Data,
    sync: bool,
    ejected: Option<Elem>,
)
    requires
        Cache::step(pre, post, addr, data, sync, ejected),
    ensures
        post.contents().contains_key(addr.0),
        post.contents()[addr.0] == (Elem { addr, data, sync }),
{
}

} // verus!
