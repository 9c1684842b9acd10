//! An earlier revision of the resting-order store kept alongside
//! [`crate::arena::OrderArena`]: the same dense, slot-reusing design with an
//! id-to-slot index, without the lookup helpers that the matching engine
//! needs.

use std::collections::HashMap;
use vstd::prelude::*;

use crate::models::LimitOrder;

verus! {

broadcast use vstd::std_specs::hash::group_hash_axioms;

/// The slot store: a growable vector of order records, a free list of
/// reusable slot indices, and a map from order id to slot index.
#[derive(Debug)]
pub struct OrderMap {
    orders: Vec<LimitOrder>,
    free: Vec<usize>,
    order_map: HashMap<u128, usize>,
}

impl OrderMap {
    /// The sequence of order slots, indexed by handle.
    pub closed spec fn slots(self) -> Seq<LimitOrder> {
        self.orders@
    }

    /// The stack of currently reusable slot indices.
    pub closed spec fn free_list(self) -> Seq<usize> {
        self.free@
    }

    /// The id-to-handle index.
    pub closed spec fn idx_of(self) -> Map<u128, usize> {
        self.order_map@
    }

    /// Well-formedness: free slots are in bounds, dead and mutually
    /// distinct; mapped ids point at in-bounds slots that carry that id; no
    /// mapped slot is on the free list.
    pub open spec fn wf(self) -> bool {
        &&& forall|k: int|
            0 <= k < self.free_list().len() ==> (#[trigger] self.free_list()[k]) < self.slots().len()
        &&& forall|k: int|
            0 <= k < self.free_list().len() ==> self.slots()[#[trigger] self.free_list()[k] as int].qty == 0
        &&& forall|k1: int, k2: int|
            0 <= k1 < k2 < self.free_list().len() ==> #[trigger] self.free_list()[k1] != #[trigger] self.free_list()[k2]
        &&& forall|id: u128|
            self.idx_of().contains_key(id) ==> (#[trigger] self.idx_of()[id]) < self.slots().len()
        &&& forall|id: u128|
            self.idx_of().contains_key(id) ==> self.slots()[#[trigger] self.idx_of()[id] as int].id == id
        &&& forall|id: u128, k: int|
            self.idx_of().contains_key(id) && 0 <= k < self.free_list().len()
                ==> (#[trigger] self.idx_of()[id]) != (#[trigger] self.free_list()[k])
    }

    /// Create a store with `capacity` pre-allocated dead slots, all of them
    /// on the free list with the highest index on top.
    pub fn new(capacity: usize) -> (r: Self)
        ensures
            r.wf(),
            r.slots() == Seq::new(capacity as nat, |i: int| LimitOrder { id: 0, qty: 0, price: 0 }),
            r.free_list() == Seq::new(capacity as nat, |i: int| i as usize),
            r.idx_of() == Map::<u128, usize>::empty(),
    {
        let mut list = Self {
            orders: Vec::with_capacity(capacity),
            free: Vec::with_capacity(capacity),
            order_map: HashMap::with_capacity(capacity),
        };

        // Preallocate
        let mut i: usize = 0;
        while i < capacity
            invariant
                i <= capacity,
                list.orders@ == Seq::new(i as nat, |j: int| LimitOrder { id: 0, qty: 0, price: 0 }),
                list.free@ == Seq::new(i as nat, |j: int| j as usize),
                list.order_map@ == Map::<u128, usize>::empty(),
            decreases capacity - i,
        {
            list.orders.push(LimitOrder { id: 0, qty: 0, price: 0 });
            list.free.push(i);
            i += 1;
            proof {
                assert(list.orders@ =~= Seq::new(i as nat, |j: int| LimitOrder { id: 0, qty: 0, price: 0 }));
                assert(list.free@ =~= Seq::new(i as nat, |j: int| j as usize));
            }
        }
        list
    }

    /// Store an order, reusing the top free slot if one is available, and
    /// record the id-to-handle mapping. Returns the order's handle.
    pub fn insert(&mut self, id: u128, price: u64, qty: u64) -> (r: usize)
        requires
            old(self).wf(),
        ensures
            final(self).wf(),
            r < final(self).slots().len(),
            final(self).idx_of() == old(self).idx_of().insert(id, r),
            if old(self).free_list().len() > 0 {
                &&& r == old(self).free_list().last()
                &&& final(self).free_list() == old(self).free_list().drop_last()
                &&& final(self).slots() == old(self).slots().update(r as int, LimitOrder { id, qty, price })
            } else {
                &&& r == old(self).slots().len()
                &&& final(self).free_list() == old(self).free_list()
                &&& final(self).slots() == old(self).slots().push(LimitOrder { id, qty, price })
            },
    {
        match self.free.pop() {
            None => {
                self.orders.push(LimitOrder { id, qty, price });
                let index = self.orders.len() - 1;
                self.order_map.insert(id, index);
                proof {
                    Self::lemma_insert_wf(*old(self), *self, id, index);
                }
                index
            },
            Some(index) => {
                proof {
                    assert(index == old(self).free_list().last());
                    assert((index as int) < old(self).slots().len());
                }
                self.orders[index].id = id;
                self.orders[index].qty = qty;
                self.orders[index].price = price;
                self.order_map.insert(id, index);
                proof {
                    assert(self.orders@ =~= old(self).orders@.update(index as int, LimitOrder { id, qty, price }));
                    assert(self.free@ =~= old(self).free@.drop_last());
                    Self::lemma_insert_wf(*old(self), *self, id, index);
                }
                index
            },
        }
    }

    /// The state after `insert` is well-formed: the reused or appended slot
    /// was not referenced by any surviving free-list entry or mapping.
    proof fn lemma_insert_wf(s0: Self, s1: Self, id: u128, h: usize)
        requires
            s0.wf(),
            (h as int) < s1.slots().len(),
            s1.idx_of() == s0.idx_of().insert(id, h),
            if s0.free_list().len() > 0 {
                &&& h == s0.free_list().last()
                &&& s1.free_list() == s0.free_list().drop_last()
                &&& s1.slots() == s0.slots().update(
                    h as int,
                    LimitOrder { id, qty: s1.slots()[h as int].qty, price: s1.slots()[h as int].price },
                )
            } else {
                &&& h == s0.slots().len()
                &&& s1.free_list() == s0.free_list()
                &&& s1.slots() == s0.slots().push(
                    LimitOrder { id, qty: s1.slots()[h as int].qty, price: s1.slots()[h as int].price },
                )
            },
        ensures
            s1.wf(),
    {
        assert(s1.slots()[h as int].id == id);
        assert forall|k: int| 0 <= k < s1.free_list().len() implies
            (#[trigger] s1.free_list()[k]) < s1.slots().len()
            && s1.slots()[s1.free_list()[k] as int].qty == 0 by {
            assert(s1.free_list()[k] == s0.free_list()[k]);
            if s0.free_list().len() > 0 {
                assert(s0.free_list()[k] != s0.free_list()[s0.free_list().len() - 1]);
            }
        }
        assert forall|id2: u128| s1.idx_of().contains_key(id2) implies
            (#[trigger] s1.idx_of()[id2]) < s1.slots().len()
            && s1.slots()[s1.idx_of()[id2] as int].id == id2 by {
            if id2 != id {
                assert(s1.idx_of()[id2] == s0.idx_of()[id2]);
                if s0.free_list().len() > 0 {
                    assert(s0.idx_of()[id2] != s0.free_list()[s0.free_list().len() - 1]);
                }
            }
        }
        assert forall|id2: u128, k: int|
            s1.idx_of().contains_key(id2) && 0 <= k < s1.free_list().len() implies
            (#[trigger] s1.idx_of()[id2]) != (#[trigger] s1.free_list()[k]) by {
            assert(s1.free_list()[k] == s0.free_list()[k]);
            if id2 == id {
                if s0.free_list().len() > 0 {
                    assert(s0.free_list()[k] != s0.free_list()[s0.free_list().len() - 1]);
                }
            } else {
                assert(s0.idx_of()[id2] != s0.free_list()[k]);
            }
        }
    }

    /// Remove the id mapping for an order. If the id was known, its slot is
    /// marked dead and pushed onto the free list. Returns whether a mapping
    /// existed.
    pub fn delete(&mut self, id: &u128) -> (r: bool)
        requires
            old(self).wf(),
        ensures
            final(self).wf(),
            final(self).slots().len() == old(self).slots().len(),
            if old(self).idx_of().contains_key(*id) {
                let h = old(self).idx_of()[*id];
                &&& r == true
                &&& final(self).idx_of() == old(self).idx_of().remove(*id)
                &&& final(self).slots() == old(self).slots().update(
                    h as int,
                    LimitOrder {
                        id: old(self).slots()[h as int].id,
                        qty: 0,
                        price: old(self).slots()[h as int].price,
                    },
                )
                &&& final(self).free_list() == old(self).free_list().push(h)
            } else {
                &&& r == false
                &&& final(self).idx_of() == old(self).idx_of()
                &&& final(self).slots() == old(self).slots()
                &&& final(self).free_list() == old(self).free_list()
            },
    {
        match self.order_map.remove(id) {
            Some(idx) => {
                proof {
                    assert(old(self).idx_of().contains_key(*id) && old(self).idx_of()[*id] == idx);
                }
                self.free.push(idx);
                self.orders[idx].qty = 0;
                proof {
                    let s0 = *old(self);
                    let h = s0.idx_of()[*id];
                    assert(self.orders@ =~= s0.orders@.update(
                        h as int,
                        LimitOrder {
                            id: s0.slots()[h as int].id,
                            qty: 0,
                            price: s0.slots()[h as int].price,
                        },
                    ));
                    assert forall|k: int| 0 <= k < self.free_list().len() implies
                        (#[trigger] self.free_list()[k]) < self.slots().len()
                        && self.slots()[self.free_list()[k] as int].qty == 0 by {
                        if k < s0.free_list().len() {
                            assert(self.free_list()[k] == s0.free_list()[k]);
                            assert(s0.idx_of()[*id] != s0.free_list()[k]);
                        } else {
                            assert(self.free_list()[k] == h);
                        }
                    }
                    assert forall|k1: int, k2: int|
                        0 <= k1 < k2 < self.free_list().len() implies
                        #[trigger] self.free_list()[k1] != #[trigger] self.free_list()[k2] by {
                        if k2 == s0.free_list().len() {
                            assert(s0.idx_of()[*id] != s0.free_list()[k1]);
                        }
                    }
                    assert forall|id2: u128| self.idx_of().contains_key(id2) implies
                        (#[trigger] self.idx_of()[id2]) < self.slots().len()
                        && self.slots()[self.idx_of()[id2] as int].id == id2 by {
                        assert(self.idx_of()[id2] == s0.idx_of()[id2]);
                    }
                    assert forall|id2: u128, k: int|
                        self.idx_of().contains_key(id2) && 0 <= k < self.free_list().len() implies
                        (#[trigger] self.idx_of()[id2]) != (#[trigger] self.free_list()[k]) by {
                        assert(self.idx_of()[id2] == s0.idx_of()[id2]);
                        if k < s0.free_list().len() {
                            assert(s0.idx_of()[id2] != s0.free_list()[k]);
                        } else {
                            // Slots carry the id that maps to them, so two
                            // distinct ids cannot share the slot h.
                            assert(s0.slots()[s0.idx_of()[id2] as int].id == id2);
                            assert(s0.slots()[h as int].id == *id);
                        }
                    }
                }
                true
            },
            None => {
                proof {
                    assert(self.order_map@ =~= old(self).order_map@);
                    assert(self.idx_of() == old(self).idx_of());
                    assert(self.slots() == old(self).slots());
                    assert(self.free_list() == old(self).free_list());
                    // Restate the well-formedness quantifiers for the new
                    // struct value, whose fields are all unchanged.
                    assert(forall|k: int|
                        0 <= k < self.free_list().len() ==> (#[trigger] self.free_list()[k]) < self.slots().len());
                    assert(forall|k: int|
                        0 <= k < self.free_list().len() ==> self.slots()[#[trigger] self.free_list()[k] as int].qty == 0);
                    assert(forall|k1: int, k2: int|
                        0 <= k1 < k2 < self.free_list().len() ==> #[trigger] self.free_list()[k1] != #[trigger] self.free_list()[k2]);
                    assert(forall|id2: u128|
                        self.idx_of().contains_key(id2) ==> (#[trigger] self.idx_of()[id2]) < self.slots().len());
                    assert(forall|id2: u128|
                        self.idx_of().contains_key(id2) ==> self.slots()[#[trigger] self.idx_of()[id2] as int].id == id2);
                    assert(forall|id2: u128, k: int|
                        self.idx_of().contains_key(id2) && 0 <= k < self.free_list().len()
                            ==> (#[trigger] self.idx_of()[id2]) != (#[trigger] self.free_list()[k]));
                }
                false
            },
        }
    }

    /// Read the order stored at a handle.
    pub fn order_at(&self, idx: usize) -> (r: &LimitOrder)
        requires
            idx < self.slots().len(),
        ensures
            *r == self.slots()[idx as int],
    {
        &self.orders[idx]
    }
}

} // verus!
