//! Virtual (sparse) texturing: a page-table residency cache with an intrusive
//! doubly linked LRU list over `max_physical` physical slots, and the CPU
//! mirror of the GPU address translation with ancestor-mip fallback.

use std::collections::HashMap;
use vstd::prelude::*;

verus! {

broadcast use {vstd::std_specs::hash::group_hash_axioms, vstd::set::group_set_axioms};

/// "No slot" marker, also the end-of-list link.
pub const INVALID_SLOT: u32 = 0xFFFF_FFFF;

#[derive(Clone, Copy, Debug)]
struct LruNode {
    prev: u32,
    next: u32,
    key: (u32, u32),
}

/// Residency table of `(page, mip)` keys over `max_physical` physical slots.
pub struct SparsePageTable {
    pub max_physical: u32,
    resident: HashMap<u64, u32>,
    nodes: Vec<LruNode>,
    head: u32,
    tail: u32,
    /// Slots from most to least recently used.
    order: Ghost<Seq<u32>>,
}

/// Hash-map key of a `(page, mip)` pair.
pub open spec fn pack_key(page: u32, mip: u32) -> u64 {
    (page as int * 0x1_0000_0000 + mip as int) as u64
}

proof fn lemma_pack_key_injective(a: (u32, u32), b: (u32, u32))
    ensures
        pack_key(a.0, a.1) == pack_key(b.0, b.1) ==> a == b,
{
    if pack_key(a.0, a.1) == pack_key(b.0, b.1) {
        let ka = a.0 as int * 0x1_0000_0000 + a.1 as int;
        let kb = b.0 as int * 0x1_0000_0000 + b.1 as int;
        assert(ka == kb);
        vstd::arithmetic::div_mod::lemma_fundamental_div_mod_converse(ka, 0x1_0000_0000, a.0 as int, a.1 as int);
        vstd::arithmetic::div_mod::lemma_fundamental_div_mod_converse(kb, 0x1_0000_0000, b.0 as int, b.1 as int);
    }
}

fn key_of(page: u32, mip: u32) -> (k: u64)
    ensures
        k == pack_key(page, mip),
{
    (page as u64) * 0x1_0000_0000 + mip as u64
}

/// The linked list threads exactly the slots of `order`, front to back.
spec fn list_inv(nodes: Seq<LruNode>, head: u32, tail: u32, order: Seq<u32>) -> bool {
    &&& nodes.len() <= 0xFFFF_FFFF
    &&& forall|i: int| 0 <= i < order.len() ==> #[trigger] order[i] < nodes.len()
    &&& forall|i: int, j: int| 0 <= i < j < order.len() ==> #[trigger] order[i] != #[trigger] order[j]
    &&& head == if order.len() > 0 {
        order[0]
    } else {
        INVALID_SLOT
    }
    &&& tail == if order.len() > 0 {
        order[order.len() - 1]
    } else {
        INVALID_SLOT
    }
    &&& forall|i: int|
        0 <= i < order.len() ==> #[trigger] nodes[order[i] as int].next == if i + 1 < order.len() {
            order[i + 1]
        } else {
            INVALID_SLOT
        }
    &&& forall|i: int|
        0 <= i < order.len() ==> #[trigger] nodes[order[i] as int].prev == if i > 0 {
            order[i - 1]
        } else {
            INVALID_SLOT
        }
}

spec fn same_keys(a: Seq<LruNode>, b: Seq<LruNode>) -> bool {
    &&& a.len() == b.len()
    &&& forall|s: int| 0 <= s < a.len() ==> #[trigger] a[s].key == b[s].key
}

/// Translation rule: the slot at `mip`, else the finest resident ancestor mip
/// (`mip - 1`, ..., `0`), else `INVALID_SLOT`.
pub open spec fn finest_resident(table: Seq<u32>, base: int, mip: int) -> u32
    decreases mip + 1,
{
    if mip < 0 {
        INVALID_SLOT
    } else if table[base + mip] != INVALID_SLOT {
        table[base + mip]
    } else {
        finest_resident(table, base, mip - 1)
    }
}

impl SparsePageTable {
    /// Slots are dense: the `order.len()` used slots are exactly `0..order.len()`,
    /// the list threads them by recency, and the map sends each resident key
    /// to its slot.
    pub closed spec fn wf(self) -> bool {
        let order = self.order@;
        let nodes = self.nodes@;
        &&& self.max_physical > 0
        &&& nodes.len() == self.max_physical
        &&& order.len() <= self.max_physical
        &&& list_inv(nodes, self.head, self.tail, order)
        &&& forall|i: int| 0 <= i < order.len() ==> #[trigger] order[i] < order.len()
        &&& forall|s: u32| s < order.len() ==> #[trigger] order.contains(s)
        &&& self.resident@.dom().finite()
        &&& self.resident@.dom().len() == order.len()
        &&& forall|s: int|
            0 <= s < order.len() ==> {
                &&& #[trigger] self.resident@.contains_key(pack_key(nodes[s].key.0, nodes[s].key.1))
                &&& self.resident@[pack_key(nodes[s].key.0, nodes[s].key.1)] == s
            }
        &&& forall|k: u64| #[trigger]
            self.resident@.contains_key(k) ==> {
                &&& self.resident@[k] < order.len()
                &&& pack_key(nodes[self.resident@[k] as int].key.0, nodes[self.resident@[k] as int].key.1) == k
            }
    }

    /// Number of physical slots.
    pub closed spec fn capacity(self) -> u32 {
        self.max_physical
    }

    /// Resident slots, most recently used first.
    pub closed spec fn lru_slots(self) -> Seq<u32> {
        self.order@
    }

    /// Resident keys, most recently used first.
    pub closed spec fn lru_keys(self) -> Seq<(u32, u32)> {
        self.order@.map_values(|s: u32| self.nodes@[s as int].key)
    }

    /// An empty table with `max_physical` slots (must be at least 1).
    pub fn new(max_physical: u32) -> (t: Self)
        requires
            0 < max_physical,
        ensures
            t.wf(),
            t.capacity() == max_physical,
            t.lru_keys() == Seq::<(u32, u32)>::empty(),
            t.lru_slots() == Seq::<u32>::empty(),
    {
        let cap = max_physical as usize;
        let mut nodes: Vec<LruNode> = Vec::with_capacity(cap);
        let mut i: usize = 0;
        while i < cap
            invariant
                i <= cap,
                nodes@.len() == i,
            decreases cap - i,
        {
            nodes.push(LruNode { prev: INVALID_SLOT, next: INVALID_SLOT, key: (0, 0) });
            i += 1;
        }
        let t = Self {
            max_physical,
            resident: HashMap::new(),
            nodes,
            head: INVALID_SLOT,
            tail: INVALID_SLOT,
            order: Ghost(Seq::empty()),
        };
        assert(t.lru_keys() =~= Seq::<(u32, u32)>::empty());
        t
    }

    /// Residency query; does not change recency.
    pub fn is_resident(&self, page: u32, mip: u32) -> (b: bool)
        requires
            self.wf(),
        ensures
            b == self.lru_keys().contains((page, mip)),
    {
        let k = key_of(page, mip);
        let b = self.resident.contains_key(&k);
        proof {
            let keys = self.lru_keys();
            if b {
                assert(self.resident@.contains_key(k));
                let s = self.resident@[k];
                assert(s < self.order@.len());
                assert(self.order@.contains(s));
                let t = choose|i: int| 0 <= i < self.order@.len() && self.order@[i] == s;
                lemma_pack_key_injective(self.nodes@[s as int].key, (page, mip));
                assert(keys[t] == self.nodes@[self.order@[t] as int].key);
                assert(keys[t] == (page, mip));
            } else if keys.contains((page, mip)) {
                let t = choose|i: int| 0 <= i < keys.len() && keys[i] == (page, mip);
                let s = self.order@[t];
                assert(self.nodes@[s as int].key == (page, mip));
                assert(self.resident@.contains_key(pack_key(self.nodes@[s as int].key.0, self.nodes@[s as int].key.1)));
            }
        }
        b
    }

    /// Number of resident pages.
    pub fn resident_count(&self) -> (n: usize)
        requires
            self.wf(),
        ensures
            n == self.lru_keys().len(),
    {
        self.resident.len()
    }

    /// Unlinks the slot at position `p` of the recency order.
    fn detach(&mut self, slot: u32, Ghost(p): Ghost<int>)
        requires
            list_inv(old(self).nodes@, old(self).head, old(self).tail, old(self).order@),
            0 <= p < old(self).order@.len(),
            old(self).order@[p] == slot,
        ensures
            list_inv(final(self).nodes@, final(self).head, final(self).tail, final(self).order@),
            final(self).order@ == old(self).order@.remove(p),
            same_keys(old(self).nodes@, final(self).nodes@),
            final(self).max_physical == old(self).max_physical,
            final(self).resident@ == old(self).resident@,
    {
        let ghost order = self.order@;
        let ghost nodes0 = self.nodes@;
        let p_slot = self.nodes[slot as usize].prev;
        let n_slot = self.nodes[slot as usize].next;
        if p_slot != INVALID_SLOT {
            assert(p > 0 && p_slot == order[p - 1]);
            let mut nd = self.nodes[p_slot as usize];
            nd.next = n_slot;
            self.nodes.set(p_slot as usize, nd);
        } else {
            assert(p == 0);
            self.head = n_slot;
        }
        let ghost nodes1 = self.nodes@;
        if n_slot != INVALID_SLOT {
            assert(p + 1 < order.len() && n_slot == order[p + 1]);
            let mut nd = self.nodes[n_slot as usize];
            nd.prev = p_slot;
            self.nodes.set(n_slot as usize, nd);
        } else {
            assert(p == order.len() - 1);
            self.tail = p_slot;
        }
        self.order = Ghost(order.remove(p));
        let ghost no = self.order@;
        let ghost nn = self.nodes@;
        assert forall|i: int| 0 <= i < no.len() implies #[trigger] nn[no[i] as int].next == if i + 1
            < no.len() {
            no[i + 1]
        } else {
            INVALID_SLOT
        } by {
            if i < p - 1 {
                assert(no[i] == order[i]);
                assert(order[i] != order[p - 1]);
                assert(order[i] != order[p + 1] || p + 1 >= order.len());
            } else if i == p - 1 {
                assert(no[i] == order[p - 1]);
            } else {
                assert(no[i] == order[i + 1]);
                assert(order[i + 1] != order[p - 1] || p == 0);
            }
        }
        assert forall|i: int| 0 <= i < no.len() implies #[trigger] nn[no[i] as int].prev == if i
            > 0 {
            no[i - 1]
        } else {
            INVALID_SLOT
        } by {
            if i < p {
                assert(no[i] == order[i]);
                assert(order[i] != order[p + 1] || p + 1 >= order.len());
                assert(order[i] != order[p - 1] || i == p - 1);
            } else if i == p {
                assert(no[i] == order[p + 1]);
            } else {
                assert(no[i] == order[i + 1]);
                assert(order[i + 1] != order[p + 1]);
                assert(order[i + 1] != order[p - 1] || p == 0);
            }
        }
        assert forall|i: int, j: int| 0 <= i < j < no.len() implies #[trigger] no[i]
            != #[trigger] no[j] by {
            let oi = if i < p {
                i
            } else {
                i + 1
            };
            let oj = if j < p {
                j
            } else {
                j + 1
            };
            assert(no[i] == order[oi] && no[j] == order[oj]);
        }
        assert forall|i: int| 0 <= i < no.len() implies #[trigger] no[i] < nn.len() by {
            if i < p {
                assert(no[i] == order[i]);
            } else {
                assert(no[i] == order[i + 1]);
            }
        }
        assert forall|s: int| 0 <= s < nodes0.len() implies #[trigger] nodes0[s].key == nn[s].key by {
        }
    }

    /// Links `slot` in front of the recency order.
    fn push_front(&mut self, slot: u32)
        requires
            list_inv(old(self).nodes@, old(self).head, old(self).tail, old(self).order@),
            slot < old(self).nodes@.len(),
            !old(self).order@.contains(slot),
        ensures
            list_inv(final(self).nodes@, final(self).head, final(self).tail, final(self).order@),
            final(self).order@ == seq![slot] + old(self).order@,
            same_keys(old(self).nodes@, final(self).nodes@),
            final(self).max_physical == old(self).max_physical,
            final(self).resident@ == old(self).resident@,
    {
        let ghost order = self.order@;
        let ghost nodes0 = self.nodes@;
        let mut nd = self.nodes[slot as usize];
        nd.prev = INVALID_SLOT;
        nd.next = self.head;
        self.nodes.set(slot as usize, nd);
        if self.head != INVALID_SLOT {
            assert(order.len() > 0);
            let h = self.head;
            assert(h != slot);
            let mut hn = self.nodes[h as usize];
            hn.prev = slot;
            self.nodes.set(h as usize, hn);
        } else {
            self.tail = slot;
        }
        self.head = slot;
        self.order = Ghost(seq![slot] + order);
        let ghost no = self.order@;
        let ghost nn = self.nodes@;
        assert forall|i: int| 0 < i < no.len() implies no[i] != slot by {
            assert(no[i] == order[i - 1]);
            assert(order.contains(order[i - 1]));
        }
        assert forall|i: int| 0 <= i < no.len() implies #[trigger] nn[no[i] as int].next == if i + 1
            < no.len() {
            no[i + 1]
        } else {
            INVALID_SLOT
        } by {
            if i > 0 {
                assert(no[i] == order[i - 1]);
            }
        }
        assert forall|i: int| 0 <= i < no.len() implies #[trigger] nn[no[i] as int].prev == if i
            > 0 {
            no[i - 1]
        } else {
            INVALID_SLOT
        } by {
            if i > 1 {
                assert(no[i] == order[i - 1]);
                assert(order[i - 1] != order[0]);
            } else if i == 1 {
                assert(no[i] == order[0]);
            }
        }
        assert forall|i: int, j: int| 0 <= i < j < no.len() implies #[trigger] no[i]
            != #[trigger] no[j] by {
            if i > 0 {
                assert(no[i] == order[i - 1] && no[j] == order[j - 1]);
            }
        }
        assert forall|i: int| 0 <= i < no.len() implies #[trigger] no[i] < nn.len() by {
            if i > 0 {
                assert(no[i] == order[i - 1]);
            }
        }
        assert forall|s: int| 0 <= s < nodes0.len() implies #[trigger] nodes0[s].key == nn[s].key by {
        }
    }

    /// Requests a page and returns its slot, as [`Self::request_with_eviction`].
    pub fn request(&mut self, page: u32, mip: u32) -> (slot: u32)
        requires
            old(self).wf(),
        ensures
            final(self).wf(),
            request_outcome(old(self).lru_keys(), old(self).lru_slots(), old(self).capacity(), (page, mip), final(self).lru_keys(), final(self).lru_slots(), slot, final(self).capacity()),
    {
        let (slot, _evicted) = self.request_with_eviction(page, mip);
        slot
    }

    /// Requests a page: returns its physical slot and the key evicted to make
    /// room, if any. A resident page moves to the front of the recency order;
    /// a new page takes the next unused slot while there is one, and
    /// otherwise the slot of the least recently used page, which is evicted.
    #[verifier::spinoff_prover]
    #[verifier::rlimit(60)]
    pub fn request_with_eviction(&mut self, page: u32, mip: u32) -> (r: (u32, Option<(u32, u32)>))
        requires
            old(self).wf(),
        ensures
            final(self).wf(),
            request_outcome(old(self).lru_keys(), old(self).lru_slots(), old(self).capacity(), (page, mip), final(self).lru_keys(), final(self).lru_slots(), r.0, final(self).capacity()),
            r.1 == evicted_key(old(self).lru_keys(), old(self).capacity(), (page, mip)),
    {
        let ghost old_keys = self.lru_keys();
        let ghost old_order = self.order@;
        let ghost old_nodes = self.nodes@;
        let key = (page, mip);
        let k = key_of(page, mip);
        let found = match self.resident.get(&k) {
            Some(s) => Some(*s),
            None => None,
        };
        if let Some(slot) = found {
            proof {
                assert(self.resident@.contains_key(k));
                assert(slot < old_order.len());
                assert(old_order.contains(slot));
            }
            let ghost p = choose|i: int| 0 <= i < old_order.len() && old_order[i] == slot;
            proof {
                lemma_pack_key_injective(old_nodes[slot as int].key, key);
                assert(old_keys[p] == old_nodes[old_order[p] as int].key);
                assert(old_keys[p] == key);
                assert(old_keys.index_of(key) == p) by {
                    let q = choose|q: int| 0 <= q < old_keys.len() && old_keys[q] == key;
                    if q != p {
                        assert(old_keys[q] == old_nodes[old_order[q] as int].key);
                        assert(old_nodes[old_order[q] as int].key == key);
                        let sq = old_order[q];
                        assert(self.resident@.contains_key(pack_key(old_nodes[sq as int].key.0, old_nodes[sq as int].key.1)));
                        assert(old_order[q] != old_order[p]);
                    }
                    assert(old_keys.contains(key));
                }
            }
            if self.head != slot {
                self.detach(slot, Ghost(p));
                proof {
                    assert(!self.order@.contains(slot)) by {
                        if self.order@.contains(slot) {
                            let q = choose|q: int| 0 <= q < self.order@.len() && self.order@[q] == slot;
                            if q < p {
                                assert(old_order[q] == slot);
                            } else {
                                assert(old_order[q + 1] == slot);
                            }
                        }
                    }
                }
                self.push_front(slot);
            } else {
                assert(p == 0);
                assert(old_order =~= seq![slot] + old_order.remove(0));
            }
            proof {
                let no = self.order@;
                assert(no == seq![slot] + old_order.remove(p));
                assert forall|x: u32| old_order.contains(x) <==> no.contains(x) by {
                    if old_order.contains(x) {
                        let q = choose|q: int| 0 <= q < old_order.len() && old_order[q] == x;
                        if q < p {
                            assert(no[q + 1] == x);
                        } else if q == p {
                            assert(no[0] == x);
                        } else {
                            assert(no[q] == x);
                        }
                    }
                    if no.contains(x) {
                        let q = choose|q: int| 0 <= q < no.len() && no[q] == x;
                        if q == 0 {
                            assert(old_order[p] == x);
                        } else if q - 1 < p {
                            assert(old_order[q - 1] == x);
                        } else {
                            assert(old_order[q] == x);
                        }
                    }
                }
                assert(same_keys(old_nodes, self.nodes@));
                self.lemma_wf_after_reorder(old_order, old_nodes);
                assert(self.lru_keys() =~= seq![key] + old_keys.remove(p));
            }
            return (slot, None);
        }
        proof {
            assert(!old_keys.contains(key)) by {
                if old_keys.contains(key) {
                    let q = choose|q: int| 0 <= q < old_keys.len() && old_keys[q] == key;
                    let s = old_order[q];
                    assert(old_keys[q] == old_nodes[old_order[q] as int].key);
                    assert(old_nodes[s as int].key == key);
                    assert(self.resident@.contains_key(pack_key(old_nodes[s as int].key.0, old_nodes[s as int].key.1)));
                }
            }
        }
        let count = self.resident.len();
        let slot: u32;
        let evicted: Option<(u32, u32)>;
        if count < self.max_physical as usize {
            slot = count as u32;
            evicted = None;
            proof {
                assert(!old_order.contains(slot)) by {
                    if old_order.contains(slot) {
                        let q = choose|q: int| 0 <= q < old_order.len() && old_order[q] == slot;
                    }
                }
            }
        } else {
            let lru_slot = self.tail;
            let old_key = self.nodes[lru_slot as usize].key;
            let ok = key_of(old_key.0, old_key.1);
            self.resident.remove(&ok);
            let ghost last = old_order.len() - 1;
            self.detach(lru_slot, Ghost(last));
            proof {
                assert(old_order.remove(last) =~= old_order.drop_last());
                assert(!self.order@.contains(lru_slot)) by {
                    if self.order@.contains(lru_slot) {
                        let q = choose|q: int| 0 <= q < self.order@.len() && self.order@[q] == lru_slot;
                        assert(old_order[q] == lru_slot);
                    }
                }
            }
            slot = lru_slot;
            evicted = Some(old_key);
        }
        let ghost mid_nodes = self.nodes@;
        let mut nd = self.nodes[slot as usize];
        nd.key = key;
        self.nodes.set(slot as usize, nd);
        let ghost keyed_nodes = self.nodes@;
        proof {
            assert(list_inv(keyed_nodes, self.head, self.tail, self.order@)) by {
                assert forall|i: int| 0 <= i < self.order@.len() implies #[trigger] keyed_nodes[self.order@[i] as int].next == mid_nodes[self.order@[i] as int].next by {}
                assert forall|i: int| 0 <= i < self.order@.len() implies #[trigger] keyed_nodes[self.order@[i] as int].prev == mid_nodes[self.order@[i] as int].prev by {}
            }
        }
        self.resident.insert(k, slot);
        self.push_front(slot);
        proof {
            assert(self.nodes@[slot as int].key == keyed_nodes[slot as int].key);
            assert(self.nodes@[slot as int].key == key);
            assert forall|s: int| 0 <= s < old_nodes.len() && s != slot implies #[trigger] self.nodes@[s].key == old_nodes[s].key by {
                assert(self.nodes@[s].key == keyed_nodes[s].key);
                assert(keyed_nodes[s].key == mid_nodes[s].key);
                assert(mid_nodes[s].key == old_nodes[s].key);
            }
            self.lemma_wf_after_insert(old_order, old_nodes, old_keys, slot, key, count as int);
        }
        (slot, evicted)
    }

    proof fn lemma_wf_after_reorder(self, old_order: Seq<u32>, old_nodes: Seq<LruNode>)
        requires
            list_inv(self.nodes@, self.head, self.tail, self.order@),
            same_keys(old_nodes, self.nodes@),
            self.order@.len() == old_order.len(),
            forall|s: u32| old_order.contains(s) <==> self.order@.contains(s),
            ({
                &&& self.max_physical > 0
                &&& old_nodes.len() == self.max_physical
                &&& old_order.len() <= self.max_physical
                &&& forall|i: int| 0 <= i < old_order.len() ==> #[trigger] old_order[i] < old_order.len()
                &&& forall|s: u32| s < old_order.len() ==> #[trigger] old_order.contains(s)
                &&& self.resident@.dom().finite()
                &&& self.resident@.dom().len() == old_order.len()
                &&& forall|s: int|
                    0 <= s < old_order.len() ==> {
                        &&& #[trigger] self.resident@.contains_key(pack_key(old_nodes[s].key.0, old_nodes[s].key.1))
                        &&& self.resident@[pack_key(old_nodes[s].key.0, old_nodes[s].key.1)] == s
                    }
                &&& forall|k: u64| #[trigger]
                    self.resident@.contains_key(k) ==> {
                        &&& self.resident@[k] < old_order.len()
                        &&& pack_key(old_nodes[self.resident@[k] as int].key.0, old_nodes[self.resident@[k] as int].key.1) == k
                    }
            }),
        ensures
            self.wf(),
    {
        let order = self.order@;
        assert forall|i: int| 0 <= i < order.len() implies #[trigger] order[i] < order.len() by {
            assert(order.contains(order[i]));
            assert(old_order.contains(order[i]));
            let q = choose|q: int| 0 <= q < old_order.len() && old_order[q] == order[i];
        }
        assert forall|s: u32| s < order.len() implies #[trigger] order.contains(s) by {
            let q = choose|q: int| 0 <= q < old_order.len() && old_order[q] == s;
            assert(old_order.contains(s));
        }
        assert forall|s: int| 0 <= s < order.len() implies {
            &&& #[trigger] self.resident@.contains_key(pack_key(self.nodes@[s].key.0, self.nodes@[s].key.1))
            &&& self.resident@[pack_key(self.nodes@[s].key.0, self.nodes@[s].key.1)] == s
        } by {
            assert(old_nodes[s].key == self.nodes@[s].key);
        }
        assert forall|k: u64| #[trigger] self.resident@.contains_key(k) implies {
            &&& self.resident@[k] < order.len()
            &&& pack_key(self.nodes@[self.resident@[k] as int].key.0, self.nodes@[self.resident@[k] as int].key.1) == k
        } by {
            let s = self.resident@[k];
            assert(old_nodes[s as int].key == self.nodes@[s as int].key);
        }
    }

    proof fn lemma_wf_after_insert(
        self,
        old_order: Seq<u32>,
        old_nodes: Seq<LruNode>,
        old_keys: Seq<(u32, u32)>,
        slot: u32,
        key: (u32, u32),
        count: int,
    )
        requires
            list_inv(self.nodes@, self.head, self.tail, self.order@),
            self.max_physical > 0,
            self.nodes@.len() == self.max_physical,
            old_nodes.len() == self.max_physical,
            old_keys == old_order.map_values(|s: u32| old_nodes[s as int].key),
            !old_keys.contains(key),
            self.nodes@[slot as int].key == key,
            forall|s: int| 0 <= s < old_nodes.len() && s != slot ==> #[trigger] self.nodes@[s].key == old_nodes[s].key,
            old_order.len() == count,
            count <= self.max_physical,
            forall|i: int| 0 <= i < old_order.len() ==> #[trigger] old_order[i] < old_order.len(),
            forall|i: int, j: int| 0 <= i < j < old_order.len() ==> #[trigger] old_order[i] != #[trigger] old_order[j],
            forall|s: u32| s < old_order.len() ==> #[trigger] old_order.contains(s),
            (count < self.max_physical && slot == count && self.order@ == seq![slot] + old_order)
                || (count == self.max_physical && count > 0 && slot == old_order.last()
                    && self.order@ == seq![slot] + old_order.drop_last()),
            self.resident@.dom().finite(),
            self.resident@.dom().len() == self.order@.len(),
            forall|s: int|
                0 <= s < self.order@.len() && s != slot ==> {
                    &&& #[trigger] self.resident@.contains_key(pack_key(self.nodes@[s].key.0, self.nodes@[s].key.1))
                    &&& self.resident@[pack_key(self.nodes@[s].key.0, self.nodes@[s].key.1)] == s
                },
            self.resident@.contains_key(pack_key(key.0, key.1)),
            self.resident@[pack_key(key.0, key.1)] == slot,
            forall|k: u64| #[trigger]
                self.resident@.contains_key(k) ==> {
                    &&& self.resident@[k] < self.order@.len()
                    &&& pack_key(self.nodes@[self.resident@[k] as int].key.0, self.nodes@[self.resident@[k] as int].key.1) == k
                },
        ensures
            self.wf(),
            self.lru_keys() == if count < self.max_physical {
                seq![key] + old_keys
            } else {
                seq![key] + old_keys.drop_last()
            },
    {
        let order = self.order@;
        assert forall|i: int| 0 <= i < order.len() implies #[trigger] order[i] < order.len() by {
            if i > 0 {
                assert(order[i] == old_order[i - 1]);
                assert(old_order[i - 1] < old_order.len());
            } else if count == self.max_physical {
                assert(old_order[old_order.len() - 1] < old_order.len());
            }
        }
        assert forall|s: u32| s < order.len() implies #[trigger] order.contains(s) by {
            if s == slot {
                assert(order[0] == s);
            } else {
                if count < self.max_physical {
                    assert(s < old_order.len());
                } else {
                    assert(s < old_order.len());
                }
                assert(old_order.contains(s));
                let q = choose|q: int| 0 <= q < old_order.len() && old_order[q] == s;
                if count == self.max_physical {
                    assert(q != old_order.len() - 1);
                }
                assert(order[q + 1] == s);
            }
        }
        let nk = self.lru_keys();
        if count < self.max_physical {
            assert forall|i: int| 0 <= i < nk.len() implies nk[i] == (seq![key] + old_keys)[i] by {
                if i > 0 {
                    assert(order[i] == old_order[i - 1]);
                    assert(old_order[i - 1] != slot);
                }
            }
            assert(nk =~= seq![key] + old_keys);
        } else {
            assert forall|i: int| 0 <= i < nk.len() implies nk[i] == (seq![key] + old_keys.drop_last())[i] by {
                if i > 0 {
                    assert(order[i] == old_order[i - 1]);
                    assert(old_order[i - 1] != old_order[old_order.len() - 1]);
                }
            }
            assert(nk =~= seq![key] + old_keys.drop_last());
        }
    }

}

/// What a request does to the recency order: `keys`/`slots` before, the
/// requested `key`, `keys2`/`slots2` after and the returned `slot`.
pub open spec fn request_outcome(
    keys: Seq<(u32, u32)>,
    slots: Seq<u32>,
    max: u32,
    key: (u32, u32),
    keys2: Seq<(u32, u32)>,
    slots2: Seq<u32>,
    slot: u32,
    max2: u32,
) -> bool {
    &&& max2 == max
    &&& if keys.contains(key) {
        let p = keys.index_of(key);
        &&& slot == slots[p]
        &&& keys2 == seq![key] + keys.remove(p)
        &&& slots2 == seq![slot] + slots.remove(p)
    } else if keys.len() < max {
        &&& slot == keys.len()
        &&& keys2 == seq![key] + keys
        &&& slots2 == seq![slot] + slots
    } else {
        &&& slot == slots.last()
        &&& keys2 == seq![key] + keys.drop_last()
        &&& slots2 == seq![slot] + slots.drop_last()
    }
}

/// The key evicted by a request: the least recently used one, when the key is
/// new and every slot is taken.
pub open spec fn evicted_key(keys: Seq<(u32, u32)>, max: u32, key: (u32, u32)) -> Option<(u32, u32)> {
    if !keys.contains(key) && keys.len() >= max {
        Some(keys.last())
    } else {
        None
    }
}

/// CPU mirror of the GPU address translation: `(page, mip)` directly, else the
/// finest resident ancestor mip, else `INVALID_SLOT`; out-of-range pages or
/// mips give `INVALID_SLOT`. The table holds `max_mip + 1` entries per page.
pub fn translate_with_fallback(
    page_table: &[u32],
    max_mip: u32,
    page_count: u32,
    page: u32,
    mip: u32,
) -> (s: u32)
    requires
        page_count as int * (max_mip as int + 1) <= page_table@.len(),
    ensures
        s == if page >= page_count || mip > max_mip {
            INVALID_SLOT
        } else {
            finest_resident(page_table@, page as int * (max_mip as int + 1), mip as int)
        },
{
    if page >= page_count || mip > max_mip {
        return INVALID_SLOT;
    }
    proof {
        assert(max_mip as int + 1 <= page_count as int * (max_mip as int + 1)) by (nonlinear_arith)
            requires
                page_count >= 1,
        ;
        assert(page_table@.len() == page_table.len());
    }
    let stride = max_mip as usize + 1;
    proof {
        assert(page as int * stride + stride <= page_count as int * stride) by (nonlinear_arith)
            requires
                page < page_count,
                stride >= 1,
        ;
    }
    let base = page as usize * stride;
    let ghost b = base as int;
    assert(b == page as int * (max_mip as int + 1));
    let direct = page_table[base + mip as usize];
    if direct != INVALID_SLOT {
        return direct;
    }
    let mut m: u32 = mip;
    while m > 0
        invariant
            m <= mip,
            mip <= max_mip,
            page < page_count,
            base + stride <= page_table@.len(),
            page_table@.len() == page_table.len(),
            stride == max_mip + 1,
            b == base,
            b == page as int * (max_mip as int + 1),
            page_table@[b + m] == INVALID_SLOT,
            finest_resident(page_table@, b, mip as int) == finest_resident(page_table@, b, m as int),
        decreases m,
    {
        let ghost m_old = m as int;
        assert(finest_resident(page_table@, b, m_old) == finest_resident(page_table@, b, m_old - 1));
        m -= 1;
        assert(m as int == m_old - 1);
        assert(finest_resident(page_table@, b, mip as int) == finest_resident(page_table@, b, m as int));
        let cand = page_table[base + m as usize];
        if cand != INVALID_SLOT {
            assert(cand == page_table@[b + m]);
            assert(finest_resident(page_table@, b, m as int) == cand);
            return cand;
        }
    }
    assert(finest_resident(page_table@, b, 0) == finest_resident(page_table@, b, -1));
    INVALID_SLOT
}

} // verus!
