//! Uniform-grid spatial hash over integer cell coordinates: each entity id
//! sits in exactly one cell; box queries return the ids of the covered cells
//! in ascending order, each once.

use std::collections::HashMap;
use vstd::prelude::*;

verus! {

broadcast use vstd::std_specs::hash::group_hash_axioms;

/// Cell coordinates packed into one key: each axis shifted by 2^31 into
/// 32 bits, x highest.
pub open spec fn cell_code(k: (i32, i32, i32)) -> u128 {
    ((k.0 + 0x8000_0000) * 0x1_0000_0000_0000_0000 + (k.1 + 0x8000_0000) * 0x1_0000_0000 + (k.2
        + 0x8000_0000)) as u128
}

/// The packing is injective.
pub proof fn lemma_cell_code_injective(a: (i32, i32, i32), b: (i32, i32, i32))
    requires
        cell_code(a) == cell_code(b),
    ensures
        a == b,
{
    let a0 = a.0 + 0x8000_0000;
    let a1 = a.1 + 0x8000_0000;
    let a2 = a.2 + 0x8000_0000;
    let b0 = b.0 + 0x8000_0000;
    let b1 = b.1 + 0x8000_0000;
    let b2 = b.2 + 0x8000_0000;
    assert(a0 * 0x1_0000_0000_0000_0000 + a1 * 0x1_0000_0000 + a2 == b0 * 0x1_0000_0000_0000_0000 + b1
        * 0x1_0000_0000 + b2);
    assert(a0 == b0 && a1 == b1 && a2 == b2) by (nonlinear_arith)
        requires
            a0 * 0x1_0000_0000_0000_0000 + a1 * 0x1_0000_0000 + a2 == b0 * 0x1_0000_0000_0000_0000 + b1
                * 0x1_0000_0000 + b2,
            0 <= a0 < 0x1_0000_0000,
            0 <= a1 < 0x1_0000_0000,
            0 <= a2 < 0x1_0000_0000,
            0 <= b0 < 0x1_0000_0000,
            0 <= b1 < 0x1_0000_0000,
            0 <= b2 < 0x1_0000_0000,
    ;
}

fn code_of(k: (i32, i32, i32)) -> (c: u128)
    ensures
        c == cell_code(k),
{
    let a = (k.0 as i64 + 0x8000_0000) as u128;
    let b = (k.1 as i64 + 0x8000_0000) as u128;
    let d = (k.2 as i64 + 0x8000_0000) as u128;
    a * 0x1_0000_0000_0000_0000 + b * 0x1_0000_0000 + d
}

/// Cell `k` lies in the box from `lo` to `hi`, bounds included.
pub open spec fn in_box(k: (i32, i32, i32), lo: (i32, i32, i32), hi: (i32, i32, i32)) -> bool {
    &&& lo.0 <= k.0 <= hi.0
    &&& lo.1 <= k.1 <= hi.1
    &&& lo.2 <= k.2 <= hi.2
}

/// Strictly ascending.
pub open spec fn ascending(s: Seq<u32>) -> bool {
    forall|a: int, b: int| 0 <= a < b < s.len() ==> s[a] < s[b]
}

/// Ids located in the box.
pub open spec fn located_in(m: Map<u32, (i32, i32, i32)>, lo: (i32, i32, i32), hi: (i32, i32, i32)) -> Set<u32> {
    Set::new(|id: u32| m.contains_key(id) && in_box(m[id], lo, hi))
}

/// Entity ids filed by cell.
#[derive(Debug, Clone)]
pub struct SpatialCellIndex {
    cells: HashMap<u128, Vec<u32>>,
    locations: HashMap<u32, (i32, i32, i32)>,
}

impl View for SpatialCellIndex {
    type V = Map<u32, (i32, i32, i32)>;

    /// Cell of each entity.
    closed spec fn view(&self) -> Map<u32, (i32, i32, i32)> {
        self.locations@
    }
}

#[verifier::spinoff_prover]
fn insert_sorted(out: &mut Vec<u32>, v: u32)
    requires
        ascending(old(out)@),
    ensures
        ascending(final(out)@),
        forall|e: u32| #[trigger] final(out)@.contains(e) <==> (old(out)@.contains(e) || e == v),
{
    let mut p: usize = 0;
    while p < out.len() && out[p] < v
        invariant
            p <= out@.len(),
            forall|k: int| 0 <= k < p ==> out@[k] < v,
        decreases out@.len() - p,
    {
        p += 1;
    }
    if p < out.len() && out[p] == v {
        assert(out@[p as int] == v);
        return;
    }
    let ghost s0 = out@;
    out.insert(p, v);
    proof {
        assert forall|a: int, b: int| 0 <= a < b < out@.len() implies out@[a] < out@[b] by {
            if b < p {
            } else if b == p {
            } else if a < p {
                assert(s0[b - 1] >= s0[p as int] || b - 1 == p);
            } else if a == p {
                assert(s0[b - 1] >= s0[p as int] || b - 1 == p);
            } else {
            }
        }
        assert forall|e: u32| #[trigger] out@.contains(e) <==> (s0.contains(e) || e == v) by {
            if out@.contains(e) {
                let k = choose|k: int| 0 <= k < out@.len() && out@[k] == e;
                if k < p {
                    assert(s0[k] == e);
                } else if k > p {
                    assert(s0[k - 1] == e);
                }
            }
            if s0.contains(e) {
                let k = choose|k: int| 0 <= k < s0.len() && s0[k] == e;
                if k < p {
                    assert(out@[k] == e);
                } else {
                    assert(out@[k + 1] == e);
                }
            }
            if e == v {
                assert(out@[p as int] == e);
            }
        }
    }
}

fn insert_all_sorted(out: &mut Vec<u32>, list: &Vec<u32>)
    requires
        ascending(old(out)@),
    ensures
        ascending(final(out)@),
        forall|e: u32| #[trigger] final(out)@.contains(e) <==> (old(out)@.contains(e) || list@.contains(e)),
{
    let ghost s0 = out@;
    let mut j: usize = 0;
    while j < list.len()
        invariant
            j <= list@.len(),
            ascending(out@),
            forall|e: u32| #[trigger] out@.contains(e) <==> (s0.contains(e) || list@.subrange(0, j as int).contains(e)),
        decreases list@.len() - j,
    {
        let ghost o1 = out@;
        insert_sorted(out, list[j]);
        proof {
            assert forall|e: u32| out@.contains(e) <==> (s0.contains(e) || list@.subrange(0, j + 1).contains(e)) by {
                assert(out@.contains(e) <==> (o1.contains(e) || e == list@[j as int]));
                assert(o1.contains(e) <==> (s0.contains(e) || list@.subrange(0, j as int).contains(e)));
                let pre = list@.subrange(0, j as int);
                let nxt = list@.subrange(0, j + 1);
                if nxt.contains(e) {
                    let k = choose|k: int| 0 <= k < nxt.len() && nxt[k] == e;
                    if k < j {
                        assert(pre[k] == e);
                    }
                }
                if pre.contains(e) {
                    let k = choose|k: int| 0 <= k < pre.len() && pre[k] == e;
                    assert(nxt[k] == e);
                }
                if e == list@[j as int] {
                    assert(nxt[j as int] == e);
                }
            }
        }
        j += 1;
    }
    assert(list@.subrange(0, list@.len() as int) =~= list@);
}

fn without(list: &Vec<u32>, id: u32) -> (kept: Vec<u32>)
    ensures
        forall|e: u32| #[trigger] kept@.contains(e) <==> (list@.contains(e) && e != id),
        forall|t: int| 0 <= t < kept@.len() ==> list@.contains(#[trigger] kept@[t]),
{
    let mut kept: Vec<u32> = Vec::new();
    let mut j: usize = 0;
    while j < list.len()
        invariant
            j <= list@.len(),
            forall|e: u32| #[trigger] kept@.contains(e) <==> (list@.subrange(0, j as int).contains(e) && e != id),
            forall|t: int| 0 <= t < kept@.len() ==> list@.contains(#[trigger] kept@[t]),
        decreases list@.len() - j,
    {
        let ghost k0 = kept@;
        let e = list[j];
        if e != id {
            kept.push(e);
        }
        proof {
            assert forall|x: u32| kept@.contains(x) <==> (list@.subrange(0, j + 1).contains(x) && x != id) by {
                let pre = list@.subrange(0, j as int);
                let nxt = list@.subrange(0, j + 1);
                if nxt.contains(x) {
                    let k = choose|k: int| 0 <= k < nxt.len() && nxt[k] == x;
                    if k < j {
                        assert(pre[k] == x);
                    }
                }
                if pre.contains(x) {
                    let k = choose|k: int| 0 <= k < pre.len() && pre[k] == x;
                    assert(nxt[k] == x);
                }
                if x == e {
                    assert(nxt[j as int] == x);
                }
                if kept@.contains(x) {
                    let k = choose|k: int| 0 <= k < kept@.len() && kept@[k] == x;
                    if k < k0.len() {
                        assert(k0[k] == x);
                    }
                }
                if k0.contains(x) {
                    let k = choose|k: int| 0 <= k < k0.len() && k0[k] == x;
                    assert(kept@[k] == x);
                }
                if x == e && e != id {
                    assert(kept@[k0.len() as int] == x);
                }
            }
            assert forall|t: int| 0 <= t < kept@.len() implies list@.contains(#[trigger] kept@[t]) by {
                if t == k0.len() {
                    assert(list@[j as int] == kept@[t]);
                }
            }
        }
        j += 1;
    }
    assert(list@.subrange(0, list@.len() as int) =~= list@);
    kept
}

impl SpatialCellIndex {
    /// Every located id is filed in the list of its cell, and every filed id
    /// is located in the cell it is filed under.
    pub closed spec fn wf(self) -> bool {
        &&& forall|id: u32|
            #[trigger] self.locations@.contains_key(id) ==> {
                &&& self.cells@.contains_key(cell_code(self.locations@[id]))
                &&& self.cells@[cell_code(self.locations@[id])]@.contains(id)
            }
        &&& forall|c: u128, t: int|
            #![trigger self.cells@[c]@[t]]
            self.cells@.contains_key(c) && 0 <= t < self.cells@[c]@.len() ==> {
                &&& self.locations@.contains_key(self.cells@[c]@[t])
                &&& cell_code(self.locations@[self.cells@[c]@[t]]) == c
            }
    }

    /// An empty index.
    pub fn new() -> (g: Self)
        ensures
            g.wf(),
            g@ == Map::<u32, (i32, i32, i32)>::empty(),
    {
        SpatialCellIndex { cells: HashMap::new(), locations: HashMap::new() }
    }

    /// Number of entities.
    pub fn len(&self) -> (n: usize)
        ensures
            n == self@.len(),
    {
        self.locations.len()
    }

    /// Forgets `id`; nothing happens when it is not present.
    pub fn remove(&mut self, id: u32)
        requires
            old(self).wf(),
        ensures
            final(self).wf(),
            final(self)@ == old(self)@.remove(id),
    {
        let ghost cells0 = self.cells@;
        let ghost locs0 = self.locations@;
        match self.locations.remove(&id) {
            None => {
                assert(locs0.remove(id) =~= locs0);
            },
            Some(k) => {
                let c = code_of(k);
                assert(locs0[id] == k);
                match self.cells.remove(&c) {
                    None => {
                        assert(false);
                    },
                    Some(list) => {
                        let kept = without(&list, id);
                        proof {
                            assert(list@ == cells0[c]@);
                        }
                        if kept.len() > 0 {
                            self.cells.insert(c, kept);
                        }
                        proof {
                            let locs1 = self.locations@;
                            assert(locs1 == locs0.remove(id));
                            assert forall|i: u32| #[trigger] locs1.contains_key(i) implies {
                                &&& self.cells@.contains_key(cell_code(locs1[i]))
                                &&& self.cells@[cell_code(locs1[i])]@.contains(i)
                            } by {
                                assert(locs0.contains_key(i) && i != id);
                                let ci = cell_code(locs0[i]);
                                assert(cells0[ci]@.contains(i));
                                if ci == c {
                                    assert(kept@.contains(i));
                                    assert(kept@.len() > 0);
                                }
                            }
                            assert forall|cc: u128, t: int|
                                #![trigger self.cells@[cc]@[t]]
                                self.cells@.contains_key(cc) && 0 <= t < self.cells@[cc]@.len() implies {
                                &&& locs1.contains_key(self.cells@[cc]@[t])
                                &&& cell_code(locs1[self.cells@[cc]@[t]]) == cc
                            } by {
                                let e = self.cells@[cc]@[t];
                                if cc == c {
                                    assert(kept@[t] == e);
                                    assert(kept@.contains(e));
                                    assert(list@.contains(e) && e != id);
                                    let t0 = choose|t0: int| 0 <= t0 < list@.len() && list@[t0] == e;
                                    assert(cells0[c]@[t0] == e);
                                } else {
                                    assert(cells0[cc]@[t] == e);
                                    if e == id {
                                        assert(cell_code(locs0[id]) == c);
                                    }
                                }
                            }
                        }
                    },
                }
            },
        }
    }

    /// Files `id` under cell `key`, first forgetting any earlier cell of it.
    pub fn insert(&mut self, id: u32, key: (i32, i32, i32))
        requires
            old(self).wf(),
        ensures
            final(self).wf(),
            final(self)@ == old(self)@.insert(id, key),
    {
        self.remove(id);
        let ghost cells0 = self.cells@;
        let ghost locs0 = self.locations@;
        let c = code_of(key);
        let mut list = match self.cells.remove(&c) {
            Some(l) => l,
            None => Vec::new(),
        };
        let ghost l0 = list@;
        assert(cells0.contains_key(c) ==> l0 == cells0[c]@);
        assert(!cells0.contains_key(c) ==> l0.len() == 0);
        list.push(id);
        self.cells.insert(c, list);
        self.locations.insert(id, key);
        proof {
            let locs1 = self.locations@;
            let cells1 = self.cells@;
            assert(cells1[c]@ == l0.push(id));
            assert forall|i: u32| #[trigger] locs1.contains_key(i) implies {
                &&& cells1.contains_key(cell_code(locs1[i]))
                &&& cells1[cell_code(locs1[i])]@.contains(i)
            } by {
                if i == id {
                    assert(cells1[c]@[l0.len() as int] == id);
                } else {
                    let ci = cell_code(locs0[i]);
                    assert(cells0[ci]@.contains(i));
                    if ci == c {
                        let t = choose|t: int| 0 <= t < l0.len() && l0[t] == i;
                        assert(cells1[c]@[t] == i);
                    }
                }
            }
            assert forall|cc: u128, t: int|
                #![trigger cells1[cc]@[t]]
                cells1.contains_key(cc) && 0 <= t < cells1[cc]@.len() implies {
                &&& locs1.contains_key(cells1[cc]@[t])
                &&& cell_code(locs1[cells1[cc]@[t]]) == cc
            } by {
                if cc == c {
                    if t < l0.len() {
                        assert(cells0[c]@[t] == l0[t]);
                        assert(l0[t] != id);
                    }
                } else {
                    assert(cells1[cc] == cells0[cc]);
                    assert(cells0[cc]@[t] != id);
                }
            }
        }
    }

    /// Moves `id` to cell `key`; a move within the same cell changes nothing.
    pub fn move_entity(&mut self, id: u32, key: (i32, i32, i32))
        requires
            old(self).wf(),
        ensures
            final(self).wf(),
            final(self)@ == old(self)@.insert(id, key),
    {
        match self.locations.get(&id) {
            Some(k) => {
                if k.0 == key.0 && k.1 == key.1 && k.2 == key.2 {
                    assert(self@.insert(id, key) =~= self@);
                    return;
                }
            },
            None => {},
        }
        self.insert(id, key);
    }

    /// Ids of the entities whose cell lies in the box from `lo` to `hi`
    /// (bounds included), ascending and each once.
    pub fn query_cells(&self, lo: (i32, i32, i32), hi: (i32, i32, i32)) -> (r: Vec<u32>)
        requires
            self.wf(),
        ensures
            ascending(r@),
            r@.to_set() == located_in(self@, lo, hi),
    {
        let mut out: Vec<u32> = Vec::new();
        let mut x: i64 = lo.0 as i64;
        while x <= hi.0 as i64
            invariant
                self.wf(),
                lo.0 <= x,
                x <= hi.0 + 1 || x == lo.0,
                ascending(out@),
                forall|e: u32| #[trigger] out@.contains(e) ==> self@.contains_key(e) && in_box(self@[e], lo, hi),
                forall|e: u32|
                    self@.contains_key(e) && in_box(self@[e], lo, hi) && self@[e].0 < x ==> #[trigger] out@.contains(e),
            decreases hi.0 + 1 - x,
        {
            let mut y: i64 = lo.1 as i64;
            while y <= hi.1 as i64
                invariant
                    self.wf(),
                    lo.0 <= x <= hi.0,
                    lo.1 <= y,
                    y <= hi.1 + 1 || y == lo.1,
                    ascending(out@),
                    forall|e: u32| #[trigger] out@.contains(e) ==> self@.contains_key(e) && in_box(self@[e], lo, hi),
                    forall|e: u32|
                        self@.contains_key(e) && in_box(self@[e], lo, hi) && (self@[e].0 < x || (self@[e].0 == x
                            && self@[e].1 < y)) ==> #[trigger] out@.contains(e),
                decreases hi.1 + 1 - y,
            {
                let mut z: i64 = lo.2 as i64;
                while z <= hi.2 as i64
                    invariant
                        self.wf(),
                        lo.0 <= x <= hi.0,
                        lo.1 <= y <= hi.1,
                        lo.2 <= z,
                        z <= hi.2 + 1 || z == lo.2,
                        ascending(out@),
                        forall|e: u32| #[trigger] out@.contains(e) ==> self@.contains_key(e) && in_box(self@[e], lo, hi),
                        forall|e: u32|
                            self@.contains_key(e) && in_box(self@[e], lo, hi) && (self@[e].0 < x || (self@[e].0
                                == x && (self@[e].1 < y || (self@[e].1 == y && self@[e].2 < z)))) ==> #[trigger] out@.contains(e),
                    decreases hi.2 + 1 - z,
                {
                    let key: (i32, i32, i32) = (x as i32, y as i32, z as i32);
                    let c = code_of(key);
                    let ghost o0 = out@;
                    match self.cells.get(&c) {
                        Some(list) => {
                            insert_all_sorted(&mut out, list);
                            proof {
                                assert forall|e: u32| #[trigger] out@.contains(e) implies self@.contains_key(e) && in_box(self@[e], lo, hi) by {
                                    if !o0.contains(e) {
                                        assert(list@.contains(e));
                                        let t = choose|t: int| 0 <= t < list@.len() && list@[t] == e;
                                        assert(self.cells@[c]@[t] == e);
                                        lemma_cell_code_injective(self@[e], key);
                                    }
                                }
                                assert forall|e: u32|
                                    self@.contains_key(e) && in_box(self@[e], lo, hi) && (self@[e].0 < x || (self@[e].0
                                        == x && (self@[e].1 < y || (self@[e].1 == y && self@[e].2 < z + 1)))) implies #[trigger] out@.contains(e) by {
                                    if self@[e] == key {
                                        assert(self.locations@.contains_key(e));
                                        assert(self.cells@[cell_code(self.locations@[e])]@.contains(e));
                                    } else {
                                        assert(o0.contains(e));
                                    }
                                }
                            }
                        },
                        None => {
                            proof {
                                assert forall|e: u32|
                                    self@.contains_key(e) && in_box(self@[e], lo, hi) && (self@[e].0 < x || (self@[e].0
                                        == x && (self@[e].1 < y || (self@[e].1 == y && self@[e].2 < z + 1)))) implies #[trigger] out@.contains(e) by {
                                    if self@[e] == key {
                                        assert(self.locations@.contains_key(e));
                                        assert(self.cells@.contains_key(cell_code(self.locations@[e])));
                                        assert(false);
                                    } else {
                                        assert(o0.contains(e));
                                    }
                                }
                            }
                        },
                    }
                    z += 1;
                }
                y += 1;
            }
            x += 1;
        }
        proof {
            assert(out@.to_set() =~= located_in(self@, lo, hi));
        }
        out
    }
}

/// Filing an entity anew moves it: the box queries afterwards are those of
/// the index without it, plus the entity where its new cell is in the box.
pub proof fn lemma_insert_moves(
    m: Map<u32, (i32, i32, i32)>,
    id: u32,
    key: (i32, i32, i32),
    lo: (i32, i32, i32),
    hi: (i32, i32, i32),
)
    ensures
        located_in(m.insert(id, key), lo, hi) == if in_box(key, lo, hi) {
            located_in(m.remove(id), lo, hi).insert(id)
        } else {
            located_in(m.remove(id), lo, hi)
        },
{
    assert(located_in(m.insert(id, key), lo, hi) =~= if in_box(key, lo, hi) {
        located_in(m.remove(id), lo, hi).insert(id)
    } else {
        located_in(m.remove(id), lo, hi)
    });
}

} // verus!
