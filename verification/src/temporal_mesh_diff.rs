//! Dirty-section tracking with a deterministic, sorted drain, and the exact
//! list of voxel indices that differ between two section palettes.

use vstd::prelude::*;

verus! {

/// Section coordinate: chunk x, chunk z, section y.
#[derive(Debug, Clone, Copy, PartialEq, Eq, Hash, PartialOrd, Ord, Structural)]
pub struct SectionKey {
    pub cx: i32,
    pub cz: i32,
    pub sy: i32,
}

/// Placeholder cost estimate for one changed block.
#[derive(Debug, Clone)]
pub struct MeshPatch {
    pub removed_quads: Vec<u32>,
    /// Packed quad words to add (none are produced by the estimate).
    pub added_quads: Vec<u64>,
}

/// Dirty sections, each with the generation of its latest mark.
pub struct TemporalDiff {
    dirty: Vec<(SectionKey, u64)>,
    generation: u64,
}

/// Lexicographic order on `(cx, cz, sy)`.
pub open spec fn key_lt(a: SectionKey, b: SectionKey) -> bool {
    a.cx < b.cx || (a.cx == b.cx && (a.cz < b.cz || (a.cz == b.cz && a.sy < b.sy)))
}

/// The drain order is lexicographic on `(cx, cz, sy)`: `a` comes before `b`
/// exactly when its `cx` is smaller, or `cx` ties and its `cz` is smaller, or
/// both tie and its `sy` is smaller.
pub proof fn lemma_key_order_is_cx_cz_sy(a: SectionKey, b: SectionKey)
    ensures
        key_lt(a, b) <==> (a.cx < b.cx || (a.cx == b.cx && a.cz < b.cz) || (a.cx == b.cx && a.cz == b.cz && a.sy
            < b.sy)),
        key_lt(a, b) ==> !key_lt(b, a) && a != b,
{
}

fn key_less(a: SectionKey, b: SectionKey) -> (r: bool)
    ensures
        r == key_lt(a, b),
{
    a.cx < b.cx || (a.cx == b.cx && (a.cz < b.cz || (a.cz == b.cz && a.sy < b.sy)))
}

/// Strictly increasing in the key order (so also free of duplicates).
pub open spec fn strictly_sorted(s: Seq<SectionKey>) -> bool {
    forall|i: int, j: int| 0 <= i < j < s.len() ==> key_lt(#[trigger] s[i], #[trigger] s[j])
}

/// Indices below `n` at which `a` and `b` differ, in increasing order.
pub open spec fn diff_indices(a: Seq<u16>, b: Seq<u16>, n: nat) -> Seq<usize>
    decreases n,
{
    if n == 0 {
        Seq::empty()
    } else {
        let pre = diff_indices(a, b, (n - 1) as nat);
        if a[n - 1] != b[n - 1] {
            pre.push((n - 1) as usize)
        } else {
            pre
        }
    }
}

impl TemporalDiff {
    /// The set of dirty keys.
    pub closed spec fn dirty_keys(self) -> Set<SectionKey> {
        Set::new(|k: SectionKey| exists|i: int| 0 <= i < self.dirty@.len() && self.dirty@[i].0 == k)
    }

    /// Number of marks made so far.
    pub closed spec fn generation(self) -> u64 {
        self.generation
    }

    /// Each key is stored once.
    pub closed spec fn wf(self) -> bool {
        forall|i: int, j: int|
            0 <= i < j < self.dirty@.len() ==> #[trigger] self.dirty@[i].0 != #[trigger] self.dirty@[j].0
    }

    /// Number of marks made so far.
    pub fn generation_count(&self) -> (g: u64)
        ensures
            g == self.generation(),
    {
        self.generation
    }

    pub fn new() -> (d: Self)
        ensures
            d.wf(),
            d.dirty_keys() == Set::<SectionKey>::empty(),
            d.generation() == 0,
    {
        let d = Self { dirty: Vec::new(), generation: 0 };
        assert(d.dirty_keys() =~= Set::<SectionKey>::empty());
        d
    }

    /// Marks a section dirty (a key marked twice is kept once) and advances
    /// the generation counter.
    pub fn mark_dirty(&mut self, key: SectionKey)
        requires
            old(self).wf(),
            old(self).generation() < u64::MAX,
        ensures
            final(self).wf(),
            final(self).dirty_keys() == old(self).dirty_keys().insert(key),
            final(self).generation() == old(self).generation() + 1,
    {
        self.generation = self.generation + 1;
        let g = self.generation;
        let ghost old_dirty = self.dirty@;
        let mut i: usize = 0;
        while i < self.dirty.len()
            invariant
                i <= self.dirty@.len(),
                self.dirty@ == old_dirty,
                old_dirty == old(self).dirty@,
                self.generation == g,
                g == old(self).generation + 1,
                forall|a: int, b: int|
                    0 <= a < b < old_dirty.len() ==> #[trigger] old_dirty[a].0 != #[trigger] old_dirty[b].0,
                forall|k: int| 0 <= k < i ==> #[trigger] self.dirty@[k].0 != key,
            decreases self.dirty@.len() - i,
        {
            if self.dirty[i].0 == key {
                self.dirty.set(i, (key, g));
                assert forall|a: int| 0 <= a < self.dirty@.len() implies #[trigger] self.dirty@[a].0
                    == old_dirty[a].0 by {
                    if a == i {
                        assert(self.dirty@[a].0 == key);
                    }
                }
                assert forall|a: int, b: int| 0 <= a < b < self.dirty@.len() implies #[trigger] self.dirty@[a].0
                    != #[trigger] self.dirty@[b].0 by {
                    assert(self.dirty@[a].0 == old_dirty[a].0);
                    assert(self.dirty@[b].0 == old_dirty[b].0);
                }
                assert(self.dirty_keys() =~= Set::new(|k: SectionKey| exists|j: int| 0 <= j < old_dirty.len() && old_dirty[j].0 == k).insert(key)) by {
                    assert forall|k: SectionKey| self.dirty_keys().contains(k) == Set::new(|k: SectionKey| exists|j: int| 0 <= j < old_dirty.len() && old_dirty[j].0 == k).insert(key).contains(k) by {
                        if exists|j: int| 0 <= j < old_dirty.len() && old_dirty[j].0 == k {
                            let j = choose|j: int| 0 <= j < old_dirty.len() && old_dirty[j].0 == k;
                            assert(self.dirty@[j].0 == k);
                        }
                        if exists|j: int| 0 <= j < self.dirty@.len() && self.dirty@[j].0 == k {
                            let j = choose|j: int| 0 <= j < self.dirty@.len() && self.dirty@[j].0 == k;
                            assert(old_dirty[j].0 == k);
                        }
                    }
                }
                return;
            }
            i += 1;
        }
        self.dirty.push((key, g));
        assert forall|a: int, b: int| 0 <= a < b < self.dirty@.len() implies #[trigger] self.dirty@[a].0
            != #[trigger] self.dirty@[b].0 by {
            if b < old_dirty.len() {
                assert(self.dirty@[a] == old_dirty[a] && self.dirty@[b] == old_dirty[b]);
            } else {
                assert(self.dirty@[a] == old_dirty[a]);
            }
        }
        assert(self.dirty_keys() =~= Set::new(|k: SectionKey| exists|j: int| 0 <= j < old_dirty.len() && old_dirty[j].0 == k).insert(key)) by {
            assert forall|k: SectionKey| self.dirty_keys().contains(k) == Set::new(|k: SectionKey| exists|j: int| 0 <= j < old_dirty.len() && old_dirty[j].0 == k).insert(key).contains(k) by {
                if exists|j: int| 0 <= j < old_dirty.len() && old_dirty[j].0 == k {
                    let j = choose|j: int| 0 <= j < old_dirty.len() && old_dirty[j].0 == k;
                    assert(self.dirty@[j].0 == k);
                }
                if exists|j: int| 0 <= j < self.dirty@.len() && self.dirty@[j].0 == k {
                    let j = choose|j: int| 0 <= j < self.dirty@.len() && self.dirty@[j].0 == k;
                    if j < old_dirty.len() {
                        assert(old_dirty[j].0 == k);
                    }
                }
                if k == key {
                    assert(self.dirty@[old_dirty.len() as int].0 == k);
                }
            }
        }
    }

    /// Drains the dirty keys in ascending `(cx, cz, sy)` order and empties
    /// the queue.
    pub fn take_dirty(&mut self) -> (keys: Vec<SectionKey>)
        requires
            old(self).wf(),
        ensures
            final(self).wf(),
            strictly_sorted(keys@),
            forall|i: int|
                0 <= i < keys@.len() - 1 ==> {
                    let a = #[trigger] keys@[i];
                    let b = keys@[i + 1];
                    a.cx < b.cx || (a.cx == b.cx && a.cz < b.cz) || (a.cx == b.cx && a.cz == b.cz && a.sy < b.sy)
                },
            keys@.to_set() == old(self).dirty_keys(),
            final(self).dirty_keys() == Set::<SectionKey>::empty(),
            final(self).generation() == old(self).generation(),
    {
        let ghost src = self.dirty@;
        let mut keys: Vec<SectionKey> = Vec::new();
        let mut i: usize = 0;
        while i < self.dirty.len()
            invariant
                i <= self.dirty@.len(),
                self.dirty@ == src,
                self.wf(),
                strictly_sorted(keys@),
                forall|k: SectionKey| #[trigger] keys@.contains(k) <==> exists|j: int| 0 <= j < i && src[j].0 == k,
            decreases self.dirty@.len() - i,
        {
            let k = self.dirty[i].0;
            assert(forall|j: int| 0 <= j < i ==> src[j].0 != k);
            insert_sorted(&mut keys, k);
            i += 1;
        }
        proof {
            assert forall|k: SectionKey| keys@.to_set().contains(k) == self.dirty_keys().contains(k) by {
                assert(keys@.to_set().contains(k) == keys@.contains(k));
            }
            assert(keys@.to_set() =~= self.dirty_keys());
        }
        self.dirty = Vec::new();
        assert(self.dirty_keys() =~= Set::<SectionKey>::empty());
        keys
    }

    /// Indices at which two section palettes differ, ascending.
    pub fn diff_section(old_palette: &[u16; 4096], new_palette: &[u16; 4096]) -> (d: Vec<usize>)
        ensures
            d@ == diff_indices(old_palette@, new_palette@, 4096),
    {
        let mut out: Vec<usize> = Vec::new();
        let mut i: usize = 0;
        while i < 4096
            invariant
                i <= 4096,
                old_palette@.len() == 4096,
                new_palette@.len() == 4096,
                out@ == diff_indices(old_palette@, new_palette@, i as nat),
            decreases 4096 - i,
        {
            if old_palette[i] != new_palette[i] {
                out.push(i);
            }
            i += 1;
        }
        out
    }

    /// Cost-estimate patch for one changed block: the block index as the one
    /// removed quad, nothing added. The index must lie in the section.
    pub fn patch_for_block(block_idx: usize) -> (p: MeshPatch)
        requires
            block_idx < 4096,
        ensures
            p.removed_quads@ == seq![block_idx as u32],
            p.added_quads@.len() == 0,
    {
        let mut removed_quads: Vec<u32> = Vec::new();
        removed_quads.push(block_idx as u32);
        MeshPatch { removed_quads, added_quads: Vec::new() }
    }
}

/// Inserts `k` (absent) into a strictly sorted vector, keeping it sorted.
fn insert_sorted(v: &mut Vec<SectionKey>, k: SectionKey)
    requires
        strictly_sorted(old(v)@),
        !old(v)@.contains(k),
    ensures
        strictly_sorted(final(v)@),
        forall|x: SectionKey| #[trigger] final(v)@.contains(x) <==> (old(v)@.contains(x) || x == k),
{
    let mut pos: usize = 0;
    while pos < v.len() && key_less(v[pos], k)
        invariant
            pos <= v@.len(),
            v@ == old(v)@,
            forall|j: int| 0 <= j < pos ==> key_lt(#[trigger] v@[j], k),
        decreases v@.len() - pos,
    {
        pos += 1;
    }
    let ghost o = v@;
    proof {
        if pos < o.len() {
            assert(o[pos as int] != k) by {
                assert(o.contains(o[pos as int]));
            }
            assert(key_lt(k, o[pos as int]));
        }
    }
    v.insert(pos, k);
    assert(v@ == o.insert(pos as int, k));
    assert forall|i: int, j: int| 0 <= i < j < v@.len() implies key_lt(#[trigger] v@[i], #[trigger] v@[j]) by {
        if j < pos {
            assert(v@[i] == o[i] && v@[j] == o[j]);
        } else if j == pos {
            assert(v@[i] == o[i]);
        } else if i == pos {
            assert(v@[j] == o[j - 1]);
            assert(key_lt(k, o[pos as int]));
            if j - 1 > pos {
                assert(key_lt(o[pos as int], o[j - 1]));
            }
        } else if i < pos {
            assert(v@[i] == o[i] && v@[j] == o[j - 1]);
        } else {
            assert(v@[i] == o[i - 1] && v@[j] == o[j - 1]);
        }
    }
    assert forall|x: SectionKey| #[trigger] v@.contains(x) <==> (o.contains(x) || x == k) by {
        if v@.contains(x) {
            let q = choose|q: int| 0 <= q < v@.len() && v@[q] == x;
            if q < pos {
                assert(o[q] == x);
            } else if q > pos {
                assert(o[q - 1] == x);
            }
        }
        if o.contains(x) {
            let q = choose|q: int| 0 <= q < o.len() && o[q] == x;
            if q < pos {
                assert(v@[q] == x);
            } else {
                assert(v@[q + 1] == x);
            }
        }
        if x == k {
            assert(v@[pos as int] == k);
        }
    }
}

} // verus!
