//! Vertex cache optimization: reorders an indexed triangle list greedily
//! (linear-speed, Forsyth style) so that recently used vertices stay in a
//! small simulated post-transform LRU cache; and the average cache-miss
//! measure of a list under that cache.

use vstd::prelude::*;
use vstd::multiset::Multiset;

verus! {

/// Slot of the parent of heap slot `i > 0`.
pub open spec fn parent(i: int) -> int {
    (i - 1) / 2
}

/// Every entry is at most its parent's.
pub open spec fn heap_ordered(s: Seq<u64>) -> bool {
    forall|i: int| 0 < i < s.len() ==> #[trigger] s[i] <= s[parent(i)]
}

/// Binary max-heap of candidate keys in a `Vec`.
struct MaxHeap {
    items: Vec<u64>,
}

impl MaxHeap {
    spec fn view(&self) -> Multiset<u64> {
        self.items@.to_multiset()
    }

    spec fn wf(&self) -> bool {
        heap_ordered(self.items@)
    }

    fn new() -> (h: Self)
        ensures
            h.wf(),
            h.view() =~= Multiset::<u64>::empty(),
    {
        let h = MaxHeap { items: Vec::new() };
        proof {
            vstd::seq_lib::to_multiset_len(h.items@);
        }
        h
    }

    fn push(&mut self, x: u64)
        requires
            old(self).wf(),
        ensures
            final(self).wf(),
            final(self).view() =~= old(self).view().insert(x),
    {
        let ghost s0 = self.items@;
        self.items.push(x);
        proof {
            vstd::seq_lib::to_multiset_build(s0, x);
        }
        let mut i = self.items.len() - 1;
        while i > 0
            invariant
                0 <= i < self.items@.len(),
                self.items@.to_multiset() =~= s0.to_multiset().insert(x),
                forall|j: int| 0 < j < self.items@.len() && j != i ==> #[trigger] self.items@[j] <= self.items@[parent(j)],
                i > 0 ==> forall|j: int|
                    0 < j < self.items@.len() && parent(j) == i ==> #[trigger] self.items@[j] <= self.items@[parent(i as int)],
            ensures
                heap_ordered(self.items@),
                self.items@.to_multiset() =~= s0.to_multiset().insert(x),
            decreases i,
        {
            let p = (i - 1) / 2;
            if self.items[i] <= self.items[p] {
                break;
            }
            let ghost s = self.items@;
            let a = self.items[i];
            let b = self.items[p];
            self.items.set(i, b);
            self.items.set(p, a);
            proof {
                lemma_swap_multiset(s, i as int, p as int);
            }
            i = p;
        }
    }

    fn pop(&mut self) -> (r: Option<u64>)
        requires
            old(self).wf(),
        ensures
            final(self).wf(),
            old(self).view().len() == 0 ==> r is None && final(self).view() =~= old(self).view(),
            old(self).view().len() > 0 ==> r is Some && old(self).view().count(r->0) > 0 && final(self).view()
                =~= old(self).view().remove(r->0) && forall|y: u64| old(self).view().count(y) > 0 ==> y <= r->0,
    {
        proof {
            vstd::seq_lib::to_multiset_len(self.items@);
        }
        if self.items.len() == 0 {
            return None;
        }
        let ghost s0 = self.items@;
        proof {
            assert forall|y: u64| s0.to_multiset().count(y) > 0 implies y <= s0[0] by {
                vstd::seq_lib::to_multiset_contains(s0, y);
                let k = choose|k: int| 0 <= k < s0.len() && s0[k] == y;
                lemma_root_max(s0, k);
            }
            vstd::seq_lib::to_multiset_contains(s0, s0[0]);
        }
        let top = self.items[0];
        let last = self.items.pop().unwrap();
        if self.items.len() == 0 {
            proof {
                assert(s0 =~= seq![top]);
                assert(s0.remove(0) =~= Seq::<u64>::empty());
                vstd::seq_lib::to_multiset_remove(s0, 0);
            }
            return Some(top);
        }
        self.items.set(0, last);
        proof {
            // Moving the last entry to the root is removing the root.
            let t = s0.update(0, last);
            assert(self.items@ =~= t.drop_last());
            vstd::seq_lib::to_multiset_update(s0, 0, last);
            assert(t.drop_last() =~= t.remove(t.len() - 1));
            vstd::seq_lib::to_multiset_remove(t, t.len() - 1);
        }
        let n = self.items.len();
        let mut i: usize = 0;
        while i < n
            invariant
                n == self.items@.len(),
                i < n,
                self.items@.to_multiset() =~= s0.to_multiset().remove(top),
                forall|j: int| 0 < j < n && parent(j) != i ==> #[trigger] self.items@[j] <= self.items@[parent(j)],
                i > 0 ==> forall|j: int| 0 < j < n && parent(j) == i ==> #[trigger] self.items@[j] <= self.items@[parent(i as int)],
            ensures
                heap_ordered(self.items@),
                self.items@.to_multiset() =~= s0.to_multiset().remove(top),
            decreases n - i,
        {
            if n < 2 || i > (n - 2) / 2 {
                break;
            }
            let l = 2 * i + 1;
            let r = 2 * i + 2;
            let mut big = i;
            if l < n && self.items[l] > self.items[big] {
                big = l;
            }
            if r < n && self.items[r] > self.items[big] {
                big = r;
            }
            if big == i {
                break;
            }
            let ghost s = self.items@;
            let a = self.items[i];
            let b = self.items[big];
            self.items.set(i, b);
            self.items.set(big, a);
            proof {
                lemma_swap_multiset(s, i as int, big as int);
            }
            i = big;
        }
        Some(top)
    }
}

/// The root of an ordered heap is its largest entry.
proof fn lemma_root_max(s: Seq<u64>, i: int)
    requires
        heap_ordered(s),
        0 <= i < s.len(),
    ensures
        s[i] <= s[0],
    decreases i,
{
    if i > 0 {
        assert(s[i] <= s[parent(i)]);
        lemma_root_max(s, parent(i));
    }
}

/// Swapping two entries keeps the multiset.
proof fn lemma_swap_multiset(s: Seq<u64>, i: int, j: int)
    requires
        0 <= i < s.len(),
        0 <= j < s.len(),
    ensures
        s.update(i, s[j]).update(j, s[i]).to_multiset() =~= s.to_multiset(),
{
    broadcast use vstd::multiset::group_multiset_axioms;

    if i == j {
        assert(s.update(i, s[j]).update(j, s[i]) =~= s);
    } else {
        let t = s.update(i, s[j]);
        vstd::seq_lib::to_multiset_update(s, i, s[j]);
        vstd::seq_lib::to_multiset_update(t, j, s[i]);
        vstd::seq_lib::to_multiset_contains(s, s[i]);
        assert(t[j] == s[j]);
        assert(t.update(j, s[i]).to_multiset() =~= s.to_multiset());
    }
}


/// The cache after an access to `v`: `v` moves to the front (slot 0); if it
/// was not cached, the last slot is evicted.
pub open spec fn lru_access(c: Seq<i32>, v: i32) -> Seq<i32> {
    if exists|k: int| 0 <= k < c.len() && c[k] == v {
        let k = choose|k: int| 0 <= k < c.len() && c[k] == v;
        seq![v] + c.subrange(0, k) + c.subrange(k + 1, c.len() as int)
    } else {
        seq![v] + c.subrange(0, c.len() - 1)
    }
}

/// `cs` empty slots.
pub open spec fn empty_cache(cs: nat) -> Seq<i32> {
    Seq::new(cs, |i: int| -1i32)
}

/// The cache after a run of accesses from empty, and how many of them missed.
pub open spec fn lru_run(s: Seq<u32>, cs: nat) -> (Seq<i32>, nat)
    decreases s.len(),
{
    if s.len() == 0 {
        (empty_cache(cs), 0)
    } else {
        let (c, m) = lru_run(s.drop_last(), cs);
        let v = s.last() as i32;
        (lru_access(c, v), if c.contains(v) { m } else { m + 1 })
    }
}

/// Cache slots hold vertex ids below `pos.len()` or -1, no id twice, and
/// `pos` gives each vertex's slot (-1 when not cached).
pub open spec fn lru_ok(c: Seq<i32>, pos: Seq<i32>) -> bool {
    &&& 1 <= c.len() <= i32::MAX
    &&& pos.len() <= i32::MAX
    &&& forall|k: int| 0 <= k < c.len() ==> -1 <= #[trigger] c[k] < pos.len()
    &&& forall|k: int| 0 <= k < c.len() && c[k] >= 0 ==> pos[c[k] as int] == k
    &&& forall|u: int| 0 <= u < pos.len() ==> -1 <= #[trigger] pos[u] < c.len()
    &&& forall|u: int| 0 <= u < pos.len() && pos[u] >= 0 ==> c[pos[u] as int] == u
}

/// Access `v`: move it to the front of the cache, shifting the slots before
/// its old slot (or all but the evicted last slot) back by one.
fn use_vertex(cache: &mut Vec<i32>, cache_pos: &mut Vec<i32>, v: u32)
    requires
        lru_ok(old(cache)@, old(cache_pos)@),
        (v as int) < old(cache_pos)@.len(),
    ensures
        final(cache)@ == lru_access(old(cache)@, v as i32),
        final(cache_pos)@.len() == old(cache_pos)@.len(),
        lru_ok(final(cache)@, final(cache_pos)@),
        old(cache)@.contains(v as i32) <==> old(cache_pos)@[v as int] >= 0,
{
    let ghost c0 = cache@;
    let ghost p0 = cache_pos@;
    let vi = v as i32;
    let n = cache.len();
    let mut found: usize = n;
    let mut k: usize = 0;
    while k < n
        invariant_except_break
            found == n,
            forall|j: int| 0 <= j < k ==> c0[j] != vi,
        invariant
            n == cache@.len(),
            cache@ == c0,
            k <= n,
        ensures
            found <= n,
            found < n ==> c0[found as int] == vi,
            found == n ==> forall|j: int| 0 <= j < n ==> c0[j] != vi,
        decreases n - k,
    {
        if cache[k] == vi {
            found = k;
            break;
        }
        k += 1;
    }
    proof {
        if found < n {
            assert(c0.contains(vi));
            assert(p0[v as int] == found);
        } else {
            assert(!c0.contains(vi));
            if p0[v as int] >= 0 {
                assert(c0[p0[v as int] as int] == vi);
            }
        }
    }
    let f = if found < n { found } else { n - 1 };
    let evicted = cache[n - 1];
    let mut k = f;
    while k > 0
        invariant
            n == cache@.len(),
            n == c0.len(),
            cache_pos@.len() == p0.len(),
            lru_ok(c0, p0),
            f < n,
            k <= f,
            forall|j: int| 0 <= j < n ==> #[trigger] cache@[j] == if k < j <= f { c0[j - 1] } else { c0[j] },
            forall|u: int|
                0 <= u < p0.len() ==> #[trigger] cache_pos@[u] as int == if k <= p0[u] < f { p0[u] + 1 } else { p0[u] as int },
        decreases k,
    {
        let moved = cache[k - 1];
        cache.set(k, moved);
        if moved >= 0 {
            cache_pos.set(moved as usize, k as i32);
        }
        k -= 1;
    }
    if found == n && evicted >= 0 {
        cache_pos.set(evicted as usize, -1);
    }
    cache.set(0, vi);
    cache_pos.set(v as usize, 0);
    proof {
        let c1 = cache@;
        let p1 = cache_pos@;
        if found < n {
            assert(c0[f as int] == vi);
            assert forall|j: int| 0 <= j < n && c0[j] == vi implies j == f by {
                assert(p0[vi as int] == j);
                assert(p0[vi as int] == f);
            }
            assert(c1 =~= seq![vi] + c0.subrange(0, f as int) + c0.subrange(f + 1, n as int));
        } else {
            assert(c1 =~= seq![vi] + c0.subrange(0, n - 1));
        }
        assert forall|j: int| 0 <= j < n && c1[j] >= 0 implies p1[c1[j] as int] == j by {
            if j > 0 {
                if j <= f {
                    assert(p0[c0[j - 1] as int] == j - 1);
                } else {
                    assert(p0[c0[j] as int] == j);
                }
            }
        }
        assert forall|u: int| 0 <= u < p1.len() && p1[u] >= 0 implies c1[p1[u] as int] == u by {
            if u != v as int && !(found == n && u == evicted as int) {
                assert(p0[u] >= 0);
                assert(c0[p0[u] as int] == u);
                if p0[u] < f {
                    assert(c1[p0[u] + 1] == c0[p0[u] as int]);
                } else if p0[u] > f {
                    assert(c1[p0[u] as int] == c0[p0[u] as int]);
                } else {
                    assert(c0[f as int] == u);
                    if found < n {
                        assert(c0[found as int] == vi);
                    } else {
                        assert(c0[n - 1] == evicted);
                    }
                }
            }
        }
    }
}

/// Cache misses of the access run `indices` on an LRU cache of
/// `cache_size` slots (each access that does not find its vertex cached).
pub fn acmr_misses(indices: &[u32], cache_size: u32) -> (m: u32)
    requires
        cache_size > 0,
        cache_size <= i32::MAX,
        indices@.len() % 3 == 0,
        indices@.len() <= u32::MAX,
        forall|i: int| 0 <= i < indices@.len() ==> #[trigger] indices@[i] < i32::MAX,
    ensures
        m == lru_run(indices@, cache_size as nat).1,
{
    let cs = cache_size as usize;
    let mut max_v: u32 = 0;
    let mut i: usize = 0;
    while i < indices.len()
        invariant
            i <= indices@.len(),
            forall|j: int| 0 <= j < i ==> indices@[j] <= max_v,
            max_v < i32::MAX,
            forall|j: int| 0 <= j < indices@.len() ==> #[trigger] indices@[j] < i32::MAX,
        decreases indices@.len() - i,
    {
        if indices[i] > max_v {
            max_v = indices[i];
        }
        i += 1;
    }
    let nv = max_v as usize + 1;
    let mut cache: Vec<i32> = Vec::new();
    let mut q: usize = 0;
    while q < cs
        invariant
            q <= cs,
            cache@ == empty_cache(q as nat),
        decreases cs - q,
    {
        cache.push(-1);
        q += 1;
        proof {
            assert(cache@ =~= empty_cache(q as nat));
        }
    }
    let mut pos: Vec<i32> = Vec::new();
    let mut q: usize = 0;
    while q < nv
        invariant
            q <= nv,
            pos@.len() == q,
            forall|u: int| 0 <= u < q ==> pos@[u] == -1,
        decreases nv - q,
    {
        pos.push(-1);
        q += 1;
    }
    let mut misses: u32 = 0;
    let mut i: usize = 0;
    while i < indices.len()
        invariant
            i <= indices@.len(),
            indices@.len() <= u32::MAX,
            nv == max_v + 1,
            forall|j: int| 0 <= j < indices@.len() ==> indices@[j] <= max_v,
            lru_ok(cache@, pos@),
            pos@.len() == nv,
            cache@.len() == cs,
            (cache@, misses as nat) == lru_run(indices@.take(i as int), cs as nat),
            misses <= i,
        decreases indices@.len() - i,
    {
        let v = indices[i];
        let hit = pos[v as usize] >= 0;
        proof {
            assert(indices@.take(i + 1).drop_last() =~= indices@.take(i as int));
        }
        use_vertex(&mut cache, &mut pos, v);
        if !hit {
            misses += 1;
        }
        i += 1;
    }
    proof {
        assert(indices@.take(indices@.len() as int) =~= indices@);
    }
    misses
}


/// Triangles (flat position / 3) at which vertex `v` occurs in the flat list
/// `s`, in order, once per occurrence.
pub open spec fn adj(s: Seq<u32>, v: int) -> Seq<u32>
    decreases s.len(),
{
    if s.len() == 0 {
        Seq::empty()
    } else if s.last() == v {
        adj(s.drop_last(), v).push(((s.len() - 1) / 3) as u32)
    } else {
        adj(s.drop_last(), v)
    }
}

/// Occurrences of the vertices below `n`.
pub open spec fn adj_total(s: Seq<u32>, n: int) -> nat
    decreases n,
{
    if n <= 0 {
        0
    } else {
        adj_total(s, n - 1) + adj(s, n - 1).len()
    }
}

proof fn lemma_adj_take(s: Seq<u32>, i: int, v: int)
    requires
        0 <= i < s.len(),
    ensures
        adj(s.take(i + 1), v) == if s[i] == v {
            adj(s.take(i), v).push((i / 3) as u32)
        } else {
            adj(s.take(i), v)
        },
{
    assert(s.take(i + 1).drop_last() =~= s.take(i));
}

/// The occurrences in a prefix are a prefix of the occurrences.
proof fn lemma_adj_prefix(s: Seq<u32>, i: int, v: int)
    requires
        0 <= i <= s.len(),
    ensures
        adj(s.take(i), v).len() <= adj(s, v).len(),
        forall|q: int| 0 <= q < adj(s.take(i), v).len() ==> #[trigger] adj(s.take(i), v)[q] == adj(s, v)[q],
    decreases s.len() - i,
{
    if i < s.len() {
        lemma_adj_prefix(s, i + 1, v);
        lemma_adj_take(s, i, v);
        let a = adj(s.take(i), v);
        let b = adj(s.take(i + 1), v);
        assert forall|q: int| 0 <= q < a.len() implies #[trigger] a[q] == adj(s, v)[q] by {
            assert(a[q] == b[q]);
        }
    } else {
        assert(s.take(i) =~= s);
    }
}

/// Pushing one more entry adds one occurrence below `n` if it is below `n`.
proof fn lemma_adj_total_push(s: Seq<u32>, x: u32, n: int)
    ensures
        adj_total(s.push(x), n) == adj_total(s, n) + if 0 <= x < n { 1nat } else { 0nat },
    decreases n,
{
    if n > 0 {
        lemma_adj_total_push(s, x, n - 1);
        assert(s.push(x).drop_last() =~= s);
    }
}

/// Every entry below `n` occurs once among the vertices below `n`.
proof fn lemma_adj_total_len(s: Seq<u32>, n: int)
    requires
        forall|i: int| 0 <= i < s.len() ==> s[i] < n,
    ensures
        adj_total(s, n) == s.len(),
    decreases s.len(),
{
    if s.len() == 0 {
        lemma_adj_total_empty(s, n);
    } else {
        lemma_adj_total_len(s.drop_last(), n);
        lemma_adj_total_push(s.drop_last(), s.last(), n);
        assert(s.drop_last().push(s.last()) =~= s);
    }
}

proof fn lemma_adj_total_empty(s: Seq<u32>, n: int)
    requires
        s.len() == 0,
    ensures
        adj_total(s, n) == 0,
    decreases n,
{
    if n > 0 {
        lemma_adj_total_empty(s, n - 1);
    }
}

proof fn lemma_adj_total_mono(s: Seq<u32>, a: int, b: int)
    requires
        0 <= a <= b,
    ensures
        adj_total(s, a) <= adj_total(s, b),
    decreases b - a,
{
    if a < b {
        lemma_adj_total_mono(s, a, b - 1);
    }
}

/// Entries of `adj` are triangle ids of the list.
proof fn lemma_adj_bound(s: Seq<u32>, v: int)
    ensures
        adj(s, v).len() <= s.len(),
        forall|q: int| 0 <= q < adj(s, v).len() ==> 3 * (#[trigger] adj(s, v)[q] as int) < s.len(),
    decreases s.len(),
{
    if s.len() > 0 {
        lemma_adj_bound(s.drop_last(), v);
    }
}

/// Vertex-to-triangle adjacency in compressed rows: the triangles that use
/// vertex `v` are `flat[off[v]..off[v + 1]]`, in list order, once per use.
fn build_adjacency(indices: &[u32], nv: usize) -> (r: (Vec<u32>, Vec<u32>))
    requires
        indices@.len() <= u32::MAX,
        nv < usize::MAX,
        forall|i: int| 0 <= i < indices@.len() ==> (#[trigger] indices@[i] as int) < nv,
    ensures
        r.0@.len() == nv + 1,
        r.1@.len() == indices@.len(),
        r.0@[0] == 0,
        r.0@[nv as int] == indices@.len(),
        forall|a: int, b: int| 0 <= a <= b <= nv ==> r.0@[a] <= r.0@[b],
        forall|v: int| 0 <= v < nv ==> #[trigger] r.1@.subrange(r.0@[v] as int, r.0@[v + 1] as int) == adj(indices@, v),
        forall|q: int| 0 <= q < r.1@.len() ==> 3 * (#[trigger] r.1@[q] as int) < indices@.len(),
{
    let len = indices.len();
    let mut off: Vec<u32> = Vec::new();
    let mut q: usize = 0;
    while q <= nv
        invariant
            q <= nv + 1,
            nv < usize::MAX,
            off@.len() == q,
            forall|u: int| 0 <= u < q ==> off@[u] == 0,
        decreases nv + 1 - q,
    {
        off.push(0);
        q += 1;
    }
    let mut i: usize = 0;
    while i < len
        invariant
            i <= len,
            len == indices@.len(),
            len <= u32::MAX,
            off@.len() == nv + 1,
            off@[0] == 0,
            forall|j: int| 0 <= j < indices@.len() ==> (#[trigger] indices@[j] as int) < nv,
            forall|v: int| 0 <= v < nv ==> #[trigger] off@[v + 1] == adj(indices@.take(i as int), v).len(),
        decreases len - i,
    {
        let v = indices[i] as usize;
        proof {
            lemma_adj_take(indices@, i as int, v as int);
            lemma_adj_bound(indices@.take(i as int), v as int);
            assert forall|u: int| 0 <= u < nv && u != v implies #[trigger] adj(indices@.take(i + 1), u) == adj(indices@.take(i as int), u) by {
                lemma_adj_take(indices@, i as int, u);
            }
        }
        off.set(v + 1, off[v + 1] + 1);
        i += 1;
    }
    proof {
        assert(indices@.take(len as int) =~= indices@);
        lemma_adj_total_len(indices@, nv as int);
        assert forall|u: int| 0 < u <= nv implies #[trigger] off@[u] == adj(indices@, u - 1).len() by {
            assert(off@[(u - 1) + 1] == adj(indices@.take(len as int), u - 1).len());
        }
    }
    let mut v: usize = 0;
    while v < nv
        invariant
            v <= nv,
            off@.len() == nv + 1,
            adj_total(indices@, nv as int) == indices@.len(),
            indices@.len() <= u32::MAX,
            forall|u: int| 0 <= u <= v ==> #[trigger] off@[u] == adj_total(indices@, u),
            forall|u: int| v < u <= nv ==> #[trigger] off@[u] == adj(indices@, u - 1).len(),
        decreases nv - v,
    {
        proof {
            lemma_adj_total_mono(indices@, v + 1, nv as int);
        }
        off.set(v + 1, off[v + 1] + off[v]);
        v += 1;
    }
    proof {
        assert forall|a: int, b: int| 0 <= a <= b <= nv implies off@[a] <= off@[b] by {
            lemma_adj_total_mono(indices@, a, b);
        }
    }
    let mut flat: Vec<u32> = Vec::new();
    let mut q: usize = 0;
    while q < len
        invariant
            q <= len,
            flat@.len() == q,
            forall|u: int| 0 <= u < q ==> flat@[u] == 0,
        decreases len - q,
    {
        flat.push(0);
        q += 1;
    }
    let mut cursor: Vec<u32> = Vec::new();
    let mut v: usize = 0;
    while v < nv
        invariant
            v <= nv,
            off@.len() == nv + 1,
            cursor@.len() == v,
            forall|u: int| 0 <= u < v ==> cursor@[u] == off@[u],
        decreases nv - v,
    {
        cursor.push(off[v]);
        v += 1;
    }
    proof {
        assert forall|u: int| 0 <= u < nv implies #[trigger] flat@.subrange(off@[u] as int, cursor@[u] as int) == adj(
            indices@.take(0),
            u,
        ) by {
            assert(indices@.take(0).len() == 0);
            assert(off@[u] <= off@[nv as int]);
            assert(cursor@[u] == off@[u]);
            assert(flat@.subrange(off@[u] as int, cursor@[u] as int) =~= Seq::<u32>::empty());
        }
        assert forall|u: int| 0 <= u < nv implies #[trigger] off@[u + 1] == off@[u] + adj(indices@, u).len() by {
            assert(off@[u] == adj_total(indices@, u));
            assert(off@[u + 1] == adj_total(indices@, u + 1));
        }
    }
    let mut p: usize = 0;
    while p < len
        invariant
            p <= len,
            len == indices@.len(),
            len <= u32::MAX,
            off@.len() == nv + 1,
            cursor@.len() == nv,
            flat@.len() == len,
            off@[nv as int] == len,
            forall|j: int| 0 <= j < indices@.len() ==> (#[trigger] indices@[j] as int) < nv,
            forall|a: int, b: int| 0 <= a <= b <= nv ==> off@[a] <= off@[b],
            forall|u: int| 0 <= u < nv ==> #[trigger] off@[u + 1] == off@[u] + adj(indices@, u).len(),
            forall|u: int| 0 <= u < nv ==> #[trigger] cursor@[u] == off@[u] + adj(indices@.take(p as int), u).len(),
            forall|u: int| 0 <= u < nv ==> #[trigger] flat@.subrange(off@[u] as int, cursor@[u] as int) == adj(indices@.take(p as int), u),
            forall|q: int| 0 <= q < flat@.len() ==> 3 * (#[trigger] flat@[q] as int) < len || flat@[q] == 0,
        decreases len - p,
    {
        let v = indices[p] as usize;
        let c = cursor[v] as usize;
        proof {
            lemma_adj_take(indices@, p as int, v as int);
            lemma_adj_prefix(indices@, p + 1, v as int);
            assert(c < off@[v + 1]);
        }
        let ghost f0 = flat@;
        flat.set(c, (p / 3) as u32);
        cursor.set(v, cursor[v] + 1);
        proof {
            assert forall|u: int| 0 <= u < nv && u != v implies #[trigger] adj(indices@.take(p + 1), u) == adj(
                indices@.take(p as int),
                u,
            ) by {
                lemma_adj_take(indices@, p as int, u);
            }
            assert forall|u: int| 0 <= u < nv implies #[trigger] flat@.subrange(off@[u] as int, cursor@[u] as int) == adj(
                indices@.take(p + 1),
                u,
            ) by {
                lemma_adj_take(indices@, p as int, u);
                if u == v {
                    assert(flat@.subrange(off@[u] as int, cursor@[u] as int) =~= f0.subrange(off@[u] as int, c as int).push(
                        (p / 3) as u32,
                    ));
                } else {
                    lemma_adj_prefix(indices@, p as int, u);
                    let cu = cursor@[u] as int;
                    let ou = off@[u] as int;
                    assert(ou <= cu <= off@[u + 1]);
                    assert(off@[u + 1] <= len);
                    if u < v {
                        assert(off@[u + 1] <= off@[v as int]);
                    } else {
                        assert(off@[v + 1] <= off@[u]);
                    }
                    assert(c < ou || c >= cu);
                    assert(flat@.subrange(ou, cu) =~= f0.subrange(ou, cu));
                }
            }
        }
        p += 1;
    }
    proof {
        assert(indices@.take(len as int) =~= indices@);
        assert forall|u: int| 0 <= u < nv implies #[trigger] flat@.subrange(off@[u] as int, off@[u + 1] as int) == adj(
            indices@,
            u,
        ) by {
            assert(cursor@[u] == off@[u + 1]);
            assert(flat@.subrange(off@[u] as int, cursor@[u] as int) == adj(indices@.take(len as int), u));
        }
        if len > 0 {
            assert forall|q: int| 0 <= q < flat@.len() implies 3 * (#[trigger] flat@[q] as int) < len by {
                if flat@[q] == 0 {
                }
            }
        }
    }
    (off, flat)
}


/// Vertex `j` (0 to 2) of triangle `t` of a flat triangle list.
pub open spec fn tri_vertex(s: Seq<u32>, t: int, j: int) -> u32 {
    s[3 * t + j]
}

/// `out` lists the triangles of `input` in the order `order`: each triangle
/// once, its three vertices in their order.
pub open spec fn reorders_by(out: Seq<u32>, input: Seq<u32>, order: Seq<int>) -> bool {
    &&& out.len() == input.len()
    &&& 3 * order.len() == input.len()
    &&& forall|k: int| 0 <= k < order.len() ==> 0 <= #[trigger] order[k] < order.len()
    &&& forall|k1: int, k2: int| 0 <= k1 < k2 < order.len() ==> order[k1] != order[k2]
    &&& forall|k: int, j: int|
        0 <= k < order.len() && 0 <= j < 3 ==> #[trigger] tri_vertex(out, k, j) == tri_vertex(input, order[k], j)
}

/// `out` is `input` with its triangles reordered.
pub open spec fn is_triangle_reordering(out: Seq<u32>, input: Seq<u32>) -> bool {
    exists|order: Seq<int>| #[trigger] reorders_by(out, input, order)
}

/// Heap key of triangle `t` with score bits `score`: score first, ties
/// broken by the larger triangle id.
pub open spec fn cand_key(score: u32, t: int) -> u64 {
    (score * 4294967296 + t) as u64
}

/// Number of `true` entries.
pub open spec fn count_true(s: Seq<bool>) -> nat
    decreases s.len(),
{
    if s.len() == 0 {
        0
    } else {
        count_true(s.drop_last()) + if s.last() { 1nat } else { 0nat }
    }
}

proof fn lemma_count_true_set(s: Seq<bool>, i: int)
    requires
        0 <= i < s.len(),
        !s[i],
    ensures
        count_true(s.update(i, true)) == count_true(s) + 1,
    decreases s.len(),
{
    if i < s.len() - 1 {
        lemma_count_true_set(s.drop_last(), i);
        assert(s.update(i, true).drop_last() =~= s.drop_last().update(i, true));
    } else {
        assert(s.update(i, true).drop_last() =~= s.drop_last());
    }
}

proof fn lemma_count_true_bound(s: Seq<bool>)
    ensures
        count_true(s) <= s.len(),
        count_true(s) < s.len() ==> exists|i: int| 0 <= i < s.len() && !#[trigger] s[i],
    decreases s.len(),
{
    if s.len() > 0 {
        lemma_count_true_bound(s.drop_last());
        if count_true(s) < s.len() && s.last() {
            let i = choose|i: int| 0 <= i < s.drop_last().len() && !#[trigger] s.drop_last()[i];
            assert(!s[i]);
        }
    }
}

proof fn lemma_count_true_none(n: nat)
    ensures
        count_true(Seq::new(n, |i: int| false)) == 0,
    decreases n,
{
    if n > 0 {
        lemma_count_true_none((n - 1) as nat);
        assert(Seq::new(n, |i: int| false).drop_last() =~= Seq::new((n - 1) as nat, |i: int| false));
    }
}

/// Slot of vertex `v` in the cache `c`, -1 when it is not cached.
pub open spec fn slot(c: Seq<i32>, v: u32) -> i32 {
    if exists|k: int| 0 <= k < c.len() && c[k] == v as i32 {
        (choose|k: int| 0 <= k < c.len() && c[k] == v as i32) as i32
    } else {
        -1i32
    }
}

/// Score of triangle `t` of the flat list `s` under the cache `c`: `key` of
/// its vertices' slots.
pub open spec fn score_of(s: Seq<u32>, c: Seq<i32>, key: spec_fn(i32, i32, i32) -> u32, t: int) -> u32 {
    key(slot(c, s[3 * t]), slot(c, s[3 * t + 1]), slot(c, s[3 * t + 2]))
}

/// Greedy state: the cache, each triangle's recorded score, and which
/// triangles have been emitted.
pub type GreedyState = (Seq<i32>, Seq<u32>, Seq<bool>);

/// Recorded scores after re-scoring, under the cache `c`, the not yet
/// emitted triangles of the list `l` in turn.
pub open spec fn rescore(
    s: Seq<u32>,
    c: Seq<i32>,
    key: spec_fn(i32, i32, i32) -> u32,
    em: Seq<bool>,
    sc: Seq<u32>,
    l: Seq<u32>,
) -> Seq<u32>
    decreases l.len(),
{
    if l.len() == 0 {
        sc
    } else {
        let prev = rescore(s, c, key, em, sc, l.drop_last());
        let u = l.last() as int;
        if !em[u] {
            prev.update(u, score_of(s, c, key, u))
        } else {
            prev
        }
    }
}

/// Using vertex `v`: it moves to the front of the cache, then the triangles
/// that use it and are not yet emitted are re-scored.
pub open spec fn touch(s: Seq<u32>, key: spec_fn(i32, i32, i32) -> u32, st: GreedyState, v: u32) -> GreedyState {
    let c = lru_access(st.0, v as i32);
    (c, rescore(s, c, key, st.2, st.1, adj(s, v as int)), st.2)
}

/// The first `j` vertices of triangle `t` used in order.
pub open spec fn touch_n(s: Seq<u32>, key: spec_fn(i32, i32, i32) -> u32, st: GreedyState, t: int, j: nat) -> GreedyState
    decreases j,
{
    if j == 0 {
        st
    } else {
        touch(s, key, touch_n(s, key, st, t, (j - 1) as nat), s[3 * t + j - 1])
    }
}

/// Emitting triangle `t`: it is marked emitted, then its three vertices are
/// used in order.
pub open spec fn emit(s: Seq<u32>, key: spec_fn(i32, i32, i32) -> u32, st: GreedyState, t: int) -> GreedyState {
    touch_n(s, key, (st.0, st.1, st.2.update(t, true)), t, 3)
}

/// `t` is a not yet emitted triangle whose recorded score is the highest,
/// ties going to the larger triangle id.
pub open spec fn is_best(st: GreedyState, t: int) -> bool {
    &&& 0 <= t < st.2.len()
    &&& !st.2[t]
    &&& forall|u: int| 0 <= u < st.2.len() && !st.2[u] ==> cand_key(st.1[u], u) <= cand_key(st.1[t], t)
}

/// The state and the emission order after `k` greedy steps on the flat
/// triangle list `s` with a cache of `cs` slots.
pub open spec fn greedy_run(s: Seq<u32>, cs: nat, key: spec_fn(i32, i32, i32) -> u32, k: nat) -> (GreedyState, Seq<int>)
    decreases k,
{
    if k == 0 {
        let n = s.len() / 3;
        (
            (empty_cache(cs), Seq::new(n, |t: int| score_of(s, empty_cache(cs), key, t)), Seq::new(n, |t: int| false)),
            Seq::empty(),
        )
    } else {
        let (st, order) = greedy_run(s, cs, key, (k - 1) as nat);
        let t = choose|t: int| is_best(st, t);
        (emit(s, key, st, t), order.push(t))
    }
}

/// The order in which the greedy optimizer emits the triangles of `s`.
pub open spec fn greedy_order(s: Seq<u32>, cs: nat, key: spec_fn(i32, i32, i32) -> u32) -> Seq<int> {
    greedy_run(s, cs, key, s.len() / 3).1
}

/// `f` gives one result per argument triple.
pub open spec fn deterministic<F: Fn(i32, i32, i32) -> u32>(f: F) -> bool {
    forall|a: i32, b: i32, c: i32, k1: u32, k2: u32|
        #[trigger] f.ensures((a, b, c), k1) && #[trigger] f.ensures((a, b, c), k2) ==> k1 == k2
}

/// The result of `f` as a spec function.
pub open spec fn closure_key<F: Fn(i32, i32, i32) -> u32>(f: F) -> spec_fn(i32, i32, i32) -> u32 {
    |a: i32, b: i32, c: i32| choose|k: u32| f.ensures((a, b, c), k)
}

proof fn lemma_closure_key<F: Fn(i32, i32, i32) -> u32>(f: F, a: i32, b: i32, c: i32, r: u32)
    requires
        deterministic(f),
        f.ensures((a, b, c), r),
    ensures
        closure_key(f)(a, b, c) == r,
{
    let k = choose|k: u32| f.ensures((a, b, c), k);
    assert(f.ensures((a, b, c), k));
}

proof fn lemma_pos_slot(c: Seq<i32>, pos: Seq<i32>, v: u32)
    requires
        lru_ok(c, pos),
        (v as int) < pos.len(),
    ensures
        pos[v as int] == slot(c, v),
{
    if pos[v as int] >= 0 {
        let k = pos[v as int] as int;
        assert(c[k] == v as i32);
        let k2 = choose|k: int| 0 <= k < c.len() && c[k] == v as i32;
        assert(pos[c[k2] as int] == k2);
    } else {
        if exists|k: int| 0 <= k < c.len() && c[k] == v as i32 {
            let k = choose|k: int| 0 <= k < c.len() && c[k] == v as i32;
            assert(pos[c[k] as int] == k);
        }
    }
}

proof fn lemma_slot_empty(cs: nat, v: u32)
    requires
        v < i32::MAX,
    ensures
        slot(empty_cache(cs), v) == -1,
{
    if exists|k: int| 0 <= k < cs && empty_cache(cs)[k] == v as i32 {
        let k = choose|k: int| 0 <= k < cs && empty_cache(cs)[k] == v as i32;
        assert(empty_cache(cs)[k] == -1);
    }
}

proof fn lemma_cand_key_tri(score: u32, t: int)
    requires
        0 <= t < 4294967296,
    ensures
        cand_key(score, t) as int == score * 4294967296 + t,
        cand_key(score, t) % 4294967296 == t,
{
    assert(score * 4294967296 + t <= u64::MAX) by (nonlinear_arith)
        requires
            score <= u32::MAX,
            t < 4294967296,
    ;
    vstd::arithmetic::div_mod::lemma_fundamental_div_mod_converse(
        score * 4294967296 + t,
        4294967296,
        score as int,
        t,
    );
}

fn make_key(score: u32, t: u32) -> (k: u64)
    ensures
        k == cand_key(score, t as int),
        k % 4294967296 == t,
{
    let k = (score as u64) * 4294967296 + t as u64;
    proof {
        vstd::arithmetic::div_mod::lemma_fundamental_div_mod_converse(k as int, 4294967296, score as int, t as int);
    }
    k
}

/// Greedy reordering (vertex cache optimizer) over a simulated LRU cache.
#[derive(Clone, Copy, Debug)]
pub struct VertexCacheOptimizer {
    /// Simulated post-transform cache size.
    pub cache_size: u32,
}

impl Default for VertexCacheOptimizer {
    fn default() -> (o: Self)
        ensures
            o.cache_size == 24,
    {
        VertexCacheOptimizer { cache_size: 24 }
    }
}

impl VertexCacheOptimizer {
    /// An optimizer with a cache of `cache_size` slots, at least 4.
    pub fn new(cache_size: u32) -> (o: Self)
        ensures
            o.cache_size == if cache_size < 4 { 4 } else { cache_size },
    {
        VertexCacheOptimizer { cache_size: if cache_size < 4 { 4 } else { cache_size } }
    }

    /// Reorders the flat triangle list `indices` for cache reuse. Each step
    /// emits the not yet emitted triangle with the largest score (ties: the
    /// larger triangle id), then moves its vertices to the front of the
    /// simulated LRU cache in order, rescoring after each vertex the triangles
    /// that use it. A triangle's score is `tri_key` of its vertices' cache
    /// slots (-1 when not cached); its value is compared as an unsigned
    /// integer (the bits of a non-negative float keep their order).
    /// `tri_key` must give one result per argument triple; the order is then
    /// exactly [`greedy_order`].
    pub fn optimize<F: Fn(i32, i32, i32) -> u32>(&self, indices: &[u32], tri_key: F) -> (out: Vec<u32>)
        requires
            indices@.len() % 3 == 0,
            0 < self.cache_size <= i32::MAX,
            indices@.len() <= u32::MAX,
            forall|i: int| 0 <= i < indices@.len() ==> #[trigger] indices@[i] < i32::MAX,
            forall|a: i32, b: i32, c: i32| tri_key.requires((a, b, c)),
            deterministic(tri_key),
        ensures
            is_triangle_reordering(out@, indices@),
            reorders_by(out@, indices@, greedy_order(indices@, self.cache_size as nat, closure_key(tri_key))),
    {
        broadcast use vstd::multiset::group_multiset_axioms;

        let len = indices.len();
        let ntri = len / 3;
        let mut max_v: u32 = 0;
        let mut i: usize = 0;
        while i < len
            invariant
                i <= len,
                len == indices@.len(),
                forall|j: int| 0 <= j < i ==> indices@[j] <= max_v,
                max_v < i32::MAX,
                forall|j: int| 0 <= j < indices@.len() ==> #[trigger] indices@[j] < i32::MAX,
            decreases len - i,
        {
            if indices[i] > max_v {
                max_v = indices[i];
            }
            i += 1;
        }
        let nv: usize = if len == 0 { 0 } else { max_v as usize + 1 };
        let (off, flat) = build_adjacency(indices, nv);
        let cs = self.cache_size as usize;
        let mut cache: Vec<i32> = Vec::new();
        let mut q: usize = 0;
        while q < cs
            invariant
                q <= cs,
                cache@ == empty_cache(q as nat),
            decreases cs - q,
        {
            cache.push(-1);
            q += 1;
            proof {
                assert(cache@ =~= empty_cache(q as nat));
            }
        }
        let mut pos: Vec<i32> = Vec::new();
        let mut q: usize = 0;
        while q < nv
            invariant
                q <= nv,
                pos@.len() == q,
                forall|u: int| 0 <= u < q ==> pos@[u] == -1,
            decreases nv - q,
        {
            pos.push(-1);
            q += 1;
        }
        let ghost key = closure_key(tri_key);
        let ghost cs0 = cs as nat;
        let mut emitted: Vec<bool> = Vec::new();
        let mut tri_score: Vec<u32> = Vec::new();
        let mut heap = MaxHeap::new();
        let mut t: usize = 0;
        while t < ntri
            invariant
                t <= ntri,
                ntri * 3 == len,
                len == indices@.len(),
                len <= u32::MAX,
                pos@.len() == nv,
                forall|u: int| 0 <= u < nv ==> pos@[u] == -1,
                cache@ == empty_cache(cs0),
                key == closure_key(tri_key),
                forall|j: int| 0 <= j < indices@.len() ==> (#[trigger] indices@[j] as int) < nv,
                forall|j: int| 0 <= j < indices@.len() ==> #[trigger] indices@[j] < i32::MAX,
                forall|a: i32, b: i32, c: i32| tri_key.requires((a, b, c)),
                deterministic(tri_key),
                emitted@ == Seq::new(t as nat, |i: int| false),
                tri_score@.len() == t,
                forall|u: int| 0 <= u < t ==> #[trigger] tri_score@[u] == score_of(indices@, empty_cache(cs0), key, u),
                heap.wf(),
                forall|u: int| 0 <= u < t ==> #[trigger] heap.view().count(cand_key(tri_score@[u], u)) > 0,
                forall|x: u64| #[trigger] heap.view().count(x) > 0 ==> x % 4294967296 < t,
            decreases ntri - t,
        {
            let a = pos[indices[3 * t] as usize];
            let b = pos[indices[3 * t + 1] as usize];
            let c = pos[indices[3 * t + 2] as usize];
            let s = tri_key(a, b, c);
            proof {
                lemma_closure_key(tri_key, a, b, c, s);
                lemma_slot_empty(cs0, indices@[3 * t as int]);
                lemma_slot_empty(cs0, indices@[3 * t + 1]);
                lemma_slot_empty(cs0, indices@[3 * t + 2]);
            }
            emitted.push(false);
            tri_score.push(s);
            let key = make_key(s, t as u32);
            heap.push(key);
            proof {
                assert(emitted@ =~= Seq::new((t + 1) as nat, |i: int| false));
            }
            t += 1;
        }
        proof {
            lemma_count_true_none(ntri as nat);
            assert(cache@.len() == cs);
            assert(tri_score@ =~= Seq::new(ntri as nat, |u: int| score_of(indices@, empty_cache(cs0), key, u)));
            assert(greedy_run(indices@, cs0, key, 0).0 == (cache@, tri_score@, emitted@));
        }
        let mut out: Vec<u32> = Vec::new();
        let mut done: usize = 0;
        let ghost mut order: Seq<int> = Seq::empty();
        while done < ntri
            invariant
                done <= ntri,
                ntri * 3 == len,
                len == indices@.len(),
                len <= u32::MAX,
                cs == self.cache_size,
                cs0 == cs,
                key == closure_key(tri_key),
                cache@.len() == cs,
                pos@.len() == nv,
                lru_ok(cache@, pos@),
                forall|j: int| 0 <= j < indices@.len() ==> (#[trigger] indices@[j] as int) < nv,
                forall|a: i32, b: i32, c: i32| tri_key.requires((a, b, c)),
                deterministic(tri_key),
                off@.len() == nv + 1,
                flat@.len() == len,
                off@[nv as int] == len,
                forall|a: int, b: int| 0 <= a <= b <= nv ==> off@[a] <= off@[b],
                forall|v: int| 0 <= v < nv ==> #[trigger] flat@.subrange(off@[v] as int, off@[v + 1] as int) == adj(indices@, v),
                forall|q: int| 0 <= q < flat@.len() ==> 3 * (#[trigger] flat@[q] as int) < len,
                emitted@.len() == ntri,
                tri_score@.len() == ntri,
                count_true(emitted@) == done,
                heap.wf(),
                forall|u: int| 0 <= u < ntri && !emitted@[u] ==> #[trigger] heap.view().count(cand_key(tri_score@[u], u)) > 0,
                forall|x: u64| #[trigger] heap.view().count(x) > 0 ==> x % 4294967296 < ntri,
                greedy_run(indices@, cs0, key, done as nat) == ((cache@, tri_score@, emitted@), order),
                order.len() == done,
                forall|k: int| 0 <= k < order.len() ==> 0 <= #[trigger] order[k] < ntri && emitted@[order[k]],
                forall|k1: int, k2: int| 0 <= k1 < k2 < order.len() ==> order[k1] != order[k2],
                out@.len() == 3 * order.len(),
                forall|k: int, j: int|
                    0 <= k < order.len() && 0 <= j < 3 ==> #[trigger] tri_vertex(out@, k, j) == tri_vertex(indices@, order[k], j),
            decreases ntri - done, heap.view().len(),
        {
            proof {
                lemma_count_true_bound(emitted@);
                let u = choose|u: int| 0 <= u < emitted@.len() && !#[trigger] emitted@[u];
                assert(heap.view().count(cand_key(tri_score@[u], u)) > 0);
            }
            let ghost h0 = heap.view();
            let popped = heap.pop();
            let key_p = popped.unwrap();
            let t = (key_p % 4294967296) as usize;
            proof {
                assert(h0.count(key_p) > 0);
            }
            let valid = !emitted[t] && key_p == make_key(tri_score[t], t as u32);
            if !valid {
                proof {
                    assert forall|u: int| 0 <= u < ntri && !emitted@[u] implies #[trigger] heap.view().count(
                        cand_key(tri_score@[u], u),
                    ) > 0 by {
                        if cand_key(tri_score@[u], u) == key_p {
                            vstd::arithmetic::div_mod::lemma_fundamental_div_mod_converse(
                                key_p as int,
                                4294967296,
                                tri_score@[u] as int,
                                u,
                            );
                        }
                    }
                }
                continue;
            }
            let ghost st: GreedyState = (cache@, tri_score@, emitted@);
            proof {
                assert(is_best(st, t as int)) by {
                    assert forall|u: int| 0 <= u < st.2.len() && !st.2[u] implies cand_key(st.1[u], u) <= cand_key(
                        st.1[t as int],
                        t as int,
                    ) by {
                        assert(h0.count(cand_key(tri_score@[u], u)) > 0);
                    }
                }
                let tb = choose|x: int| is_best(st, x);
                assert(is_best(st, tb));
                assert(cand_key(st.1[tb], tb) == cand_key(st.1[t as int], t as int));
                lemma_cand_key_tri(st.1[tb], tb);
                lemma_cand_key_tri(st.1[t as int], t as int);
                assert(tb == t);
                lemma_count_true_set(emitted@, t as int);
            }
            emitted.set(t, true);
            done += 1;
            proof {
                order = order.push(t as int);
            }
            let ghost st1: GreedyState = (st.0, st.1, st.2.update(t as int, true));
            assert((cache@, tri_score@, emitted@) == touch_n(indices@, key, st1, t as int, 0));
            let mut j: usize = 0;
            while j < 3
                invariant
                    j <= 3,
                    t < ntri,
                    ntri * 3 == len,
                    len == indices@.len(),
                    len <= u32::MAX,
                    key == closure_key(tri_key),
                    cache@.len() == cs,
                    pos@.len() == nv,
                    lru_ok(cache@, pos@),
                    forall|q: int| 0 <= q < indices@.len() ==> (#[trigger] indices@[q] as int) < nv,
                    forall|a: i32, b: i32, c: i32| tri_key.requires((a, b, c)),
                    deterministic(tri_key),
                    off@.len() == nv + 1,
                    flat@.len() == len,
                    off@[nv as int] == len,
                    forall|a: int, b: int| 0 <= a <= b <= nv ==> off@[a] <= off@[b],
                    forall|v: int| 0 <= v < nv ==> #[trigger] flat@.subrange(off@[v] as int, off@[v + 1] as int) == adj(indices@, v),
                    forall|q: int| 0 <= q < flat@.len() ==> 3 * (#[trigger] flat@[q] as int) < len,
                    emitted@.len() == ntri,
                    tri_score@.len() == ntri,
                    heap.wf(),
                    forall|u: int| 0 <= u < ntri && !emitted@[u] ==> #[trigger] heap.view().count(cand_key(tri_score@[u], u)) > 0,
                    forall|x: u64| #[trigger] heap.view().count(x) > 0 ==> x % 4294967296 < ntri,
                    (cache@, tri_score@, emitted@) == touch_n(indices@, key, st1, t as int, j as nat),
                decreases 3 - j,
            {
                let v = indices[3 * t + j];
                let ghost prev: GreedyState = (cache@, tri_score@, emitted@);
                use_vertex(&mut cache, &mut pos, v);
                let ghost sc_j = tri_score@;
                let vu = v as usize;
                let end = off[vu + 1] as usize;
                let mut q = off[vu] as usize;
                proof {
                    assert(flat@.subrange(off@[vu as int] as int, q as int) =~= Seq::<u32>::empty());
                }
                while q < end
                    invariant
                        off@[vu as int] <= q <= end,
                        end == off@[vu + 1],
                        vu < nv,
                        off@.len() == nv + 1,
                        end <= len,
                        ntri * 3 == len,
                        len == indices@.len(),
                        len <= u32::MAX,
                        key == closure_key(tri_key),
                        cache@.len() == cs,
                        pos@.len() == nv,
                        lru_ok(cache@, pos@),
                        forall|q: int| 0 <= q < indices@.len() ==> (#[trigger] indices@[q] as int) < nv,
                        forall|a: i32, b: i32, c: i32| tri_key.requires((a, b, c)),
                        deterministic(tri_key),
                        flat@.len() == len,
                        forall|q: int| 0 <= q < flat@.len() ==> 3 * (#[trigger] flat@[q] as int) < len,
                        emitted@.len() == ntri,
                        tri_score@.len() == ntri,
                        heap.wf(),
                        forall|u: int| 0 <= u < ntri && !emitted@[u] ==> #[trigger] heap.view().count(cand_key(tri_score@[u], u)) > 0,
                        forall|x: u64| #[trigger] heap.view().count(x) > 0 ==> x % 4294967296 < ntri,
                        tri_score@ == rescore(indices@, cache@, key, emitted@, sc_j, flat@.subrange(off@[vu as int] as int, q as int)),
                    decreases end - q,
                {
                    let ghost sc_q = tri_score@;
                    let ot = flat[q] as usize;
                    let ghost l0 = flat@.subrange(off@[vu as int] as int, q as int);
                    let ghost l1 = flat@.subrange(off@[vu as int] as int, q + 1);
                    proof {
                        assert(l1.drop_last() =~= l0);
                        assert(l1.last() == flat@[q as int]);
                        assert(rescore(indices@, cache@, key, emitted@, sc_j, l1) == if !emitted@[ot as int] {
                            sc_q.update(ot as int, score_of(indices@, cache@, key, ot as int))
                        } else {
                            sc_q
                        });
                    }
                    if !emitted[ot] {
                        let a = pos[indices[3 * ot] as usize];
                        let b = pos[indices[3 * ot + 1] as usize];
                        let c = pos[indices[3 * ot + 2] as usize];
                        let s = tri_key(a, b, c);
                        proof {
                            lemma_closure_key(tri_key, a, b, c, s);
                            lemma_pos_slot(cache@, pos@, indices@[3 * ot as int]);
                            lemma_pos_slot(cache@, pos@, indices@[3 * ot + 1]);
                            lemma_pos_slot(cache@, pos@, indices@[3 * ot + 2]);
                            assert(s == score_of(indices@, cache@, key, ot as int));
                        }
                        if s != tri_score[ot] {
                            tri_score.set(ot, s);
                            let key = make_key(s, ot as u32);
                            heap.push(key);
                        } else {
                            assert(sc_q.update(ot as int, s) =~= sc_q);
                        }
                    }
                    q += 1;
                }
                proof {
                    assert(tri_score@ == touch(indices@, key, prev, v).1);
                }
                j += 1;
            }
            let ghost o0 = out@;
            out.push(indices[3 * t]);
            out.push(indices[3 * t + 1]);
            out.push(indices[3 * t + 2]);
            proof {
                assert forall|k: int, jj: int|
                    0 <= k < order.len() && 0 <= jj < 3 implies #[trigger] tri_vertex(out@, k, jj) == tri_vertex(
                    indices@,
                    order[k],
                    jj,
                ) by {
                    if k < order.len() - 1 {
                        assert(tri_vertex(o0, k, jj) == tri_vertex(indices@, order[k], jj));
                        assert(out@[3 * k + jj] == o0[3 * k + jj]);
                    } else {
                        assert(jj == 0 || jj == 1 || jj == 2);
                    }
                }
            }
        }
        proof {
            assert(reorders_by(out@, indices@, order));
        }
        out
    }
}

} // verus!
