//! Software tile binning: screen tiles for chunk draw lists, each list front
//! to back, the lists in row order.

use vstd::prelude::*;

verus! {

/// A screen tile.
#[derive(Debug, Clone, Copy, PartialEq, Eq, Hash)]
pub struct TileId {
    pub tx: u32,
    pub ty: u32,
}

/// The chunks drawn in one tile, front to back.
#[derive(Debug, Clone)]
pub struct TileDrawList {
    pub tile: TileId,
    pub chunk_indices: Vec<usize>,
}

/// Bins chunk positions into screen tiles.
pub struct SoftwareTileBinner {
    pub tile_size: u32,
    pub screen_w: u32,
    pub screen_h: u32,
}

/// Number of tiles along an axis of `len` pixels: the ceiling of `len / tile`,
/// at least one.
pub open spec fn tiles_along(len: int, tile: int) -> int {
    let t = (len + tile - 1) / tile;
    if t < 1 {
        1
    } else {
        t
    }
}

impl SoftwareTileBinner {
    /// Tile size is raised to at least 16 pixels.
    pub fn new(screen_w: u32, screen_h: u32, tile_size: u32) -> (b: Self)
        ensures
            b.tile_size == if tile_size < 16 {
                16
            } else {
                tile_size
            },
            b.screen_w == screen_w,
            b.screen_h == screen_h,
    {
        Self { tile_size: if tile_size < 16 { 16 } else { tile_size }, screen_w, screen_h }
    }

    /// Tile grid dimensions (ceiling division, at least 1 x 1).
    pub fn tile_count(&self) -> (r: (u32, u32))
        requires
            self.tile_size > 0,
            self.screen_w + self.tile_size <= u32::MAX,
            self.screen_h + self.tile_size <= u32::MAX,
        ensures
            r.0 == tiles_along(self.screen_w as int, self.tile_size as int),
            r.1 == tiles_along(self.screen_h as int, self.tile_size as int),
    {
        let tw = (self.screen_w + self.tile_size - 1) / self.tile_size;
        let th = (self.screen_h + self.tile_size - 1) / self.tile_size;
        (if tw < 1 { 1 } else { tw }, if th < 1 { 1 } else { th })
    }
}

/// Sort key of a binned chunk: tile row, tile column, depth key, index.
pub open spec fn entry_lt(a: (u32, u32, u32, usize), b: (u32, u32, u32, usize)) -> bool {
    a.0 < b.0 || (a.0 == b.0 && (a.1 < b.1 || (a.1 == b.1 && (a.2 < b.2 || (a.2 == b.2 && a.3 < b.3)))))
}

fn entry_less(a: (u32, u32, u32, usize), b: (u32, u32, u32, usize)) -> (r: bool)
    ensures
        r == entry_lt(a, b),
{
    a.0 < b.0 || (a.0 == b.0 && (a.1 < b.1 || (a.1 == b.1 && (a.2 < b.2 || (a.2 == b.2 && a.3 < b.3)))))
}

/// Row order of tiles.
pub open spec fn tile_lt(a: TileId, b: TileId) -> bool {
    a.ty < b.ty || (a.ty == b.ty && a.tx < b.tx)
}

/// Chunk `i` is nearer than chunk `j` by depth key, ties by index.
pub open spec fn nearer(points: Seq<(u32, u32, u32)>, i: int, j: int) -> bool {
    points[i].2 < points[j].2 || (points[i].2 == points[j].2 && i < j)
}

/// Some entry of `s` is chunk `j`'s.
pub open spec fn has_index(s: Seq<(u32, u32, u32, usize)>, j: int) -> bool {
    exists|k: int| 0 <= k < s.len() && s[k].3 == j
}

/// Chunk `i` appears in one of the lists.
pub open spec fn listed(lists: Seq<TileDrawList>, i: int) -> bool {
    exists|a: int, j: int| 0 <= a < lists.len() && 0 <= j < lists[a].chunk_indices@.len() && lists[a].chunk_indices@[j] == i
}

impl SoftwareTileBinner {
    /// Tile of a chunk projected to pixel `(p.0, p.1)`, clamped to the grid.
    pub open spec fn tile_of(self, p: (u32, u32, u32)) -> TileId {
        let tw = tiles_along(self.screen_w as int, self.tile_size as int);
        let th = tiles_along(self.screen_h as int, self.tile_size as int);
        TileId {
            tx: if p.0 / self.tile_size < tw - 1 { p.0 / self.tile_size } else { (tw - 1) as u32 },
            ty: if p.1 / self.tile_size < th - 1 { p.1 / self.tile_size } else { (th - 1) as u32 },
        }
    }

    /// Sort entry of chunk `i`.
    pub open spec fn entry(self, points: Seq<(u32, u32, u32)>, i: int) -> (u32, u32, u32, usize) {
        let t = self.tile_of(points[i]);
        (t.ty, t.tx, points[i].2, i as usize)
    }

    /// Bins chunks given as (pixel x, pixel y, depth key) into screen tiles:
    /// one list per occupied tile, the lists in row order, each list front to
    /// back (by depth key, ties in input order).
    #[verifier::spinoff_prover]
    #[verifier::rlimit(60)]
    pub fn bin_tiles(&self, points: &[(u32, u32, u32)]) -> (lists: Vec<TileDrawList>)
        requires
            self.tile_size > 0,
            self.screen_w + self.tile_size <= u32::MAX,
            self.screen_h + self.tile_size <= u32::MAX,
        ensures
            forall|a: int, b: int| 0 <= a < b < lists@.len() ==> tile_lt(#[trigger] lists@[a].tile, #[trigger] lists@[b].tile),
            forall|a: int| 0 <= a < lists@.len() ==> #[trigger] lists@[a].chunk_indices@.len() > 0,
            forall|a: int, j: int|
                0 <= a < lists@.len() && 0 <= j < lists@[a].chunk_indices@.len() ==> {
                    let c = #[trigger] lists@[a].chunk_indices@[j];
                    &&& c < points@.len()
                    &&& self.tile_of(points@[c as int]) == lists@[a].tile
                },
            forall|a: int, j: int, k: int|
                0 <= a < lists@.len() && 0 <= j < k < lists@[a].chunk_indices@.len() ==> nearer(
                    points@,
                    #[trigger] lists@[a].chunk_indices@[j] as int,
                    #[trigger] lists@[a].chunk_indices@[k] as int,
                ),
            forall|i: int| 0 <= i < points@.len() ==> #[trigger] listed(lists@, i),
    {
        let (tw, th) = self.tile_count();
        let n = points.len();
        let mut sorted: Vec<(u32, u32, u32, usize)> = Vec::new();
        let mut i: usize = 0;
        while i < n
            invariant
                i <= n,
                n == points@.len(),
                tw == tiles_along(self.screen_w as int, self.tile_size as int),
                th == tiles_along(self.screen_h as int, self.tile_size as int),
                self.tile_size > 0,
                sorted@.len() == i,
                forall|k1: int, k2: int| 0 <= k1 < k2 < sorted@.len() ==> entry_lt(#[trigger] sorted@[k1], #[trigger] sorted@[k2]),
                forall|k: int| 0 <= k < sorted@.len() ==> (#[trigger] sorted@[k]).3 < i && sorted@[k] == self.entry(points@, sorted@[k].3 as int),
                forall|j: int| 0 <= j < i ==> #[trigger] has_index(sorted@, j),
            decreases n - i,
        {
            let (px, py, key) = points[i];
            let cx = px / self.tile_size;
            let cy = py / self.tile_size;
            let e = (if cy < th - 1 { cy } else { th - 1 }, if cx < tw - 1 { cx } else { tw - 1 }, key, i);
            assert(e == self.entry(points@, i as int));
            let mut p: usize = 0;
            while p < sorted.len() && entry_less(sorted[p], e)
                invariant
                    p <= sorted@.len(),
                    forall|k: int| 0 <= k < p ==> entry_lt(#[trigger] sorted@[k], e),
                decreases sorted@.len() - p,
            {
                p += 1;
            }
            let ghost s0 = sorted@;
            proof {
                if p < s0.len() {
                    assert(!entry_lt(s0[p as int], e));
                    assert(s0[p as int].3 < i);
                }
                assert forall|k: int| p <= k < s0.len() implies entry_lt(e, #[trigger] s0[k]) by {
                    assert(s0[k].3 < i);
                    if k > p {
                        assert(entry_lt(s0[p as int], s0[k]));
                    }
                }
            }
            sorted.insert(p, e);
            proof {
                assert forall|j: int| 0 <= j < i + 1 implies #[trigger] has_index(sorted@, j) by {
                    if j == i {
                        assert(sorted@[p as int].3 == j);
                    } else {
                        assert(has_index(s0, j));
                        let k0 = choose|k: int| 0 <= k < s0.len() && s0[k].3 == j;
                        if k0 < p {
                            assert(sorted@[k0].3 == j);
                        } else {
                            assert(sorted@[k0 + 1].3 == j);
                        }
                    }
                }
            }
            i += 1;
        }
        let mut lists: Vec<TileDrawList> = Vec::new();
        let mut cur: Vec<usize> = Vec::new();
        let mut cur_tile = TileId { tx: 0, ty: 0 };
        let ghost mut starts: Seq<int> = Seq::empty();
        let ghost mut start: int = 0;
        let ghost mut seg_of: Seq<int> = Seq::empty();
        let mut k: usize = 0;
        while k < n
            invariant
                k <= n,
                n == points@.len(),
                sorted@.len() == n,
                forall|k1: int, k2: int| 0 <= k1 < k2 < sorted@.len() ==> entry_lt(#[trigger] sorted@[k1], #[trigger] sorted@[k2]),
                forall|q: int| 0 <= q < sorted@.len() ==> (#[trigger] sorted@[q]).3 < n && sorted@[q] == self.entry(points@, sorted@[q].3 as int),
                starts.len() == lists@.len(),
                0 <= start <= k,
                k > 0 ==> start < k,
                k == 0 ==> start == 0 && lists@.len() == 0,
                forall|a: int| 0 <= a < starts.len() ==> 0 <= #[trigger] starts[a] < (if a + 1 < starts.len() { starts[a + 1] } else { start }),
                starts.len() > 0 ==> starts[0] == 0,
                lists@.len() == 0 ==> start == 0,
                forall|a: int| 0 <= a < lists@.len() ==> {
                    let e = if a + 1 < starts.len() { starts[a + 1] } else { start };
                    &&& (#[trigger] lists@[a]).chunk_indices@ == Seq::new((e - starts[a]) as nat, |q: int| sorted@[starts[a] + q].3)
                    &&& lists@[a].tile == (TileId { tx: sorted@[starts[a]].1, ty: sorted@[starts[a]].0 })
                    &&& forall|q: int| starts[a] <= q < e ==> #[trigger] sorted@[q].0 == lists@[a].tile.ty && sorted@[q].1 == lists@[a].tile.tx
                },
                cur@ == Seq::new((k - start) as nat, |q: int| sorted@[start + q].3),
                k > start ==> cur_tile == (TileId { tx: sorted@[start].1, ty: sorted@[start].0 }),
                forall|q: int| start <= q < k ==> #[trigger] sorted@[q].0 == cur_tile.ty && sorted@[q].1 == cur_tile.tx,
                lists@.len() > 0 && k > start ==> (sorted@[start - 1].0 != cur_tile.ty || sorted@[start - 1].1 != cur_tile.tx),
                forall|a: int| 0 < a < lists@.len() ==> (sorted@[starts[a] - 1].0 != lists@[a].tile.ty || sorted@[starts[a] - 1].1 != lists@[a].tile.tx),
                forall|a1: int, a2: int| 0 <= a1 < a2 < starts.len() ==> #[trigger] starts[a1] < #[trigger] starts[a2],
                forall|a: int| 0 <= a < starts.len() ==> #[trigger] starts[a] < start,
                seg_of.len() == k,
                forall|q: int| 0 <= q < k ==> {
                    let a = #[trigger] seg_of[q];
                    &&& 0 <= a <= lists@.len()
                    &&& a < lists@.len() ==> starts[a] <= q < (if a + 1 < starts.len() { starts[a + 1] } else { start })
                    &&& a == lists@.len() ==> start <= q
                },
            decreases n - k,
        {
            let e = sorted[k];
            if k > 0 && e.0 == cur_tile.ty && e.1 == cur_tile.tx {
                cur.push(e.3);
                proof {
                    assert(cur@ =~= Seq::new((k + 1 - start) as nat, |q: int| sorted@[start + q].3));
                    seg_of = seg_of.push(lists@.len() as int);
                }
            } else {
                if k > 0 {
                    let done = TileDrawList { tile: cur_tile, chunk_indices: cur };
                    lists.push(done);
                    proof {
                        starts = starts.push(start);
                        start = k as int;
                    }
                }
                cur = Vec::new();
                cur.push(e.3);
                cur_tile = TileId { tx: e.1, ty: e.0 };
                proof {
                    assert(cur@ =~= Seq::new((k + 1 - start) as nat, |q: int| sorted@[start + q].3));
                    seg_of = seg_of.push(lists@.len() as int);
                }
            }
            k += 1;
        }
        if n > 0 {
            let done = TileDrawList { tile: cur_tile, chunk_indices: cur };
            lists.push(done);
            proof {
                starts = starts.push(start);
                start = n as int;
            }
        }
        proof {
            let ls = lists@;
            assert(n > 0 ==> starts.len() == ls.len());
            assert forall|a: int, b: int| 0 <= a < b < ls.len() implies tile_lt(#[trigger] ls[a].tile, #[trigger] ls[b].tile) by {
                let qa = starts[a];
                let qb = starts[b];
                assert(qa < qb);
                assert(sorted@[qa].0 == ls[a].tile.ty && sorted@[qa].1 == ls[a].tile.tx);
                assert(sorted@[qb].0 == ls[b].tile.ty && sorted@[qb].1 == ls[b].tile.tx);
                if qa < qb - 1 {
                    assert(entry_lt(sorted@[qa], sorted@[qb - 1]));
                }
                assert(entry_lt(sorted@[qb - 1], sorted@[qb]));
            }
            assert forall|a: int, j: int|
                0 <= a < ls.len() && 0 <= j < ls[a].chunk_indices@.len() implies {
                    let c = #[trigger] ls[a].chunk_indices@[j];
                    &&& c < points@.len()
                    &&& self.tile_of(points@[c as int]) == ls[a].tile
                } by {
                let q = starts[a] + j;
                assert(ls[a].chunk_indices@[j] == sorted@[q].3);
                assert(sorted@[q] == self.entry(points@, sorted@[q].3 as int));
            }
            assert forall|a: int, j: int, k2: int|
                0 <= a < ls.len() && 0 <= j < k2 < ls[a].chunk_indices@.len() implies nearer(
                    points@,
                    #[trigger] ls[a].chunk_indices@[j] as int,
                    #[trigger] ls[a].chunk_indices@[k2] as int,
                ) by {
                let q1 = starts[a] + j;
                let q2 = starts[a] + k2;
                assert(entry_lt(sorted@[q1], sorted@[q2]));
                assert(sorted@[q1] == self.entry(points@, sorted@[q1].3 as int));
                assert(sorted@[q2] == self.entry(points@, sorted@[q2].3 as int));
            }
            assert forall|i: int| 0 <= i < points@.len() implies #[trigger] listed(ls, i) by {
                assert(has_index(sorted@, i));
                let q = choose|q: int| 0 <= q < sorted@.len() && sorted@[q].3 == i;
                let a = seg_of[q];
                let j = q - starts[a];
                assert(ls[a].chunk_indices@[j] == i);
            }
        }
        lists
    }
}

} // verus!
