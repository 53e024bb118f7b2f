//! Sparse virtual texture atlas: tiles become resident on request while
//! physical pages last (pages handed out last-in first-out), every resolved
//! request stamps the tile with a fresh logical time, and eviction frees the
//! least recently used tiles.

use vstd::prelude::*;

verus! {

/// A tile of the virtual atlas at a mip level.
#[derive(Debug, Clone, Copy, PartialEq, Eq, Hash, Structural)]
pub struct TileCoord {
    pub x: u32,
    pub y: u32,
    pub mip: u8,
}

/// A resident tile with its physical page and last access time.
#[derive(Debug, Clone, Copy)]
pub struct ResidentTile {
    pub tile: TileCoord,
    pub page: u32,
    pub last_access: u64,
}

pub struct VirtualAtlas {
    pub width: u32,
    pub height: u32,
    pub tile_size: u32,
    resident: Vec<ResidentTile>,
    pub free_pages: Vec<u32>,
    pub capacity_pages: u32,
    pub access_clock: u64,
}

/// Residency as a map from tile to `(page, last access time)`.
pub open spec fn residency(es: Seq<ResidentTile>) -> Map<TileCoord, (u32, u64)> {
    Map::new(
        |t: TileCoord| exists|i: int| 0 <= i < es.len() && es[i].tile == t,
        |t: TileCoord| {
            let i = choose|i: int| 0 <= i < es.len() && es[i].tile == t;
            (es[i].page, es[i].last_access)
        },
    )
}

/// One request of a batch: a resident tile is stamped `clock + 1`; another
/// takes the last free page (and is stamped) when there is one, else is
/// skipped. Returns the new residency, free pages, clock and whether the
/// tile must be streamed in.
pub open spec fn request_step(res: Map<TileCoord, (u32, u64)>, free: Seq<u32>, clock: u64, t: TileCoord) -> (Map<TileCoord, (u32, u64)>, Seq<u32>, u64, bool) {
    if res.contains_key(t) {
        (res.insert(t, (res[t].0, (clock + 1) as u64)), free, (clock + 1) as u64, false)
    } else if free.len() > 0 {
        (res.insert(t, (free.last(), (clock + 1) as u64)), free.drop_last(), (clock + 1) as u64, true)
    } else {
        (res, free, clock, false)
    }
}

/// A batch of requests in order: the final state and the tiles to stream.
pub open spec fn request_batch(res: Map<TileCoord, (u32, u64)>, free: Seq<u32>, clock: u64, ts: Seq<TileCoord>) -> (Map<TileCoord, (u32, u64)>, Seq<u32>, u64, Seq<TileCoord>)
    decreases ts.len(),
{
    if ts.len() == 0 {
        (res, free, clock, Seq::empty())
    } else {
        let (r1, f1, c1, s1) = request_batch(res, free, clock, ts.drop_last());
        let (r2, f2, c2, st) = request_step(r1, f1, c1, ts.last());
        (r2, f2, c2, if st { s1.push(ts.last()) } else { s1 })
    }
}

/// Stamping law of a batch: the clock advances by at most one per request;
/// every requested tile that is resident afterwards carries a stamp newer
/// than the clock before the batch (so newer than every earlier stamp), and
/// tiles not requested keep their residency and stamp.
pub proof fn lemma_batch_stamps(res: Map<TileCoord, (u32, u64)>, free: Seq<u32>, clock: u64, ts: Seq<TileCoord>)
    requires
        clock + ts.len() <= u64::MAX,
    ensures
        ({
            let (r, f, c, st) = request_batch(res, free, clock, ts);
            &&& clock <= c <= clock + ts.len()
            &&& forall|t: TileCoord| #[trigger] r.contains_key(t) && ts.contains(t) ==> clock < r[t].1 <= c
            &&& forall|t: TileCoord|
                !ts.contains(t) ==> (#[trigger] r.contains_key(t) == res.contains_key(t) && (res.contains_key(t)
                    ==> r[t] == res[t]))
        }),
    decreases ts.len(),
{
    if ts.len() > 0 {
        let ts0 = ts.drop_last();
        lemma_batch_stamps(res, free, clock, ts0);
        let x = ts.last();
        let (r1, f1, c1, s1) = request_batch(res, free, clock, ts0);
        let (r, f, c, st) = request_batch(res, free, clock, ts);
        assert forall|t: TileCoord| #[trigger] r.contains_key(t) && ts.contains(t) implies clock < r[t].1 <= c by {
            if t != x {
                let i = choose|i: int| 0 <= i < ts.len() && ts[i] == t;
                assert(ts0[i] == t);
            }
        }
        assert forall|t: TileCoord| !ts.contains(t) implies (#[trigger] r.contains_key(t) == res.contains_key(t) && (
        res.contains_key(t) ==> r[t] == res[t])) by {
            assert(t != ts[ts.len() - 1]);
            if ts0.contains(t) {
                let i = choose|i: int| 0 <= i < ts0.len() && ts0[i] == t;
                assert(ts[i] == t);
            }
        }
    }
}

/// Streaming law of a batch: tiles only become resident; the tiles to
/// stream come in request order, each once, each requested, not resident
/// before the batch and resident after it.
pub proof fn lemma_batch_stream(res: Map<TileCoord, (u32, u64)>, free: Seq<u32>, clock: u64, ts: Seq<TileCoord>)
    ensures
        ({
            let (r, f, c, st) = request_batch(res, free, clock, ts);
            &&& forall|t: TileCoord| #[trigger] res.contains_key(t) ==> r.contains_key(t)
            &&& forall|i: int, j: int| 0 <= i < j < st.len() ==> st[i] != st[j]
            &&& forall|i: int|
                0 <= i < st.len() ==> ts.contains(#[trigger] st[i]) && !res.contains_key(st[i]) && r.contains_key(st[i])
        }),
    decreases ts.len(),
{
    if ts.len() > 0 {
        let ts0 = ts.drop_last();
        lemma_batch_stream(res, free, clock, ts0);
        let (r1, f1, c1, s1) = request_batch(res, free, clock, ts0);
        let (r, f, c, st) = request_batch(res, free, clock, ts);
        assert forall|i: int| 0 <= i < st.len() implies ts.contains(#[trigger] st[i]) && !res.contains_key(st[i])
            && r.contains_key(st[i]) by {
            if i < s1.len() {
                assert(st[i] == s1[i]);
                let k = choose|k: int| 0 <= k < ts0.len() && ts0[k] == s1[i];
                assert(ts[k] == s1[i]);
            } else {
                assert(st[i] == ts[ts.len() - 1]);
            }
        }
    }
}

/// A tile lies inside the atlas.
pub open spec fn tile_in_range(t: TileCoord, width: u32, height: u32, tile_size: u32) -> bool {
    (t.x as int) * (tile_size as int) < (width as int) && (t.y as int) * (tile_size as int) < (height as int)
}



/// `res1`/`free1` come from `res0`/`free0` by evicting the `k` entries `ev`:
/// resident entries in increasing access time, all older than every tile
/// left resident; their pages are appended to the free list in that order.
pub open spec fn lru_evicted(
    res0: Map<TileCoord, (u32, u64)>,
    res1: Map<TileCoord, (u32, u64)>,
    free0: Seq<u32>,
    free1: Seq<u32>,
    k: nat,
    ev: Seq<ResidentTile>,
) -> bool {
    &&& ev.len() == k
    &&& forall|i: int, j: int| 0 <= i < j < ev.len() ==> ev[i].last_access < ev[j].last_access
    &&& forall|i: int|
        0 <= i < ev.len() ==> res0.contains_key(#[trigger] ev[i].tile) && res0[ev[i].tile] == (ev[i].page, ev[i].last_access)
    &&& forall|t: TileCoord|
        #[trigger] res1.contains_key(t) <==> res0.contains_key(t) && forall|i: int| 0 <= i < ev.len() ==> ev[i].tile != t
    &&& forall|t: TileCoord| #[trigger] res1.contains_key(t) ==> res1[t] == res0[t]
    &&& forall|t: TileCoord, i: int|
        #[trigger] res1.contains_key(t) && 0 <= i < ev.len() ==> #[trigger] ev[i].last_access < res1[t].1
    &&& free1 == free0 + ev.map_values(|e: ResidentTile| e.page)
}

/// Tiles an eviction of `to_evict` removes from `n` resident ones.
pub open spec fn evict_count(to_evict: nat, n: nat) -> nat {
    if to_evict < n {
        to_evict
    } else {
        n
    }
}

/// Distinct tiles among the entries.
pub open spec fn distinct_tiles(es: Seq<ResidentTile>) -> bool {
    forall|i: int, j: int| 0 <= i < j < es.len() ==> es[i].tile != es[j].tile
}

proof fn lemma_residency_at(es: Seq<ResidentTile>, i: int)
    requires
        distinct_tiles(es),
        0 <= i < es.len(),
    ensures
        residency(es).contains_key(es[i].tile),
        residency(es)[es[i].tile] == (es[i].page, es[i].last_access),
{
    let t = es[i].tile;
    let c = choose|c: int| 0 <= c < es.len() && es[c].tile == t;
    if c != i {
        if c < i {
            assert(es[c].tile != es[i].tile);
        } else {
            assert(es[i].tile != es[c].tile);
        }
    }
}

proof fn lemma_residency_update(es: Seq<ResidentTile>, i: int, e: ResidentTile)
    requires
        distinct_tiles(es),
        0 <= i < es.len(),
        e.tile == es[i].tile,
    ensures
        distinct_tiles(es.update(i, e)),
        residency(es.update(i, e)) == residency(es).insert(e.tile, (e.page, e.last_access)),
{
    let es2 = es.update(i, e);
    assert forall|a: int, b: int| 0 <= a < b < es2.len() implies es2[a].tile != es2[b].tile by {
        assert(es2[a].tile == es[a].tile && es2[b].tile == es[b].tile);
    }
    let m2 = residency(es2);
    let m1 = residency(es).insert(e.tile, (e.page, e.last_access));
    assert forall|t: TileCoord| #![auto] m2.contains_key(t) <==> m1.contains_key(t) by {
        if m1.contains_key(t) && t != e.tile {
            let j = choose|j: int| 0 <= j < es.len() && es[j].tile == t;
            assert(es2[j].tile == t);
        }
        if t == e.tile {
            assert(es2[i].tile == t);
        }
        if m2.contains_key(t) {
            let j = choose|j: int| 0 <= j < es2.len() && es2[j].tile == t;
            assert(es[j].tile == t);
        }
    }
    assert forall|t: TileCoord| #![auto] m2.contains_key(t) implies m2[t] == m1[t] by {
        let j = choose|j: int| 0 <= j < es2.len() && es2[j].tile == t;
        lemma_residency_at(es2, j);
        if j != i {
            lemma_residency_at(es, j);
        }
    }
    assert(m2 =~= m1);
}

proof fn lemma_residency_push(es: Seq<ResidentTile>, e: ResidentTile)
    requires
        distinct_tiles(es),
        !residency(es).contains_key(e.tile),
    ensures
        distinct_tiles(es.push(e)),
        residency(es.push(e)) == residency(es).insert(e.tile, (e.page, e.last_access)),
{
    let es2 = es.push(e);
    assert forall|a: int, b: int| 0 <= a < b < es2.len() implies es2[a].tile != es2[b].tile by {
        if b == es.len() {
            assert(es2[a] == es[a]);
            if es[a].tile == e.tile {
                assert(residency(es).contains_key(e.tile));
            }
        } else {
            assert(es2[a] == es[a] && es2[b] == es[b]);
        }
    }
    let m2 = residency(es2);
    let m1 = residency(es).insert(e.tile, (e.page, e.last_access));
    assert forall|t: TileCoord| #![auto] m2.contains_key(t) <==> m1.contains_key(t) by {
        if m1.contains_key(t) && t != e.tile {
            let j = choose|j: int| 0 <= j < es.len() && es[j].tile == t;
            assert(es2[j].tile == t);
        }
        if t == e.tile {
            assert(es2[es.len() as int].tile == t);
        }
        if m2.contains_key(t) && t != e.tile {
            let j = choose|j: int| 0 <= j < es2.len() && es2[j].tile == t;
            assert(es[j].tile == t);
        }
    }
    assert forall|t: TileCoord| #![auto] m2.contains_key(t) implies m2[t] == m1[t] by {
        let j = choose|j: int| 0 <= j < es2.len() && es2[j].tile == t;
        lemma_residency_at(es2, j);
        if j < es.len() {
            assert(es2[j] == es[j]);
            lemma_residency_at(es, j);
        }
    }
    assert(m2 =~= m1);
}

proof fn lemma_residency_remove(es: Seq<ResidentTile>, i: int)
    requires
        distinct_tiles(es),
        0 <= i < es.len(),
    ensures
        distinct_tiles(es.remove(i)),
        residency(es.remove(i)) == residency(es).remove(es[i].tile),
{
    let es2 = es.remove(i);
    assert forall|a: int, b: int| 0 <= a < b < es2.len() implies es2[a].tile != es2[b].tile by {
        let a0 = if a < i { a } else { a + 1 };
        let b0 = if b < i { b } else { b + 1 };
        assert(es2[a] == es[a0] && es2[b] == es[b0]);
    }
    let m2 = residency(es2);
    let m1 = residency(es).remove(es[i].tile);
    assert forall|t: TileCoord| #![auto] m2.contains_key(t) <==> m1.contains_key(t) by {
        if m1.contains_key(t) {
            let j = choose|j: int| 0 <= j < es.len() && es[j].tile == t;
            assert(j != i);
            let j2 = if j < i { j } else { j - 1 };
            assert(es2[j2] == es[j]);
        }
        if m2.contains_key(t) {
            let j = choose|j: int| 0 <= j < es2.len() && es2[j].tile == t;
            let j0 = if j < i { j } else { j + 1 };
            assert(es2[j] == es[j0]);
            assert(j0 != i);
            assert(es[j0].tile != es[i].tile) by {
                if j0 < i {
                    assert(es[j0].tile != es[i].tile);
                } else {
                    assert(es[i].tile != es[j0].tile);
                }
            }
        }
    }
    assert forall|t: TileCoord| #![auto] m2.contains_key(t) implies m2[t] == m1[t] by {
        let j = choose|j: int| 0 <= j < es2.len() && es2[j].tile == t;
        let j0 = if j < i { j } else { j + 1 };
        assert(es2[j] == es[j0]);
        lemma_residency_at(es2, j);
        lemma_residency_at(es, j0);
    }
    assert(m2 =~= m1);
}

impl VirtualAtlas {
    pub closed spec fn atlas_width(self) -> u32 {
        self.width
    }

    pub closed spec fn atlas_height(self) -> u32 {
        self.height
    }

    pub closed spec fn tile_side(self) -> u32 {
        self.tile_size
    }

    pub closed spec fn page_capacity(self) -> u32 {
        self.capacity_pages
    }

    /// Free pages; the last one is handed out next.
    pub closed spec fn free(self) -> Seq<u32> {
        self.free_pages@
    }

    /// Last logical time handed out.
    pub closed spec fn clock(self) -> u64 {
        self.access_clock
    }

    /// Resident tiles, pages and access times.
    pub closed spec fn res(self) -> Map<TileCoord, (u32, u64)> {
        residency(self.resident@)
    }

    /// Resident tiles are distinct, their access times distinct and in
    /// `1..=access_clock`; pages in use and free pages are distinct and
    /// together are exactly `0..capacity_pages`.
    pub closed spec fn wf(self) -> bool {
        &&& self.capacity_pages >= 1
        &&& distinct_tiles(self.resident@)
        &&& forall|i: int, j: int| 0 <= i < j < self.resident@.len() ==> {
            &&& self.resident@[i].tile != self.resident@[j].tile
            &&& self.resident@[i].last_access != self.resident@[j].last_access
            &&& self.resident@[i].page != self.resident@[j].page
        }
        &&& forall|i: int| 0 <= i < self.resident@.len() ==> 1 <= #[trigger] self.resident@[i].last_access <= self.access_clock
        &&& forall|i: int, j: int| 0 <= i < j < self.free_pages@.len() ==> self.free_pages@[i] != self.free_pages@[j]
        &&& forall|i: int, j: int|
            0 <= i < self.resident@.len() && 0 <= j < self.free_pages@.len() ==> #[trigger] self.resident@[i].page
                != #[trigger] self.free_pages@[j]
        &&& forall|i: int| 0 <= i < self.resident@.len() ==> #[trigger] self.resident@[i].page < self.capacity_pages
        &&& forall|j: int| 0 <= j < self.free_pages@.len() ==> #[trigger] self.free_pages@[j] < self.capacity_pages
        &&& self.resident@.len() + self.free_pages@.len() == self.capacity_pages
    }

    /// Every argument must be at least 1. Pages `0..capacity_pages` start
    /// free, in increasing order.
    pub fn new(width: u32, height: u32, tile_size: u32, capacity_pages: u32) -> (a: Self)
        requires
            width >= 1,
            height >= 1,
            tile_size >= 1,
            capacity_pages >= 1,
        ensures
            a.wf(),
            a.atlas_width() == width,
            a.atlas_height() == height,
            a.tile_side() == tile_size,
            a.page_capacity() == capacity_pages,
            a.clock() == 0,
            a.res() == Map::<TileCoord, (u32, u64)>::empty(),
            a.free() == Seq::new(capacity_pages as nat, |i: int| i as u32),
    {
        let mut free_pages: Vec<u32> = Vec::new();
        let mut p: u32 = 0;
        while p < capacity_pages
            invariant
                p <= capacity_pages,
                free_pages@ == Seq::new(p as nat, |i: int| i as u32),
            decreases capacity_pages - p,
        {
            free_pages.push(p);
            p += 1;
            assert(free_pages@ =~= Seq::new(p as nat, |i: int| i as u32));
        }
        let a = VirtualAtlas { width, height, tile_size, resident: Vec::new(), free_pages, capacity_pages, access_clock: 0 };
        assert(a.res() =~= Map::<TileCoord, (u32, u64)>::empty());
        a
    }



    /// Resident tiles carry distinct access times in `1..=clock` and
    /// distinct pages below the capacity; free pages are distinct, below the
    /// capacity and not in use; resident and free pages number exactly the
    /// capacity.
    pub proof fn lemma_atlas_invariants(self)
        requires
            self.wf(),
        ensures
            forall|t1: TileCoord, t2: TileCoord|
                #[trigger] self.res().contains_key(t1) && #[trigger] self.res().contains_key(t2) && t1 != t2 ==> self.res()[t1].1
                    != self.res()[t2].1 && self.res()[t1].0 != self.res()[t2].0,
            forall|t: TileCoord|
                #[trigger] self.res().contains_key(t) ==> 1 <= self.res()[t].1 <= self.clock() && self.res()[t].0 < self.page_capacity(),
            forall|i: int, j: int| 0 <= i < j < self.free().len() ==> self.free()[i] != self.free()[j],
            forall|t: TileCoord, j: int|
                #[trigger] self.res().contains_key(t) && 0 <= j < self.free().len() ==> self.res()[t].0 != #[trigger] self.free()[j],
            forall|j: int| 0 <= j < self.free().len() ==> #[trigger] self.free()[j] < self.page_capacity(),
            self.resident_len() + self.free().len() == self.page_capacity(),
    {
        let es = self.resident@;
        assert forall|t1: TileCoord, t2: TileCoord|
            #[trigger] self.res().contains_key(t1) && #[trigger] self.res().contains_key(t2) && t1 != t2 implies self.res()[t1].1
                != self.res()[t2].1 && self.res()[t1].0 != self.res()[t2].0 by {
            let i = choose|i: int| 0 <= i < es.len() && es[i].tile == t1;
            let j = choose|j: int| 0 <= j < es.len() && es[j].tile == t2;
            lemma_residency_at(es, i);
            lemma_residency_at(es, j);
            if i < j {
            } else {
                assert(j < i);
            }
        }
        assert forall|t: TileCoord| #[trigger] self.res().contains_key(t) implies 1 <= self.res()[t].1 <= self.clock()
            && self.res()[t].0 < self.page_capacity() by {
            let i = choose|i: int| 0 <= i < es.len() && es[i].tile == t;
            lemma_residency_at(es, i);
        }
        assert forall|t: TileCoord, j: int|
            #[trigger] self.res().contains_key(t) && 0 <= j < self.free().len() implies self.res()[t].0 != #[trigger] self.free()[j] by {
            let i = choose|i: int| 0 <= i < es.len() && es[i].tile == t;
            lemma_residency_at(es, i);
        }
    }

    /// Number of resident tiles.
    pub closed spec fn resident_len(self) -> nat {
        self.resident@.len()
    }

    /// Position of the least recently used resident tile.
    fn oldest_index(&self) -> (m: usize)
        requires
            self.resident@.len() > 0,
        ensures
            m < self.resident@.len(),
            forall|i: int| 0 <= i < self.resident@.len() ==> self.resident@[m as int].last_access <= #[trigger] self.resident@[i].last_access,
    {
        let mut m: usize = 0;
        let mut i: usize = 1;
        while i < self.resident.len()
            invariant
                1 <= i <= self.resident@.len(),
                m < i,
                forall|j: int| 0 <= j < i ==> self.resident@[m as int].last_access <= #[trigger] self.resident@[j].last_access,
            decreases self.resident@.len() - i,
        {
            if self.resident[i].last_access < self.resident[m].last_access {
                m = i;
            }
            i += 1;
        }
        m
    }

    /// Evicts the `to_evict` least recently used tiles (all of them when
    /// fewer are resident), oldest first, returning their pages to the free
    /// list in that order.
    pub fn evict_lru(&mut self, to_evict: usize)
        requires
            old(self).wf(),
        ensures
            final(self).wf(),
            final(self).atlas_width() == old(self).atlas_width(),
            final(self).atlas_height() == old(self).atlas_height(),
            final(self).tile_side() == old(self).tile_side(),
            final(self).page_capacity() == old(self).page_capacity(),
            final(self).clock() == old(self).clock(),
            exists|ev: Seq<ResidentTile>|
                #[trigger] lru_evicted(
                    old(self).res(),
                    final(self).res(),
                    old(self).free(),
                    final(self).free(),
                    evict_count(to_evict as nat, old(self).resident_len()),
                    ev,
                ),
    {
        let n = if to_evict < self.resident.len() {
            to_evict
        } else {
            self.resident.len()
        };
        let ghost res0 = self.res();
        let ghost free0 = self.free_pages@;
        let ghost mut ev: Seq<ResidentTile> = Seq::empty();
        let mut j: usize = 0;
        proof {
            assert(self.free_pages@ =~= free0 + ev.map_values(|e: ResidentTile| e.page));
            assert forall|t: TileCoord| #[trigger] self.res().contains_key(t) implies self.res()[t] == res0[t] by {}
        }
        while j < n
            invariant
                j <= n,
                n <= old(self).resident_len(),
                self.resident@.len() == old(self).resident_len() - j,
                self.wf(),
                self.width == old(self).width,
                self.height == old(self).height,
                self.tile_size == old(self).tile_size,
                self.capacity_pages == old(self).capacity_pages,
                self.access_clock == old(self).access_clock,
                res0 == old(self).res(),
                free0 == old(self).free(),
                lru_evicted(res0, self.res(), free0, self.free_pages@, j as nat, ev),
            decreases n - j,
        {
            let m = self.oldest_index();
            let ghost es = self.resident@;
            let ghost fr = self.free_pages@;
            let e = self.resident.remove(m);
            self.free_pages.push(e.page);
            proof {
                lemma_residency_at(es, m as int);
                lemma_residency_remove(es, m as int);
                let ev2 = ev.push(e);
                let r1 = residency(es);
                let r2 = residency(self.resident@);
                assert(r1.contains_key(e.tile) && r1[e.tile] == (e.page, e.last_access));
                assert forall|i: int| 0 <= i < ev.len() implies ev[i].last_access < e.last_access by {
                    assert(r1.contains_key(e.tile));
                }
                assert(res0.contains_key(e.tile) && res0[e.tile] == r1[e.tile]);
                assert forall|t: TileCoord| #[trigger] r2.contains_key(t) && true implies forall|i: int| 0 <= i < ev2.len() ==> #[trigger] ev2[i].last_access < r2[t].1 by {
                    let q = choose|q: int| 0 <= q < self.resident@.len() && self.resident@[q].tile == t;
                    let q0 = if q < m { q } else { q + 1 };
                    assert(self.resident@[q] == es[q0]);
                    lemma_residency_at(es, q0);
                    assert(es[m as int].last_access <= es[q0].last_access);
                    assert(q0 != m);
                    assert(es[q0].last_access != es[m as int].last_access) by {
                        if q0 < m {
                        } else {
                        }
                    }
                    assert forall|i: int| 0 <= i < ev2.len() implies #[trigger] ev2[i].last_access < r2[t].1 by {
                        if i < ev.len() {
                            assert(r1.contains_key(t));
                        }
                    }
                }
                assert(self.free_pages@ =~= free0 + ev2.map_values(|e: ResidentTile| e.page)) by {
                    assert(ev2.map_values(|e: ResidentTile| e.page) =~= ev.map_values(|e: ResidentTile| e.page).push(e.page));
                }
                assert forall|a: int, b: int| 0 <= a < b < self.free_pages@.len() implies self.free_pages@[a] != self.free_pages@[b] by {
                    if b == fr.len() {
                        assert(self.free_pages@[a] == fr[a]);
                    }
                }
                assert(ev2.len() == j + 1);
                assert(forall|a: int, b: int| 0 <= a < b < ev2.len() ==> ev2[a].last_access < ev2[b].last_access);
                assert forall|i: int| 0 <= i < ev2.len() implies res0.contains_key(#[trigger] ev2[i].tile) && res0[ev2[i].tile] == (ev2[i].page, ev2[i].last_access) by {
                    if i < ev.len() {
                        assert(ev2[i] == ev[i]);
                    }
                }
                assert forall|t: TileCoord| #[trigger] r2.contains_key(t) <==> res0.contains_key(t) && forall|i: int| 0 <= i < ev2.len() ==> ev2[i].tile != t by {
                    if r2.contains_key(t) {
                        assert(r1.contains_key(t));
                        assert forall|i: int| 0 <= i < ev2.len() implies ev2[i].tile != t by {
                            if i < ev.len() {
                                assert(ev2[i] == ev[i]);
                            }
                        }
                    }
                    if res0.contains_key(t) && forall|i: int| 0 <= i < ev2.len() ==> ev2[i].tile != t {
                        assert forall|i: int| 0 <= i < ev.len() implies ev[i].tile != t by {
                            assert(ev2[i] == ev[i]);
                        }
                        assert(ev2[ev.len() as int].tile != t);
                    }
                }
                assert forall|t: TileCoord| #[trigger] r2.contains_key(t) implies r2[t] == res0[t] by {
                    assert(r1.contains_key(t));
                }
                ev = ev2;
            }
            j += 1;
        }
        proof {
            assert(lru_evicted(res0, self.res(), free0, self.free_pages@, evict_count(to_evict as nat, old(self).resident_len()), ev));
            assert(lru_evicted(old(self).res(), self.res(), old(self).free(), self.free(), evict_count(to_evict as nat, old(self).resident_len()), ev));
        }
    }

    /// Whether `t` is resident.
    pub fn is_resident(&self, t: TileCoord) -> (b: bool)
        requires
            self.wf(),
        ensures
            b == self.res().contains_key(t),
    {
        self.find(t).is_some()
    }

    /// Physical page of `t`, if resident.
    pub fn page_of(&self, t: TileCoord) -> (p: Option<u32>)
        requires
            self.wf(),
        ensures
            p == (if self.res().contains_key(t) { Some(self.res()[t].0) } else { None }),
    {
        match self.find(t) {
            Some(i) => {
                proof {
                    lemma_residency_at(self.resident@, i as int);
                }
                Some(self.resident[i].page)
            },
            None => None,
        }
    }

    /// Last access time of `t`, if resident.
    pub fn last_access_of(&self, t: TileCoord) -> (c: Option<u64>)
        requires
            self.wf(),
        ensures
            c == (if self.res().contains_key(t) { Some(self.res()[t].1) } else { None }),
    {
        match self.find(t) {
            Some(i) => {
                proof {
                    lemma_residency_at(self.resident@, i as int);
                }
                Some(self.resident[i].last_access)
            },
            None => None,
        }
    }

    /// Number of resident tiles (the residency ratio is this over
    /// `capacity_pages`).
    pub fn resident_count(&self) -> (n: usize)
        ensures
            n == self.resident_len(),
    {
        self.resident.len()
    }

    /// Position of the entry of `t`.
    fn find(&self, t: TileCoord) -> (r: Option<usize>)
        requires
            self.wf(),
        ensures
            r matches Some(i) ==> i < self.resident@.len() && self.resident@[i as int].tile == t,
            r is None ==> !self.res().contains_key(t),
    {
        let mut i: usize = 0;
        while i < self.resident.len()
            invariant
                i <= self.resident@.len(),
                forall|j: int| 0 <= j < i ==> self.resident@[j].tile != t,
            decreases self.resident@.len() - i,
        {
            if self.resident[i].tile == t {
                return Some(i);
            }
            i += 1;
        }
        None
    }

    /// Resolves a batch of tile requests in order (see [`request_batch`]) and
    /// returns the tiles that became resident and must be streamed in. Every
    /// tile must lie inside the atlas.
    pub fn request_tiles(&mut self, needed: &[TileCoord]) -> (to_stream: Vec<TileCoord>)
        requires
            old(self).wf(),
            forall|i: int| 0 <= i < needed@.len() ==> #[trigger] tile_in_range(needed@[i], old(self).atlas_width(), old(self).atlas_height(), old(self).tile_side()),
            old(self).clock() + needed@.len() <= u64::MAX,
        ensures
            final(self).wf(),
            final(self).atlas_width() == old(self).atlas_width(),
            final(self).atlas_height() == old(self).atlas_height(),
            final(self).tile_side() == old(self).tile_side(),
            final(self).page_capacity() == old(self).page_capacity(),
            ({
                let (r, f, c, st) = request_batch(old(self).res(), old(self).free(), old(self).clock(), needed@);
                &&& final(self).res() == r
                &&& final(self).free() == f
                &&& final(self).clock() == c
                &&& to_stream@ == st
            }),
    {
        let mut to_stream: Vec<TileCoord> = Vec::new();
        let mut k: usize = 0;
        while k < needed.len()
            invariant
                k <= needed@.len(),
                self.wf(),
                self.width == old(self).atlas_width(),
                self.height == old(self).atlas_height(),
                self.tile_size == old(self).tile_side(),
                self.capacity_pages == old(self).page_capacity(),
                self.access_clock <= old(self).clock() + k,
                old(self).clock() + needed@.len() <= u64::MAX,
                ({
                    let (r, f, c, st) = request_batch(old(self).res(), old(self).free(), old(self).clock(), needed@.take(k as int));
                    &&& self.res() == r
                    &&& self.free_pages@ == f
                    &&& self.access_clock == c
                    &&& to_stream@ == st
                }),
            decreases needed@.len() - k,
        {
            let tile = needed[k];
            proof {
                assert(needed@.take(k + 1).drop_last() =~= needed@.take(k as int));
                assert(needed@.take(k + 1).last() == tile);
            }
            match self.find(tile) {
                Some(i) => {
                    let ghost es = self.resident@;
                    let clock = self.access_clock + 1;
                    let e = ResidentTile { tile, page: self.resident[i].page, last_access: clock };
                    proof {
                        lemma_residency_at(es, i as int);
                        lemma_residency_update(es, i as int, e);
                    }
                    self.resident.set(i, e);
                    self.access_clock = clock;
                    proof {
                        assert forall|a: int, b: int| 0 <= a < b < self.resident@.len() implies {
                            &&& self.resident@[a].tile != self.resident@[b].tile
                            &&& self.resident@[a].last_access != self.resident@[b].last_access
                            &&& self.resident@[a].page != self.resident@[b].page
                        } by {
                            if a != i && b != i {
                                assert(self.resident@[a] == es[a] && self.resident@[b] == es[b]);
                            } else if a == i {
                                assert(self.resident@[b] == es[b]);
                                assert(es[b].last_access < clock);
                            } else {
                                assert(self.resident@[a] == es[a]);
                            }
                        }
                    }
                },
                None => {
                    let ghost fp = self.free_pages@;
                    match self.free_pages.pop() {
                        Some(page) => {
                            let clock = self.access_clock + 1;
                            let e = ResidentTile { tile, page, last_access: clock };
                            let ghost es = self.resident@;
                            proof {
                                lemma_residency_push(es, e);
                            }
                            self.resident.push(e);
                            self.access_clock = clock;
                            to_stream.push(tile);
                        },
                        None => {},
                    }
                },
            }
            k += 1;
        }
        proof {
            assert(needed@.take(k as int) =~= needed@);
        }
        to_stream
    }

}

} // verus!
