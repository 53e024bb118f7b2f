//! Tiled deferred lighting, tile side: the screen is cut into 16-pixel
//! tiles and every tile lists the lights whose screen footprint covers it,
//! in light order, at most 64 of them.

use vstd::prelude::*;

verus! {

/// Tile side in pixels.
pub const TILE_SIZE_PIXELS: usize = 16;

/// Lights a tile keeps; later ones are dropped.
pub const MAX_LIGHTS_PER_TILE: usize = 64;

/// Lights of one tile, by index.
#[derive(Debug, Clone)]
pub struct LightTile {
    pub light_indices: Vec<u32>,
}

/// The tile grid of a screen.
pub struct LightTileGrid {
    pub screen_width: usize,
    pub screen_height: usize,
    pub tiles_x: usize,
    pub tiles_y: usize,
    pub tiles: Vec<LightTile>,
}

/// Tile range `[lo, hi]` along one axis covered by a footprint centred at
/// `c` with radius `r`, for a grid of `n` tiles: the low end is not clamped
/// to the grid, the high end is.
pub open spec fn span_lo(c: i32, r: i32) -> int {
    let v = c - r;
    (if v < 0 {
        0
    } else {
        v
    }) / 16
}

pub open spec fn span_hi(c: i32, r: i32, n: int) -> int {
    let v = c + r;
    let t = (if v < 0 {
        0
    } else {
        v
    }) / 16;
    let last = if n < 1 {
        0
    } else {
        n - 1
    };
    if t < last {
        t
    } else {
        last
    }
}

/// A footprint (centre x, centre y, radius, in pixels) covers tile `(a, b)`.
pub open spec fn covers(fp: Option<(i32, i32, i32)>, tiles_x: int, tiles_y: int, a: int, b: int) -> bool {
    match fp {
        Some(f) => span_lo(f.0, f.2) <= a <= span_hi(f.0, f.2, tiles_x) && span_lo(f.1, f.2) <= b
            <= span_hi(f.1, f.2, tiles_y),
        None => false,
    }
}

/// Its covered range is empty, or the grid has tiles.
pub open spec fn fits_grid(fp: Option<(i32, i32, i32)>, tiles_x: int, tiles_y: int) -> bool {
    match fp {
        Some(f) => span_lo(f.0, f.2) > span_hi(f.0, f.2, tiles_x) || span_lo(f.1, f.2) > span_hi(
            f.1,
            f.2,
            tiles_y,
        ) || (tiles_x > 0 && tiles_y > 0),
        None => true,
    }
}

/// Its arithmetic stays within `i32`.
pub open spec fn footprint_in_range(fp: Option<(i32, i32, i32)>) -> bool {
    match fp {
        Some(f) => i32::MIN <= f.0 - f.2 && f.0 + f.2 <= i32::MAX && i32::MIN <= f.1 - f.2 && f.1 + f.2
            <= i32::MAX,
        None => true,
    }
}

/// Indices, in order, of the first `n` footprints that cover tile `(a, b)`.
pub open spec fn lights_on(fps: Seq<Option<(i32, i32, i32)>>, n: nat, tiles_x: int, tiles_y: int, a: int, b: int) -> Seq<u32>
    decreases n,
{
    if n == 0 {
        seq![]
    } else {
        let prev = lights_on(fps, (n - 1) as nat, tiles_x, tiles_y, a, b);
        if covers(fps[n - 1], tiles_x, tiles_y, a, b) {
            prev.push((n - 1) as u32)
        } else {
            prev
        }
    }
}

/// The first 64 of a list.
pub open spec fn capped(s: Seq<u32>) -> Seq<u32> {
    if s.len() <= 64 {
        s
    } else {
        s.take(64)
    }
}

proof fn lemma_capped_push(s: Seq<u32>, x: u32)
    ensures
        capped(s).len() <= 64,
        capped(s.push(x)) == if capped(s).len() < 64 {
            capped(s).push(x)
        } else {
            capped(s)
        },
{
    if s.len() >= 64 {
        assert(capped(s.push(x)) =~= capped(s));
    }
}

proof fn lemma_tile_index(a: int, b: int, a2: int, b2: int, w: int)
    requires
        0 <= a < w,
        0 <= a2 < w,
        0 <= b,
        0 <= b2,
        b * w + a == b2 * w + a2,
    ensures
        a == a2 && b == b2,
{
    if b < b2 {
        assert(b * w + a < b2 * w + a2) by (nonlinear_arith)
            requires
                b < b2,
                0 <= a < w,
                0 <= a2,
        ;
    } else if b > b2 {
        assert(b * w + a > b2 * w + a2) by (nonlinear_arith)
            requires
                b > b2,
                0 <= a2 < w,
                0 <= a,
        ;
    }
}

proof fn lemma_tile_index_bound(a: int, b: int, w: int, h: int)
    requires
        0 <= a < w,
        0 <= b < h,
    ensures
        0 <= b * w + a < w * h,
{
    assert(0 <= b * w + a < w * h) by (nonlinear_arith)
        requires
            0 <= a < w,
            0 <= b < h,
    ;
}

impl LightTileGrid {
    /// The tile list has one entry per tile.
    pub open spec fn wf(&self) -> bool {
        self.tiles@.len() == self.tiles_x * self.tiles_y
    }

    /// Lights listed on tile `(a, b)`.
    pub open spec fn tile_lights(&self, a: int, b: int) -> Seq<u32> {
        self.tiles@[b * self.tiles_x + a].light_indices@
    }

    /// A grid for a screen of the given size, tiles rounded up, all empty.
    pub fn new(screen_width: usize, screen_height: usize) -> (g: Self)
        requires
            screen_width + 16 <= usize::MAX,
            screen_height + 16 <= usize::MAX,
            ((screen_width + 15) / 16) * ((screen_height + 15) / 16) <= usize::MAX,
        ensures
            g.wf(),
            g.screen_width == screen_width,
            g.screen_height == screen_height,
            g.tiles_x == (screen_width + 15) / 16,
            g.tiles_y == (screen_height + 15) / 16,
            forall|t: int| 0 <= t < g.tiles@.len() ==> #[trigger] g.tiles@[t].light_indices@.len() == 0,
    {
        let tiles_x = (screen_width + TILE_SIZE_PIXELS - 1) / TILE_SIZE_PIXELS;
        let tiles_y = (screen_height + TILE_SIZE_PIXELS - 1) / TILE_SIZE_PIXELS;
        let total = tiles_x * tiles_y;
        let mut tiles: Vec<LightTile> = Vec::new();
        let mut t: usize = 0;
        while t < total
            invariant
                t <= total,
                tiles@.len() == t,
                forall|k: int| 0 <= k < t ==> #[trigger] tiles@[k].light_indices@.len() == 0,
            decreases total - t,
        {
            tiles.push(LightTile { light_indices: Vec::new() });
            t += 1;
        }
        LightTileGrid { screen_width, screen_height, tiles_x, tiles_y, tiles }
    }

    /// Lists on every tile the footprints that cover it, by index and in
    /// order, keeping the first 64; a `None` footprint (a light behind the
    /// camera) covers nothing. Earlier lists are cleared first.
    #[verifier::rlimit(40)]
    pub fn bin_lights(&mut self, footprints: &[Option<(i32, i32, i32)>])
        requires
            old(self).wf(),
            footprints@.len() <= u32::MAX,
            forall|i: int| 0 <= i < footprints@.len() ==> #[trigger] footprint_in_range(footprints@[i]),
            forall|i: int|
                0 <= i < footprints@.len() ==> #[trigger] fits_grid(
                    footprints@[i],
                    old(self).tiles_x as int,
                    old(self).tiles_y as int,
                ),
        ensures
            final(self).wf(),
            final(self).screen_width == old(self).screen_width,
            final(self).screen_height == old(self).screen_height,
            final(self).tiles_x == old(self).tiles_x,
            final(self).tiles_y == old(self).tiles_y,
            forall|a: int, b: int|
                0 <= a < final(self).tiles_x && 0 <= b < final(self).tiles_y ==> #[trigger] final(self).tile_lights(a, b)
                    == capped(
                    lights_on(footprints@, footprints@.len() as nat, final(self).tiles_x as int, final(self).tiles_y as int, a, b),
                ),
    {
        let w = self.tiles_x;
        let h = self.tiles_y;
        let ghost fps = footprints@;
        let total = self.tiles.len();
        let mut t: usize = 0;
        while t < total
            invariant
                self.tiles_x == w,
                self.tiles_y == h,
                self.screen_width == old(self).screen_width,
                self.screen_height == old(self).screen_height,
                total == w * h,
                self.tiles@.len() == total,
                t <= total,
                forall|k: int| 0 <= k < t ==> #[trigger] self.tiles@[k].light_indices@.len() == 0,
            decreases total - t,
        {
            self.tiles[t].light_indices.clear();
            t += 1;
        }
        proof {
            assert forall|a: int, b: int| 0 <= a < w && 0 <= b < h implies #[trigger] self.tile_lights(a, b) == capped(
                lights_on(fps, 0, w as int, h as int, a, b),
            ) by {
                lemma_tile_index_bound(a, b, w as int, h as int);
                assert(self.tiles@[b * w + a].light_indices@.len() == 0);
                assert(self.tile_lights(a, b) =~= seq![]);
            }
        }
        let n = footprints.len();
        let mut i: usize = 0;
        while i < n
            invariant
                self.tiles_x == w,
                self.tiles_y == h,
                self.screen_width == old(self).screen_width,
                self.screen_height == old(self).screen_height,
                self.tiles@.len() == w * h,
                n == fps.len(),
                fps == footprints@,
                n <= u32::MAX,
                w * h <= usize::MAX,
                i <= n,
                forall|k: int| 0 <= k < fps.len() ==> #[trigger] footprint_in_range(fps[k]),
                forall|k: int| 0 <= k < fps.len() ==> #[trigger] fits_grid(fps[k], w as int, h as int),
                forall|a: int, b: int|
                    0 <= a < w && 0 <= b < h ==> #[trigger] self.tile_lights(a, b) == capped(
                        lights_on(fps, i as nat, w as int, h as int, a, b),
                    ),
            decreases n - i,
        {
            proof {
                assert(footprint_in_range(fps[i as int]));
                assert(fits_grid(fps[i as int], w as int, h as int));
            }
            match footprints[i] {
                None => {
                    proof {
                        assert forall|a: int, b: int| 0 <= a < w && 0 <= b < h implies #[trigger] self.tile_lights(a, b)
                            == capped(lights_on(fps, (i + 1) as nat, w as int, h as int, a, b)) by {
                            assert(lights_on(fps, (i + 1) as nat, w as int, h as int, a, b) == lights_on(
                                fps,
                                i as nat,
                                w as int,
                                h as int,
                                a,
                                b,
                            ));
                        }
                    }
                },
                Some(f) => {
                    let (sx, sy, r) = f;
                    let lx = sx as i64 - r as i64;
                    let hx = sx as i64 + r as i64;
                    let ly = sy as i64 - r as i64;
                    let hy = sy as i64 + r as i64;
                    let min_tx: usize = ((if lx < 0 { 0 } else { lx }) / 16) as usize;
                    let htx: usize = ((if hx < 0 { 0 } else { hx }) / 16) as usize;
                    let last_x: usize = if w < 1 { 0 } else { w - 1 };
                    let max_tx: usize = if htx < last_x { htx } else { last_x };
                    let min_ty: usize = ((if ly < 0 { 0 } else { ly }) / 16) as usize;
                    let hty: usize = ((if hy < 0 { 0 } else { hy }) / 16) as usize;
                    let last_y: usize = if h < 1 { 0 } else { h - 1 };
                    let max_ty: usize = if hty < last_y { hty } else { last_y };
                    assert(min_tx == span_lo(sx, r) && max_tx == span_hi(sx, r, w as int));
                    assert(min_ty == span_lo(sy, r) && max_ty == span_hi(sy, r, h as int));
                    let ghost fp = fps[i as int];
                    let mut ty: usize = min_ty;
                    while ty <= max_ty
                        invariant
                            self.tiles_x == w,
                            self.tiles_y == h,
                            self.screen_width == old(self).screen_width,
                            self.screen_height == old(self).screen_height,
                            self.tiles@.len() == w * h,
                            n == fps.len(),
                            i < n,
                            fp == fps[i as int],
                            fp == Some((sx, sy, r)),
                            min_tx == span_lo(sx, r),
                            max_tx == span_hi(sx, r, w as int),
                            min_ty == span_lo(sy, r),
                            max_ty == span_hi(sy, r, h as int),
                            (max_ty < h && max_tx < w) || min_tx > max_tx || min_ty > max_ty,
                            min_ty <= ty,
                            n <= u32::MAX,
                            w * h <= usize::MAX,
                            ty <= max_ty + 1 || ty == min_ty,
                            forall|a: int, b: int|
                                0 <= a < w && 0 <= b < h ==> #[trigger] self.tile_lights(a, b) == capped(
                                    lights_on(
                                        fps,
                                        (if covers(fp, w as int, h as int, a, b) && b < ty {
                                            i + 1
                                        } else {
                                            i as int
                                        }) as nat,
                                        w as int,
                                        h as int,
                                        a,
                                        b,
                                    ),
                                ),
                        decreases max_ty + 1 - ty,
                    {
                        let mut tx: usize = min_tx;
                        while tx <= max_tx
                            invariant
                                self.tiles_x == w,
                                self.tiles_y == h,
                                self.screen_width == old(self).screen_width,
                                self.screen_height == old(self).screen_height,
                                self.tiles@.len() == w * h,
                                n == fps.len(),
                                i < n,
                                n <= u32::MAX,
                                fp == fps[i as int],
                                fp == Some((sx, sy, r)),
                                min_tx == span_lo(sx, r),
                                max_tx == span_hi(sx, r, w as int),
                                min_ty == span_lo(sy, r),
                                max_ty == span_hi(sy, r, h as int),
                                (max_ty < h && max_tx < w) || min_tx > max_tx || min_ty > max_ty,
                                min_ty <= ty <= max_ty,
                                min_tx <= tx,
                                w * h <= usize::MAX,
                                tx <= max_tx + 1 || tx == min_tx,
                                forall|a: int, b: int|
                                    0 <= a < w && 0 <= b < h ==> #[trigger] self.tile_lights(a, b) == capped(
                                        lights_on(
                                            fps,
                                            (if covers(fp, w as int, h as int, a, b) && (b < ty || (b == ty && a < tx)) {
                                                i + 1
                                            } else {
                                                i as int
                                            }) as nat,
                                            w as int,
                                            h as int,
                                            a,
                                            b,
                                        ),
                                    ),
                            decreases max_tx + 1 - tx,
                        {
                            proof {
                                lemma_tile_index_bound(tx as int, ty as int, w as int, h as int);
                            }
                            let idx = ty * w + tx;
                            let ghost before = self.tiles@;
                            let ghost pre = *self;
                            let ghost cur = lights_on(fps, i as nat, w as int, h as int, tx as int, ty as int);
                            proof {
                                assert(covers(fp, w as int, h as int, tx as int, ty as int));
                                assert(self.tile_lights(tx as int, ty as int) == capped(cur));
                                lemma_capped_push(cur, i as u32);
                            }
                            if self.tiles[idx].light_indices.len() < MAX_LIGHTS_PER_TILE {
                                self.tiles[idx].light_indices.push(i as u32);
                            }
                            proof {
                                let nxt = lights_on(fps, (i + 1) as nat, w as int, h as int, tx as int, ty as int);
                                assert(nxt == cur.push(i as u32));
                                assert(self.tiles@[idx as int].light_indices@ == capped(nxt));
                                assert forall|k: int| 0 <= k < self.tiles@.len() && k != idx implies #[trigger] self.tiles@[k]
                                    == before[k] by {}
                                assert forall|a: int, b: int| 0 <= a < w && 0 <= b < h implies #[trigger] self.tile_lights(a, b)
                                    == capped(
                                    lights_on(
                                        fps,
                                        (if covers(fp, w as int, h as int, a, b) && (b < ty || (b == ty && a < tx + 1)) {
                                            i + 1
                                        } else {
                                            i as int
                                        }) as nat,
                                        w as int,
                                        h as int,
                                        a,
                                        b,
                                    ),
                                ) by {
                                    lemma_tile_index_bound(a, b, w as int, h as int);
                                    if a == tx && b == ty {
                                    } else {
                                        if b * w + a == idx {
                                            lemma_tile_index(a, b, tx as int, ty as int, w as int);
                                        }
                                        assert(self.tiles@[b * w + a] == before[b * w + a]);
                                        assert(pre.tile_lights(a, b) == capped(
                                            lights_on(
                                                fps,
                                                (if covers(fp, w as int, h as int, a, b) && (b < ty || (b == ty && a < tx)) {
                                                    i + 1
                                                } else {
                                                    i as int
                                                }) as nat,
                                                w as int,
                                                h as int,
                                                a,
                                                b,
                                            ),
                                        ));
                                    }
                                }
                            }
                            tx += 1;
                        }
                        ty += 1;
                    }
                    proof {
                        assert forall|a: int, b: int| 0 <= a < w && 0 <= b < h implies #[trigger] self.tile_lights(a, b)
                            == capped(lights_on(fps, (i + 1) as nat, w as int, h as int, a, b)) by {
                            if !covers(fp, w as int, h as int, a, b) {
                                assert(lights_on(fps, (i + 1) as nat, w as int, h as int, a, b) == lights_on(
                                    fps,
                                    i as nat,
                                    w as int,
                                    h as int,
                                    a,
                                    b,
                                ));
                            }
                        }
                    }
                },
            }
            i += 1;
        }
    }
}

} // verus!
