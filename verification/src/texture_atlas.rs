//! Texture arrays (one RGBA8 layer per sprite) and their VRAM estimate.

use vstd::prelude::*;
use crate::text::{decimal, format_number_between};

verus! {

/// A rectangle in an atlas.
#[derive(Debug, Clone, Copy)]
pub struct AtlasRect {
    pub x: u32,
    pub y: u32,
    pub w: u32,
    pub h: u32,
}

/// A sprite placed in an atlas (its UVs are the rectangle divided by the
/// atlas size).
#[derive(Debug, Clone, Copy)]
pub struct PackedSprite {
    pub name_hash: u64,
    pub rect: AtlasRect,
}

/// Powers of two from `p` on, the first one at least `n`.
pub open spec fn pow2_at_least(n: int, p: int) -> int
    decreases (if p < n { n - p } else { 0 }),
{
    if p <= 0 || p >= n {
        p
    } else {
        pow2_at_least(n, 2 * p)
    }
}

/// `n.next_power_of_two()`: the least power of two that is at least `n`.
pub open spec fn next_pow2(n: int) -> int {
    pow2_at_least(n, 1)
}

/// Atlas side for a requested size: the next power of two, at least 64.
pub open spec fn atlas_side(n: int) -> int {
    if next_pow2(n) > 64 {
        next_pow2(n)
    } else {
        64
    }
}

/// `2^k`.
pub open spec fn two_to(k: nat) -> int
    decreases k,
{
    if k == 0 {
        1
    } else {
        2 * two_to((k - 1) as nat)
    }
}

proof fn lemma_two_to_monotone(k: nat, m: nat)
    requires
        k <= m,
    ensures
        1 <= two_to(k) <= two_to(m),
    decreases m,
{
    if m > 0 {
        if k < m {
            lemma_two_to_monotone(k, (m - 1) as nat);
        } else {
            lemma_two_to_monotone((k - 1) as nat, (m - 1) as nat);
        }
    }
}

/// `n.next_power_of_two()` for `n <= 2^31`.
fn next_power_of_two(n: u32) -> (p: u32)
    requires
        n <= 0x8000_0000,
    ensures
        p == next_pow2(n as int),
        n <= p <= 0x8000_0000,
{
    proof {
        reveal_with_fuel(two_to, 32);
        assert(two_to(31) == 0x8000_0000);
    }
    let mut p: u32 = 1;
    let ghost mut k: nat = 0;
    while p < n
        invariant
            k <= 31,
            p == two_to(k),
            two_to(31) == 0x8000_0000,
            n <= 0x8000_0000,
            pow2_at_least(n as int, p as int) == next_pow2(n as int),
        decreases 31 - k,
    {
        proof {
            lemma_two_to_monotone(k, 31);
            if k == 31 {
                assert(false);
            }
            lemma_two_to_monotone(k + 1, 31);
        }
        p = p * 2;
        proof {
            k = k + 1;
        }
    }
    proof {
        lemma_two_to_monotone(k, 31);
    }
    p
}

/// Two rectangles share no texel.
pub open spec fn disjoint(a: AtlasRect, b: AtlasRect) -> bool {
    a.x + a.w <= b.x || b.x + b.w <= a.x || a.y + a.h <= b.y || b.y + b.h <= a.y
}

/// Shelf packer into a power-of-two atlas: sprites fill a shelf left to
/// right; one that does not fit opens a new shelf above the tallest sprite of
/// the current one.
#[derive(Debug)]
pub struct TextureAtlasPacker {
    pub width: u32,
    pub height: u32,
    shelf_x: u32,
    shelf_y: u32,
    shelf_h: u32,
    pub sprites: Vec<PackedSprite>,
    failed: u32,
}

/// Texture2DArray builder: layers of `layer_w * layer_h` RGBA8 pixels.
#[derive(Debug, Default)]
pub struct TextureArrayBuilder {
    pub layer_w: u32,
    pub layer_h: u32,
    pub layers: Vec<Vec<u8>>,
}

/// Text of the size-mismatch error of [`TextureArrayBuilder::push_layer_rgba`]:
/// `layer size {got} != {want}`.
pub open spec fn layer_size_message(got: usize, want: usize) -> Seq<char> {
    "layer size "@ + decimal(got as nat) + " != "@ + decimal(want as nat)
}

fn format_layer_size_message(got: usize, want: usize) -> (s: String)
    ensures
        s@ == layer_size_message(got, want),
{
    let head = format_number_between("layer size ", got, " != ");
    let s = format_number_between(head.as_str(), want, "");
    proof {
        reveal_strlit("");
    }
    assert(s@ =~= layer_size_message(got, want));
    s
}

/// Bytes of one layer.
pub open spec fn layer_bytes(w: u32, h: u32) -> int {
    w as int * h as int * 4
}

impl TextureAtlasPacker {
    /// The shelf cursor `(x, y, shelf height)`.
    pub closed spec fn cursor(self) -> (int, int, int) {
        (self.shelf_x as int, self.shelf_y as int, self.shelf_h as int)
    }

    /// Width of the atlas.
    pub closed spec fn atlas_w(self) -> int {
        self.width as int
    }

    /// Height of the atlas.
    pub closed spec fn atlas_h(self) -> int {
        self.height as int
    }

    /// Requests refused so far.
    pub closed spec fn failures(self) -> int {
        self.failed as int
    }

    /// The sprites placed so far, in order.
    pub closed spec fn placed(self) -> Seq<PackedSprite> {
        self.sprites@
    }

    /// Placed sprites lie inside the atlas and share no texel; each one lies
    /// on a finished shelf (below the cursor row) or left of the cursor on
    /// the current shelf.
    pub closed spec fn wf(self) -> bool {
        &&& self.width <= 0x8000_0000
        &&& self.height <= 0x8000_0000
        &&& self.shelf_x <= self.width
        &&& self.shelf_y + self.shelf_h <= self.height
        &&& forall|i: int|
            0 <= i < self.sprites@.len() ==> {
                let r = #[trigger] self.sprites@[i].rect;
                &&& r.w > 0 && r.h > 0
                &&& r.x + r.w <= self.width
                &&& r.y + r.h <= self.height
                &&& (r.y + r.h <= self.shelf_y || (r.y == self.shelf_y && r.x + r.w <= self.shelf_x
                    && r.h <= self.shelf_h))
            }
        &&& forall|i: int, j: int|
            0 <= i < j < self.sprites@.len() ==> disjoint(
                #[trigger] self.sprites@[i].rect,
                #[trigger] self.sprites@[j].rect,
            )
    }

    /// Each side is rounded up to a power of two, at least 64; sides above
    /// 2^31 are not accepted.
    pub fn new(width: u32, height: u32) -> (p: Self)
        requires
            width <= 0x8000_0000,
            height <= 0x8000_0000,
        ensures
            p.wf(),
            p.atlas_w() == atlas_side(width as int),
            p.atlas_h() == atlas_side(height as int),
            p.cursor() == (0int, 0int, 0int),
            p.failures() == 0,
            p.placed().len() == 0,
    {
        let pw = next_power_of_two(width);
        let ph = next_power_of_two(height);
        let w = if pw > 64 {
            pw
        } else {
            64
        };
        let h = if ph > 64 {
            ph
        } else {
            64
        };
        TextureAtlasPacker {
            width: w,
            height: h,
            shelf_x: 0,
            shelf_y: 0,
            shelf_h: 0,
            sprites: Vec::new(),
            failed: 0,
        }
    }

    /// Places a `w x h` sprite. Empty or oversized sprites are refused, as
    /// is one that finds no room above the last shelf; each refusal is
    /// counted. A sprite that does not fit right of the cursor first closes
    /// the shelf (this happens also when it is then refused).
    pub fn pack(&mut self, name_hash: u64, w: u32, h: u32) -> (r: Option<PackedSprite>)
        requires
            old(self).wf(),
            old(self).failures() < u32::MAX,
        ensures
            final(self).wf(),
            final(self).atlas_w() == old(self).atlas_w(),
            final(self).atlas_h() == old(self).atlas_h(),
            ({
                let (cx, cy, ch) = old(self).cursor();
                if w == 0 || h == 0 || w > old(self).atlas_w() || h > old(self).atlas_h() {
                    &&& r is None
                    &&& final(self).failures() == old(self).failures() + 1
                    &&& final(self).cursor() == old(self).cursor()
                    &&& final(self).placed() == old(self).placed()
                } else {
                    let (sx, sy, sh) = if cx + w > old(self).atlas_w() {
                        (0int, cy + ch, 0int)
                    } else {
                        (cx, cy, ch)
                    };
                    if sy + h > old(self).atlas_h() {
                        &&& r is None
                        &&& final(self).failures() == old(self).failures() + 1
                        &&& final(self).cursor() == (sx, sy, sh)
                        &&& final(self).placed() == old(self).placed()
                    } else {
                        &&& r == Some(
                            PackedSprite {
                                name_hash,
                                rect: AtlasRect { x: sx as u32, y: sy as u32, w, h },
                            },
                        )
                        &&& final(self).failures() == old(self).failures()
                        &&& final(self).cursor() == (sx + w, sy, if sh > h {
                            sh
                        } else {
                            h as int
                        })
                        &&& final(self).placed() == old(self).placed().push(r->0)
                    }
                }
            }),
    {
        if w == 0 || h == 0 || w > self.width || h > self.height {
            self.failed = self.failed + 1;
            return None;
        }
        if self.shelf_x as u64 + w as u64 > self.width as u64 {
            self.shelf_y = self.shelf_y + self.shelf_h;
            self.shelf_x = 0;
            self.shelf_h = 0;
        }
        if self.shelf_y as u64 + h as u64 > self.height as u64 {
            self.failed = self.failed + 1;
            return None;
        }
        let rect = AtlasRect { x: self.shelf_x, y: self.shelf_y, w, h };
        let ghost before = self.sprites@;
        self.shelf_x = self.shelf_x + w;
        self.shelf_h = if self.shelf_h > h {
            self.shelf_h
        } else {
            h
        };
        let sprite = PackedSprite { name_hash, rect };
        self.sprites.push(sprite);
        proof {
            assert forall|i: int, j: int| 0 <= i < j < self.sprites@.len() implies disjoint(
                #[trigger] self.sprites@[i].rect,
                #[trigger] self.sprites@[j].rect,
            ) by {
                if j == self.sprites@.len() - 1 {
                    assert(self.sprites@[i] == before[i]);
                } else {
                    assert(self.sprites@[i] == before[i]);
                    assert(self.sprites@[j] == before[j]);
                }
            }
            assert forall|i: int| 0 <= i < self.sprites@.len() implies {
                let r = #[trigger] self.sprites@[i].rect;
                &&& r.w > 0 && r.h > 0
                &&& r.x + r.w <= self.width
                &&& r.y + r.h <= self.height
                &&& (r.y + r.h <= self.shelf_y || (r.y == self.shelf_y && r.x + r.w <= self.shelf_x
                    && r.h <= self.shelf_h))
            } by {
                if i < before.len() {
                    assert(self.sprites@[i] == before[i]);
                }
            }
        }
        Some(sprite)
    }

    /// RGBA8 bytes of the atlas plus a third for its mip chain.
    pub fn vram_bytes_rgba8(&self) -> (b: u64)
        requires
            ({
                let base = self.atlas_w() * self.atlas_h() * 4;
                base + base / 3 <= u64::MAX
            }),
        ensures
            ({
                let base = self.atlas_w() * self.atlas_h() * 4;
                b == base + base / 3
            }),
    {
        proof {
            assert(self.width as int * self.height as int <= self.width as int * self.height as int * 4) by (nonlinear_arith);
        }
        let base = self.width as u64 * self.height as u64 * 4;
        base + base / 3
    }

    /// Requests refused so far.
    pub fn failed_count(&self) -> (n: u32)
        ensures
            n == self.failures(),
    {
        self.failed
    }
}

/// Placed sprites lie inside the atlas and no two of them overlap.
pub proof fn lemma_packed_sprites_disjoint(p: TextureAtlasPacker)
    requires
        p.wf(),
    ensures
        forall|i: int|
            0 <= i < p.placed().len() ==> {
                let r = #[trigger] p.placed()[i].rect;
                r.x + r.w <= p.atlas_w() && r.y + r.h <= p.atlas_h()
            },
        forall|i: int, j: int|
            0 <= i < j < p.placed().len() ==> disjoint(
                #[trigger] p.placed()[i].rect,
                #[trigger] p.placed()[j].rect,
            ),
{
}

impl TextureArrayBuilder {
    /// Both dimensions must be positive and one layer must fit in 2^32 bytes.
    pub fn new(layer_w: u32, layer_h: u32) -> (b: Self)
        requires
            layer_w > 0,
            layer_h > 0,
            layer_bytes(layer_w, layer_h) <= u32::MAX,
        ensures
            b.layer_w == layer_w,
            b.layer_h == layer_h,
            b.layers@.len() == 0,
    {
        Self { layer_w, layer_h, layers: Vec::new() }
    }

    /// Appends a layer of exactly `layer_w * layer_h * 4` bytes and returns
    /// its index; any other size is refused with an error message.
    pub fn push_layer_rgba(&mut self, pixels: Vec<u8>) -> (r: Result<u32, String>)
        requires
            layer_bytes(old(self).layer_w, old(self).layer_h) <= u32::MAX,
        ensures
            final(self).layer_w == old(self).layer_w,
            final(self).layer_h == old(self).layer_h,
            pixels@.len() == layer_bytes(old(self).layer_w, old(self).layer_h) ==> {
                &&& r matches Ok(id) && id as int == old(self).layers@.len() % 0x1_0000_0000
                &&& final(self).layers@ == old(self).layers@.push(pixels)
            },
            pixels@.len() != layer_bytes(old(self).layer_w, old(self).layer_h) ==> {
                &&& r matches Err(msg) && msg@ == layer_size_message(
                    pixels@.len() as usize,
                    layer_bytes(old(self).layer_w, old(self).layer_h) as usize,
                )
                &&& final(self).layers@ == old(self).layers@
            },
    {
        let expect = (self.layer_w as u64 * self.layer_h as u64 * 4) as usize;
        if pixels.len() != expect {
            return Err(format_layer_size_message(pixels.len(), expect));
        }
        let n = self.layers.len();
        let id = #[verifier::truncate] (n as u32);
        assert((n as u32) as int == n as int % 0x1_0000_0000) by (bit_vector);
        self.layers.push(pixels);
        Ok(id)
    }

    /// Estimated VRAM of the array: each layer plus a third for its mips.
    pub fn vram_bytes(&self) -> (b: u64)
        requires
            layer_bytes(self.layer_w, self.layer_h) <= u32::MAX,
            ({
                let one = layer_bytes(self.layer_w, self.layer_h);
                (one + one / 3) * self.layers@.len() <= u64::MAX
            }),
        ensures
            ({
                let one = layer_bytes(self.layer_w, self.layer_h);
                b == (one + one / 3) * self.layers@.len()
            }),
    {
        proof {
            assert(self.layer_w as int * self.layer_h as int <= layer_bytes(self.layer_w, self.layer_h));
        }
        let one = self.layer_w as u64 * self.layer_h as u64 * 4;
        let mips = one + one / 3;
        mips * self.layers.len() as u64
    }
}

/// `max(n / 2, 1)`: one mip level down.
pub open spec fn half(n: int) -> int {
    if n / 2 > 1 {
        n / 2
    } else {
        1
    }
}

/// Channel `c` of texel `(x, y)` of a `w x h` RGBA8 image, coordinates clamped
/// to the last column and row.
pub open spec fn sample(img: Seq<u8>, w: int, h: int, x: int, y: int, c: int) -> int {
    let sx = if x < w - 1 {
        x
    } else {
        w - 1
    };
    let sy = if y < h - 1 {
        y
    } else {
        h - 1
    };
    img[(sy * w + sx) * 4 + c] as int
}

/// Channel `c` of texel `(x, y)` of the next level: the truncated mean of the
/// 2x2 block at `(2x, 2y)`.
pub open spec fn box_texel(img: Seq<u8>, w: int, h: int, x: int, y: int, c: int) -> u8 {
    ((sample(img, w, h, 2 * x, 2 * y, c) + sample(img, w, h, 2 * x + 1, 2 * y, c) + sample(
        img,
        w,
        h,
        2 * x,
        2 * y + 1,
        c,
    ) + sample(img, w, h, 2 * x + 1, 2 * y + 1, c)) / 4) as u8
}

/// The level below a `w x h` RGBA8 image, row-major.
pub open spec fn downsample(img: Seq<u8>, w: int, h: int) -> Seq<u8> {
    let nw = half(w);
    let nh = half(h);
    Seq::new(
        (nw * nh * 4) as nat,
        |i: int| box_texel(img, w, h, (i / 4) % nw, (i / 4) / nw, i % 4),
    )
}

/// The full mip chain of a `w x h` image, down to 1x1.
pub open spec fn mip_chain(img: Seq<u8>, w: nat, h: nat) -> Seq<Seq<u8>>
    decreases (if w == 0 { 1 } else { w }) + (if h == 0 { 1 } else { h }),
{
    if w <= 1 && h <= 1 {
        seq![img]
    } else {
        seq![img] + mip_chain(downsample(img, w as int, h as int), half(w as int) as nat, half(h as int) as nat)
    }
}

/// Index `k` of a row-major RGBA8 image of width `nw` names channel `c` of
/// texel `(x, y)`.
proof fn lemma_texel_index(k: int, x: int, y: int, c: int, nw: int)
    requires
        nw > 0,
        0 <= x < nw,
        0 <= y,
        0 <= c < 4,
        k == (y * nw + x) * 4 + c,
    ensures
        k % 4 == c,
        (k / 4) % nw == x,
        (k / 4) / nw == y,
{
    vstd::arithmetic::div_mod::lemma_fundamental_div_mod_converse(k, 4, y * nw + x, c);
    vstd::arithmetic::div_mod::lemma_fundamental_div_mod_converse(y * nw + x, nw, y, x);
}

/// [`sample`] read from memory.
fn sample_at(img: &Vec<u8>, w: u32, h: u32, x: u32, y: u32, c: u32) -> (v: u32)
    requires
        w >= 1,
        h >= 1,
        w * h <= 0x4000_0000,
        img@.len() == w * h * 4,
        c < 4,
    ensures
        v == sample(img@, w as int, h as int, x as int, y as int, c as int),
{
    let sx = if x < w - 1 {
        x
    } else {
        w - 1
    };
    let sy = if y < h - 1 {
        y
    } else {
        h - 1
    };
    proof {
        assert(sy * w + sx <= (h - 1) * w + (w - 1)) by (nonlinear_arith)
            requires
                sy <= h - 1,
                sx <= w - 1,
                w >= 1,
        ;
        assert((h - 1) * w + (w - 1) == w * h - 1) by (nonlinear_arith);
    }
    let i = ((sy * w + sx) * 4 + c) as usize;
    img[i] as u32
}

/// The level below `img`, a `w x h` RGBA8 image.
fn downsample_level(img: &Vec<u8>, w: u32, h: u32) -> (next: Vec<u8>)
    requires
        w >= 1,
        h >= 1,
        w * h <= 0x4000_0000,
        img@.len() == w * h * 4,
    ensures
        next@ == downsample(img@, w as int, h as int),
{
    let nw: u32 = if w / 2 > 1 {
        w / 2
    } else {
        1
    };
    let nh: u32 = if h / 2 > 1 {
        h / 2
    } else {
        1
    };
    let ghost want = downsample(img@, w as int, h as int);
    proof {
        assert(nw * nh <= w * h) by (nonlinear_arith)
            requires
                1 <= nw <= w,
                1 <= nh <= h,
        ;
    }
    let mut next: Vec<u8> = Vec::new();
    let mut y: u32 = 0;
    while y < nh
        invariant
            nw == half(w as int),
            nh == half(h as int),
            1 <= nw <= w,
            1 <= nh <= h,
            nw * nh <= w * h,
            w >= 1,
            h >= 1,
            w * h <= 0x4000_0000,
            img@.len() == w * h * 4,
            want == downsample(img@, w as int, h as int),
            y <= nh,
            next@.len() == y * nw * 4,
            forall|i: int| 0 <= i < next@.len() ==> #[trigger] next@[i] == want[i],
        decreases nh - y,
    {
        let mut x: u32 = 0;
        while x < nw
            invariant
                nw == half(w as int),
                nh == half(h as int),
                1 <= nw <= w,
                1 <= nh <= h,
                nw * nh <= w * h,
                w >= 1,
                h >= 1,
                w * h <= 0x4000_0000,
                img@.len() == w * h * 4,
                want == downsample(img@, w as int, h as int),
                y < nh,
                x <= nw,
                next@.len() == (y * nw + x) * 4,
                forall|i: int| 0 <= i < next@.len() ==> #[trigger] next@[i] == want[i],
            decreases nw - x,
        {
            proof {
                assert(y * nw + x < nw * nh) by (nonlinear_arith)
                    requires
                        y < nh,
                        x < nw,
                ;
            }
            let mut c: u32 = 0;
            while c < 4
                invariant
                    nw == half(w as int),
                    nh == half(h as int),
                    1 <= nw <= w,
                    w >= 1,
                    h >= 1,
                    w * h <= 0x4000_0000,
                    img@.len() == w * h * 4,
                    want == downsample(img@, w as int, h as int),
                    y < nh,
                    x < nw,
                    y * nw + x < nw * nh,
                    c <= 4,
                    next@.len() == (y * nw + x) * 4 + c,
                    forall|i: int| 0 <= i < next@.len() ==> #[trigger] next@[i] == want[i],
                decreases 4 - c,
            {
                let s = sample_at(img, w, h, 2 * x, 2 * y, c) + sample_at(img, w, h, 2 * x + 1, 2 * y, c)
                    + sample_at(img, w, h, 2 * x, 2 * y + 1, c) + sample_at(img, w, h, 2 * x + 1, 2 * y + 1, c);
                let v = (s / 4) as u8;
                proof {
                    let k = (y * nw + x) * 4 + c;
                    lemma_texel_index(k, x as int, y as int, c as int, nw as int);
                    assert(k < nw * nh * 4);
                    assert(want[k] == box_texel(img@, w as int, h as int, x as int, y as int, c as int));
                }
                next.push(v);
                c += 1;
            }
            x += 1;
        }
        proof {
            assert((y * nw + nw) * 4 == (y + 1) * nw * 4) by (nonlinear_arith);
        }
        y += 1;
    }
    assert(next@.len() == want.len()) by {
        assert(y * nw * 4 == nw * nh * 4) by (nonlinear_arith)
            requires
                y == nh,
        ;
    }
    assert(next@ =~= want);
    next
}

/// The mip chain of a `width x height` RGBA8 image: the image itself, then
/// each 2x2 box-filtered level (edges clamped) down to 1x1.
pub fn generate_mip_chain(width: u32, height: u32, rgba: &[u8]) -> (chain: Vec<Vec<u8>>)
    requires
        width > 0,
        height > 0,
        rgba@.len() == width * height * 4,
        width * height <= 0x4000_0000,
    ensures
        chain@.len() == mip_chain(rgba@, width as nat, height as nat).len(),
        forall|k: int| 0 <= k < chain@.len() ==> #[trigger] chain@[k]@ == mip_chain(
            rgba@,
            width as nat,
            height as nat,
        )[k],
{
    let ghost all = mip_chain(rgba@, width as nat, height as nat);
    let mut cur: Vec<u8> = Vec::new();
    cur.extend_from_slice(rgba);
    assert(cur@ =~= rgba@);
    let mut chain: Vec<Vec<u8>> = Vec::new();
    chain.push(cur.clone());
    let ghost mut done: Seq<Seq<u8>> = seq![rgba@];
    let mut w = width;
    let mut h = height;
    while w > 1 || h > 1
        invariant
            w >= 1,
            h >= 1,
            w * h <= 0x4000_0000,
            cur@.len() == w * h * 4,
            chain@.len() == done.len(),
            done.len() >= 1,
            forall|k: int| 0 <= k < chain@.len() ==> #[trigger] chain@[k]@ == done[k],
            all == mip_chain(rgba@, width as nat, height as nat),
            all == done.drop_last() + mip_chain(cur@, w as nat, h as nat),
            done.last() == cur@,
        decreases w + h,
    {
        let next = downsample_level(&cur, w, h);
        let nw: u32 = if w / 2 > 1 {
            w / 2
        } else {
            1
        };
        let nh: u32 = if h / 2 > 1 {
            h / 2
        } else {
            1
        };
        proof {
            assert(nw * nh <= w * h) by (nonlinear_arith)
                requires
                    1 <= nw <= w,
                    1 <= nh <= h,
            ;
            let tail = mip_chain(next@, nw as nat, nh as nat);
            assert(mip_chain(cur@, w as nat, h as nat) == seq![cur@] + tail);
            assert(done.drop_last() + (seq![cur@] + tail) =~= done.push(next@).drop_last() + tail) by {
                assert(tail[0] == next@);
            }
            assert(done.drop_last().push(cur@) =~= done);
            assert(done.push(next@).drop_last() =~= done);
        }
        chain.push(next.clone());
        proof {
            done = done.push(next@);
        }
        cur = next;
        w = nw;
        h = nh;
    }
    proof {
        assert(mip_chain(cur@, w as nat, h as nat) == seq![cur@]);
        assert(all =~= done);
    }
    chain
}

} // verus!
