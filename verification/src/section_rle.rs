//! Run-length encoding for 16³ section palettes and Y-layer occupancy masks.
//!
//! A palette is the flat `[u16; 4096]` block-id array of one section, indexed
//! `x + 16 * y + 256 * z`. The RLE form is a list of maximal runs in that scan
//! order; its wire form is `[u16 run_count][block:u16 count:u16]*`, little endian.

use vstd::prelude::*;

verus! {

/// Edge length of a section.
pub const SECTION_SIZE: usize = 16;

/// Number of voxels in a section.
pub const VOLUME: usize = 4096;

/// Flat block-id array of one section, indexed `x + 16 * y + 256 * z`.
pub type SectionPalette = [u16; 4096];

/// Flat index of voxel `(x, y, z)` in a section palette.
pub open spec fn palette_index(x: int, y: int, z: int) -> int {
    x + 16 * y + 256 * z
}

/// Flat index of voxel `(x, y, z)` in a section palette.
pub fn idx(x: usize, y: usize, z: usize) -> (i: usize)
    requires
        x < 16,
        y < 16,
        z < 16,
    ensures
        i == palette_index(x as int, y as int, z as int),
        i < VOLUME,
{
    x + y * 16 + z * 256
}

/// One contiguous run of identical block ids in palette scan order.
#[derive(Debug, Clone, Copy, PartialEq, Eq, Structural)]
pub struct RleRun {
    pub block: u16,
    pub count: u16,
}

/// RLE-compressed section palette.
#[derive(Debug, Clone, Default)]
pub struct RleSection {
    pub runs: Vec<RleRun>,
}

/// The voxels covered by one run.
pub open spec fn run_voxels(r: RleRun) -> Seq<u16> {
    Seq::new(r.count as nat, |_i: int| r.block)
}

/// The voxel sequence that a run list stands for.
pub open spec fn expand(runs: Seq<RleRun>) -> Seq<u16>
    decreases runs.len(),
{
    if runs.len() == 0 {
        Seq::empty()
    } else {
        expand(runs.drop_last()) + run_voxels(runs.last())
    }
}

/// Sum of the run lengths.
pub open spec fn total_count(runs: Seq<RleRun>) -> nat
    decreases runs.len(),
{
    if runs.len() == 0 {
        0
    } else {
        total_count(runs.drop_last()) + runs.last().count as nat
    }
}

/// Sum of the lengths of the runs whose block is not air (0).
pub open spec fn solid_count(runs: Seq<RleRun>) -> nat
    decreases runs.len(),
{
    if runs.len() == 0 {
        0
    } else {
        solid_count(runs.drop_last()) + if runs.last().block != 0 {
            runs.last().count as nat
        } else {
            0
        }
    }
}

/// Runs are maximal: no empty run, and neighbouring runs differ in block.
pub open spec fn is_canonical(runs: Seq<RleRun>) -> bool {
    &&& forall|i: int| 0 <= i < runs.len() ==> #[trigger] runs[i].count > 0
    &&& forall|i: int| 0 <= i < runs.len() - 1 ==> #[trigger] runs[i].block != runs[i + 1].block
}

/// Every run holds air.
pub open spec fn all_air(runs: Seq<RleRun>) -> bool {
    forall|i: int| 0 <= i < runs.len() ==> #[trigger] runs[i].block == 0
}

pub proof fn lemma_expand_len(runs: Seq<RleRun>)
    ensures
        expand(runs).len() == total_count(runs),
    decreases runs.len(),
{
    if runs.len() > 0 {
        lemma_expand_len(runs.drop_last());
    }
}

proof fn lemma_expand_push(runs: Seq<RleRun>, r: RleRun)
    ensures
        expand(runs.push(r)) == expand(runs) + run_voxels(r),
        total_count(runs.push(r)) == total_count(runs) + r.count,
        solid_count(runs.push(r)) == solid_count(runs) + if r.block != 0 {
            r.count as nat
        } else {
            0
        },
{
    assert(runs.push(r).drop_last() =~= runs);
}

proof fn lemma_run_voxels_grow(block: u16, count: u16)
    requires
        count < u16::MAX,
    ensures
        run_voxels(RleRun { block, count: (count + 1) as u16 }) == run_voxels(
            RleRun { block, count },
        ).push(block),
{
    assert(run_voxels(RleRun { block, count: (count + 1) as u16 }) =~= run_voxels(
        RleRun { block, count },
    ).push(block));
}

proof fn lemma_total_take_mono(runs: Seq<RleRun>, k: int)
    requires
        0 <= k <= runs.len(),
    ensures
        total_count(runs.take(k)) <= total_count(runs),
    decreases runs.len() - k,
{
    if k < runs.len() {
        lemma_total_take_step(runs, k);
        lemma_total_take_mono(runs, k + 1);
    } else {
        assert(runs.take(k) =~= runs);
    }
}

proof fn lemma_total_take_step(runs: Seq<RleRun>, k: int)
    requires
        0 <= k < runs.len(),
    ensures
        total_count(runs.take(k + 1)) == total_count(runs.take(k)) + runs[k].count,
        expand(runs.take(k + 1)) == expand(runs.take(k)) + run_voxels(runs[k]),
        solid_count(runs.take(k + 1)) == solid_count(runs.take(k)) + if runs[k].block != 0 {
            runs[k].count as nat
        } else {
            0
        },
{
    assert(runs.take(k + 1) =~= runs.take(k).push(runs[k]));
    lemma_expand_push(runs.take(k), runs[k]);
}

/// Decoding an encoding gives the palette back: a run list that expands to a
/// palette always has the total length that `decode` accepts, so decoding it
/// reproduces the palette.
pub proof fn lemma_encoding_is_decodable(runs: Seq<RleRun>, palette: Seq<u16>)
    requires
        expand(runs) == palette,
    ensures
        total_count(runs) == palette.len(),
{
    lemma_expand_len(runs);
}

impl RleSection {
    /// Encode a palette into maximal runs, in palette scan order.
    pub fn encode(palette: &SectionPalette) -> (r: Self)
        ensures
            expand(r.runs@) == palette@,
            is_canonical(r.runs@),
            total_count(r.runs@) == VOLUME,
    {
        let mut runs: Vec<RleRun> = Vec::with_capacity(64);
        let mut cur = palette[0];
        let mut count = 1u16;
        let mut i: usize = 1;
        assert(run_voxels(RleRun { block: cur, count }) =~= palette@.take(1));
        assert(expand(runs@) =~= Seq::<u16>::empty());
        assert(runs@.push(RleRun { block: cur, count }).drop_last() =~= runs@);
        while i < VOLUME
            invariant
                1 <= i <= VOLUME,
                1 <= count <= i,
                palette@.len() == VOLUME,
                cur == palette@[i - 1],
                expand(runs@.push(RleRun { block: cur, count })) == palette@.take(i as int),
                is_canonical(runs@.push(RleRun { block: cur, count })),
            decreases VOLUME - i,
        {
            let block = palette[i];
            let ghost old_runs = runs@;
            proof {
                lemma_expand_push(old_runs, RleRun { block: cur, count });
            }
            if block == cur && count < u16::MAX {
                proof {
                    lemma_run_voxels_grow(cur, count);
                    lemma_expand_push(old_runs, RleRun { block: cur, count: (count + 1) as u16 });
                    assert(palette@.take(i + 1) =~= palette@.take(i as int).push(block));
                }
                count += 1;
                let ghost nr = runs@.push(RleRun { block: cur, count });
                let ghost orr = old_runs.push(RleRun { block: cur, count: (count - 1) as u16 });
                assert forall|j: int| 0 <= j < nr.len() implies #[trigger] nr[j].count > 0 by {
                    if j < nr.len() - 1 {
                        assert(nr[j] == orr[j]);
                    }
                }
                assert forall|j: int| 0 <= j < nr.len() - 1 implies #[trigger] nr[j].block
                    != nr[j + 1].block by {
                    assert(nr[j] == orr[j]);
                    assert(nr[j + 1].block == orr[j + 1].block);
                }
                assert(expand(runs@.push(RleRun { block: cur, count })) =~= palette@.take(i + 1));
            } else {
                assert(block != cur);
                let ghost orr = old_runs.push(RleRun { block: cur, count });
                runs.push(RleRun { block: cur, count });
                assert(runs@ == orr);
                cur = block;
                count = 1;
                proof {
                    lemma_expand_push(runs@, RleRun { block: cur, count });
                    assert(run_voxels(RleRun { block: cur, count }) =~= seq![block]);
                    assert(palette@.take(i + 1) =~= palette@.take(i as int).push(block));
                }
                assert(expand(runs@.push(RleRun { block: cur, count })) =~= palette@.take(i + 1));
                let ghost nr = runs@.push(RleRun { block: cur, count });
                assert forall|j: int| 0 <= j < nr.len() implies #[trigger] nr[j].count > 0 by {
                    if j < nr.len() - 1 {
                        assert(nr[j] == orr[j]);
                    }
                }
                assert forall|j: int| 0 <= j < nr.len() - 1 implies #[trigger] nr[j].block
                    != nr[j + 1].block by {
                    assert(nr[j] == orr[j]);
                    if j + 1 < nr.len() - 1 {
                        assert(nr[j + 1] == orr[j + 1]);
                    }
                }
            }
            i += 1;
        }
        runs.push(RleRun { block: cur, count });
        assert(palette@.take(VOLUME as int) =~= palette@);
        proof {
            lemma_expand_len(runs@);
        }
        RleSection { runs }
    }
}


/// Two little-endian bytes of a 16-bit value.
pub open spec fn le16(x: int) -> Seq<u8> {
    seq![(x % 256) as u8, ((x / 256) % 256) as u8]
}

/// Little-endian 16-bit value read at `off`.
pub open spec fn read16(d: Seq<u8>, off: int) -> int {
    d[off] as int + 256 * (d[off + 1] as int)
}

/// Body bytes of the wire form: `block, count` per run.
pub open spec fn runs_bytes(runs: Seq<RleRun>) -> Seq<u8>
    decreases runs.len(),
{
    if runs.len() == 0 {
        Seq::empty()
    } else {
        runs_bytes(runs.drop_last()) + le16(runs.last().block as int) + le16(
            runs.last().count as int,
        )
    }
}

/// The wire form: run count (truncated to 16 bits), then the runs.
pub open spec fn wire_bytes(runs: Seq<RleRun>) -> Seq<u8> {
    le16(runs.len() as int % 65536) + runs_bytes(runs)
}

/// The `n` runs that a wire body of the right length encodes.
pub open spec fn parse_runs(d: Seq<u8>, n: nat) -> Seq<RleRun> {
    Seq::new(
        n,
        |k: int| RleRun { block: read16(d, 2 + 4 * k) as u16, count: read16(d, 4 + 4 * k) as u16 },
    )
}

/// What `from_bytes` accepts, and the runs it yields: the length must match the
/// header exactly and the run lengths must sum to a full section.
pub open spec fn parse_wire(d: Seq<u8>) -> Option<Seq<RleRun>> {
    if d.len() < 2 {
        None
    } else if d.len() != 2 + 4 * read16(d, 0) {
        None
    } else if total_count(parse_runs(d, read16(d, 0) as nat)) != VOLUME {
        None
    } else {
        Some(parse_runs(d, read16(d, 0) as nat))
    }
}

proof fn lemma_runs_bytes_shape(runs: Seq<RleRun>)
    ensures
        runs_bytes(runs).len() == 4 * runs.len(),
        forall|k: int|
            0 <= k < runs.len() ==> {
                &&& #[trigger] read16(runs_bytes(runs), 4 * k) == runs[k].block as int
                &&& read16(runs_bytes(runs), 4 * k + 2) == runs[k].count as int
            },
    decreases runs.len(),
{
    if runs.len() > 0 {
        let pre = runs.drop_last();
        lemma_runs_bytes_shape(pre);
        let b = runs_bytes(runs);
        let pb = runs_bytes(pre);
        assert forall|k: int| 0 <= k < runs.len() implies {
            &&& #[trigger] read16(runs_bytes(runs), 4 * k) == runs[k].block as int
            &&& read16(runs_bytes(runs), 4 * k + 2) == runs[k].count as int
        } by {
            if k < pre.len() {
                assert(b[4 * k] == pb[4 * k]);
                assert(b[4 * k + 1] == pb[4 * k + 1]);
                assert(b[4 * k + 2] == pb[4 * k + 2]);
                assert(b[4 * k + 3] == pb[4 * k + 3]);
                assert(pre[k] == runs[k]);
                assert(read16(pb, 4 * k) == pre[k].block as int);
                assert(read16(pb, 4 * k + 2) == pre[k].count as int);
            } else {
                let blk = runs.last().block as int;
                let cnt = runs.last().count as int;
                assert(k == pre.len());
                assert(b == pb + le16(blk) + le16(cnt));
                assert(b[4 * k] == (blk % 256) as u8);
                assert(b[4 * k + 1] == ((blk / 256) % 256) as u8);
                assert(b[4 * k + 2] == (cnt % 256) as u8);
                assert(b[4 * k + 3] == ((cnt / 256) % 256) as u8);
                assert(runs[k] == runs.last());
            }
        }
    }
}

/// A section serialized by `to_bytes` deserializes to the same runs, provided
/// its run count fits the 16-bit header and its runs cover exactly one section.
pub proof fn lemma_wire_roundtrip(runs: Seq<RleRun>)
    requires
        runs.len() <= u16::MAX,
        total_count(runs) == VOLUME,
    ensures
        parse_wire(wire_bytes(runs)) == Some(runs),
{
    let w = wire_bytes(runs);
    let n = runs.len();
    lemma_runs_bytes_shape(runs);
    assert(read16(w, 0) == n);
    assert forall|k: int| 0 <= k < n implies #[trigger] parse_runs(w, n)[k] == runs[k] by {
        let rb = runs_bytes(runs);
        assert(read16(rb, 4 * k) == runs[k].block as int);
        assert(read16(rb, 4 * k + 2) == runs[k].count as int);
        assert(w[2 + 4 * k] == rb[4 * k]);
        assert(w[3 + 4 * k] == rb[4 * k + 1]);
        assert(w[4 + 4 * k] == rb[4 * k + 2]);
        assert(w[5 + 4 * k] == rb[4 * k + 3]);
    }
    assert(parse_runs(w, n) =~= runs);
}

/// Voxel `(x, y, z)` of a palette is not air.
pub open spec fn cell_solid(p: Seq<u16>, x: int, y: int, z: int) -> bool {
    p[palette_index(x, y, z)] != 0
}

/// Some voxel of the X column `x` on layer `y` (any z) is not air.
pub open spec fn column_solid(p: Seq<u16>, x: int, y: int) -> bool {
    exists|z: int| 0 <= z < 16 && cell_solid(p, x, y, z)
}

/// Bit `k` of a 16-bit mask.
pub open spec fn bit16(m: u16, k: u16) -> bool {
    (m >> k) & 1u16 == 1u16
}

/// The per-layer masks of a palette: bit `x` of layer `y` is set exactly when
/// some voxel at that `(x, y)` is not air.
pub open spec fn is_layer_masks(p: Seq<u16>, m: Seq<u16>) -> bool {
    &&& m.len() == 16
    &&& forall|y: int, x: int|
        0 <= y < 16 && 0 <= x < 16 ==> (#[trigger] bit16(m[y], x as u16) <==> column_solid(
            p,
            x,
            y,
        ))
}

proof fn lemma_bit16_or(r: u16, x: u16, k: u16)
    requires
        x < 16,
        k < 16,
    ensures
        bit16(r | (1u16 << x), k) == (bit16(r, k) || k == x),
{
    assert(((r | (1u16 << x)) >> k) & 1u16 == 1u16 <==> (((r >> k) & 1u16 == 1u16) || k == x))
        by (bit_vector)
        requires
            x < 16,
            k < 16,
    ;
}

proof fn lemma_bit16_zero(k: u16)
    requires
        k < 16,
    ensures
        !bit16(0u16, k),
{
    assert((0u16 >> k) & 1u16 != 1u16) by (bit_vector);
}

/// Non-air flag per section, as a graph node id (`index * 8`) in order.
pub open spec fn occupied_indices(sections: Seq<RleSection>) -> Seq<u32>
    decreases sections.len(),
{
    if sections.len() == 0 {
        Seq::empty()
    } else {
        let pre = occupied_indices(sections.drop_last());
        if all_air(sections.last().runs@) {
            pre
        } else {
            pre.push(((sections.len() - 1) * 8) as u32)
        }
    }
}

impl RleSection {
    /// Expand the runs back into a palette.
    pub fn decode(&self) -> (out: SectionPalette)
        requires
            total_count(self.runs@) == VOLUME,
        ensures
            out@ == expand(self.runs@),
    {
        let mut out = [0u16; 4096];
        let mut i: usize = 0;
        let mut k: usize = 0;
        assert(self.runs@.take(0) =~= Seq::<RleRun>::empty());
        while k < self.runs.len()
            invariant
                k <= self.runs@.len(),
                total_count(self.runs@) == VOLUME,
                i == total_count(self.runs@.take(k as int)),
                i <= VOLUME,
                out@.len() == VOLUME,
                out@.take(i as int) == expand(self.runs@.take(k as int)),
            decreases self.runs@.len() - k,
        {
            let run = self.runs[k];
            proof {
                lemma_total_take_step(self.runs@, k as int);
                lemma_total_take_mono(self.runs@, k + 1);
            }
            let end = i + run.count as usize;
            let mut j = i;
            while j < end
                invariant
                    i <= j <= end,
                    end <= VOLUME,
                    out@.len() == VOLUME,
                    out@.take(i as int) == expand(self.runs@.take(k as int)),
                    forall|t: int| i <= t < j ==> #[trigger] out@[t] == run.block,
                decreases end - j,
            {
                let ghost before = out@;
                out[j] = run.block;
                assert(out@.take(i as int) =~= before.take(i as int));
                j += 1;
            }
            assert(out@.take(end as int) =~= out@.take(i as int) + run_voxels(run));
            i = end;
            k += 1;
        }
        assert(self.runs@.take(k as int) =~= self.runs@);
        assert(out@.take(VOLUME as int) =~= out@);
        out
    }

    /// True when every run holds air (block 0).
    pub fn is_empty(&self) -> (r: bool)
        ensures
            r == all_air(self.runs@),
    {
        let mut k: usize = 0;
        while k < self.runs.len()
            invariant
                k <= self.runs@.len(),
                forall|t: int| 0 <= t < k ==> #[trigger] self.runs@[t].block == 0,
            decreases self.runs@.len() - k,
        {
            if self.runs[k].block != 0 {
                return false;
            }
            k += 1;
        }
        true
    }

    /// True if every voxel is the block `block` (a single full run); an all-air
    /// section is never solid.
    pub fn is_solid(&self, block: u16) -> (r: bool)
        ensures
            r == (!all_air(self.runs@) && self.runs@.len() == 1 && self.runs@[0].block == block
                && self.runs@[0].count == VOLUME),
    {
        !self.is_empty() && self.runs.len() == 1 && self.runs[0].block == block
            && self.runs[0].count as usize == VOLUME
    }

    /// Count non-air voxels without a full decode.
    pub fn solid_voxel_count(&self) -> (r: u32)
        requires
            solid_count(self.runs@) <= u32::MAX,
        ensures
            r == solid_count(self.runs@),
    {
        let mut sum: u32 = 0;
        let mut k: usize = 0;
        assert(self.runs@.take(0) =~= Seq::<RleRun>::empty());
        while k < self.runs.len()
            invariant
                k <= self.runs@.len(),
                solid_count(self.runs@) <= u32::MAX,
                sum == solid_count(self.runs@.take(k as int)),
            decreases self.runs@.len() - k,
        {
            proof {
                lemma_total_take_step(self.runs@, k as int);
                lemma_solid_take_mono(self.runs@, k + 1);
            }
            if self.runs[k].block != 0 {
                sum = sum + self.runs[k].count as u32;
            }
            k += 1;
        }
        assert(self.runs@.take(k as int) =~= self.runs@);
        sum
    }

    /// Serialize to compact bytes: `[u16 run_count][block:u16 count:u16]*`.
    /// The run count is stored modulo 2^16.
    pub fn to_bytes(&self) -> (out: Vec<u8>)
        ensures
            out@ == wire_bytes(self.runs@),
    {
        let mut out: Vec<u8> = Vec::new();
        let n = self.runs.len() % 65536;
        out.push((n % 256) as u8);
        out.push((n / 256) as u8);
        let mut k: usize = 0;
        assert(self.runs@.take(0) =~= Seq::<RleRun>::empty());
        assert(out@ =~= le16(self.runs@.len() as int % 65536) + runs_bytes(
            self.runs@.take(0),
        ));
        while k < self.runs.len()
            invariant
                k <= self.runs@.len(),
                out@ == le16(self.runs@.len() as int % 65536) + runs_bytes(
                    self.runs@.take(k as int),
                ),
            decreases self.runs@.len() - k,
        {
            let r = self.runs[k];
            out.push((r.block % 256) as u8);
            out.push((r.block / 256) as u8);
            out.push((r.count % 256) as u8);
            out.push((r.count / 256) as u8);
            assert(self.runs@.take(k + 1).drop_last() =~= self.runs@.take(k as int));
            assert(out@ =~= le16(self.runs@.len() as int % 65536) + runs_bytes(
                self.runs@.take(k + 1),
            ));
            k += 1;
        }
        assert(self.runs@.take(k as int) =~= self.runs@);
        out
    }

    /// Strict wire decoding: the byte length must equal the header's run count
    /// exactly (no trailing bytes) and the counts must sum to one section.
    pub fn from_bytes(data: &[u8]) -> (r: Option<Self>)
        ensures
            r is Some <==> parse_wire(data@) is Some,
            r matches Some(sec) ==> sec.runs@ == parse_wire(data@)->0,
    {
        if data.len() < 2 {
            return None;
        }
        let run_count = data[0] as usize + 256 * data[1] as usize;
        assert(run_count == read16(data@, 0));
        let need = 2 + run_count * 4;
        if data.len() != need {
            return None;
        }
        let ghost target = parse_runs(data@, run_count as nat);
        let mut runs: Vec<RleRun> = Vec::new();
        let mut k: usize = 0;
        let mut off: usize = 2;
        let mut total: u64 = 0;
        assert(target.take(0) =~= Seq::<RleRun>::empty());
        while k < run_count
            invariant
                k <= run_count,
                run_count <= u16::MAX,
                data@.len() == 2 + 4 * run_count,
                off == 2 + 4 * k,
                target == parse_runs(data@, run_count as nat),
                runs@ == target.take(k as int),
                total == total_count(runs@),
                total <= k * 65535,
            decreases run_count - k,
        {
            let block = data[off] as u16 + 256 * data[off + 1] as u16;
            let count = data[off + 2] as u16 + 256 * data[off + 3] as u16;
            proof {
                lemma_expand_push(runs@, RleRun { block, count });
            }
            runs.push(RleRun { block, count });
            assert(target[k as int] == RleRun { block, count });
            assert(runs@ =~= target.take(k + 1));
            total = total + count as u64;
            off += 4;
            k += 1;
        }
        assert(target.take(k as int) =~= target);
        if total != VOLUME as u64 {
            return None;
        }
        Some(RleSection { runs })
    }
}

proof fn lemma_solid_take_mono(runs: Seq<RleRun>, k: int)
    requires
        0 <= k <= runs.len(),
    ensures
        solid_count(runs.take(k)) <= solid_count(runs),
    decreases runs.len() - k,
{
    if k < runs.len() {
        lemma_total_take_step(runs, k);
        lemma_solid_take_mono(runs, k + 1);
    } else {
        assert(runs.take(k) =~= runs);
    }
}

/// Per-Y layer masks of a palette: bit `x` of entry `y` is set when any voxel
/// of the column `(x, y, *)` is not air.
pub fn layer_masks_from_palette(palette: &SectionPalette) -> (m: [u16; 16])
    ensures
        is_layer_masks(palette@, m@),
{
    let mut combined = [0u16; 16];
    let mut y: usize = 0;
    while y < SECTION_SIZE
        invariant
            y <= 16,
            palette@.len() == VOLUME,
            combined@.len() == 16,
            forall|yy: int, x: int|
                0 <= yy < y && 0 <= x < 16 ==> (#[trigger] bit16(combined@[yy], x as u16)
                    <==> column_solid(palette@, x, yy)),
        decreases 16 - y,
    {
        let mut row = 0u16;
        let mut z: usize = 0;
        assert forall|k: int| 0 <= k < 16 implies !#[trigger] bit16(row, k as u16) by {
            lemma_bit16_zero(k as u16);
        }
        while z < SECTION_SIZE
            invariant
                y < 16,
                z <= 16,
                palette@.len() == VOLUME,
                forall|k: int|
                    0 <= k < 16 ==> (#[trigger] bit16(row, k as u16) <==> exists|zz: int|
                        0 <= zz < z && cell_solid(palette@, k, y as int, zz)),
            decreases 16 - z,
        {
            let mut x: usize = 0;
            while x < SECTION_SIZE
                invariant
                    y < 16,
                    z < 16,
                    x <= 16,
                    palette@.len() == VOLUME,
                    forall|k: int|
                        0 <= k < 16 ==> (#[trigger] bit16(row, k as u16) <==> ((exists|zz: int|
                            0 <= zz < z && cell_solid(palette@, k, y as int, zz)) || (k < x
                            && cell_solid(palette@, k, y as int, z as int)))),
                decreases 16 - x,
            {
                let i = x + y * 16 + z * 256;
                let ghost old_row = row;
                if palette[i] != 0 {
                    row = row | (1u16 << x as u16);
                    assert forall|k: int| 0 <= k < 16 implies #[trigger] bit16(row, k as u16) == (
                    bit16(old_row, k as u16) || k == x) by {
                        lemma_bit16_or(old_row, x as u16, k as u16);
                    }
                }
                x += 1;
            }
            assert forall|k: int| 0 <= k < 16 implies (#[trigger] bit16(row, k as u16) <==> exists|
                zz: int,
            | 0 <= zz < z + 1 && cell_solid(palette@, k, y as int, zz)) by {
                if cell_solid(palette@, k, y as int, z as int) {
                    assert(0 <= z < z + 1);
                }
            }
            z += 1;
        }
        let ghost old_c = combined@;
        combined[y] = row;
        assert forall|yy: int, x: int| 0 <= yy < y + 1 && 0 <= x < 16 implies (
        #[trigger] bit16(combined@[yy], x as u16) <==> column_solid(palette@, x, yy)) by {
            if yy < y {
                assert(combined@[yy] == old_c[yy]);
            }
        }
        y += 1;
    }
    combined
}

/// Per-Y layer masks of an RLE section (decodes it first).
pub fn layer_masks_from_rle(rle: &RleSection) -> (m: [u16; 16])
    requires
        total_count(rle.runs@) == VOLUME,
    ensures
        is_layer_masks(expand(rle.runs@), m@),
{
    let palette = rle.decode();
    layer_masks_from_palette(&palette)
}

/// Graph node ids (`index * 8`) of the sections that hold anything but air,
/// in section order.
pub fn occupied_section_indices(sections: &[RleSection]) -> (out: Vec<u32>)
    requires
        sections@.len() * 8 <= u32::MAX,
    ensures
        out@ == occupied_indices(sections@),
{
    let mut out: Vec<u32> = Vec::new();
    let mut i: usize = 0;
    assert(sections@.take(0) =~= Seq::<RleSection>::empty());
    while i < sections.len()
        invariant
            i <= sections@.len(),
            sections@.len() * 8 <= u32::MAX,
            out@ == occupied_indices(sections@.take(i as int)),
        decreases sections@.len() - i,
    {
        assert(sections@.take(i + 1).drop_last() =~= sections@.take(i as int));
        if !sections[i].is_empty() {
            out.push((i as u32) * 8);
        }
        i += 1;
    }
    assert(sections@.take(i as int) =~= sections@);
    out
}

} // verus!
