//! Hybrid section storage: a single block id for uniform sections, run-length
//! encoding for sections near the camera, LZ4 for cold distant columns.

use vstd::prelude::*;
use crate::section_rle::{
    all_air, expand, is_canonical, lemma_expand_len, run_voxels, total_count, RleRun, RleSection,
    SectionPalette, VOLUME,
};

verus! {

/// Memory-efficient section payload.
#[derive(Debug, Clone)]
pub enum CompactSection {
    Single(u16),
    Rle(RleSection),
    Lz4(Vec<u8>),
}

/// What `lz4_flex::decompress_size_prepended` yields for `data` (`None` for
/// its error).
pub uninterp spec fn lz4_decompressed(data: Seq<u8>) -> Option<Seq<u8>>;

/// `lz4_flex::compress_prepend_size`: LZ4 block with the input length
/// prepended; `decompress_size_prepended` restores the input from it. The
/// compressed bytes themselves depend on the target (pointer width and byte
/// order pick the match finder's hashing), so only the round trip is
/// stated. Inputs are at most one section's bytes, far below the sizes at
/// which the output bound overflows on 32-bit targets.
#[verifier::external_body]
fn lz4_compress(data: &[u8]) -> (r: Vec<u8>)
    requires
        data@.len() <= 2 * VOLUME,
    ensures
        lz4_decompressed(r@) == Some(data@),
{
    lz4_flex::compress_prepend_size(data)
}

/// `lz4_flex::decompress_size_prepended`, its error mapped to `None`.
#[verifier::external_body]
fn lz4_decompress(data: &[u8]) -> (r: Option<Vec<u8>>)
    ensures
        match r {
            Some(v) => lz4_decompressed(data@) == Some(v@),
            None => lz4_decompressed(data@) is None,
        },
{
    lz4_flex::decompress_size_prepended(data).ok()
}

/// The two bytes of `w` in one of the two byte orders.
pub open spec fn bytes_of_word(w: u16, lo: u8, hi: u8) -> bool {
    w == lo as int + hi as int * 256 || w == hi as int + lo as int * 256
}

/// `bytemuck::cast_slice::<u16, u8>`: the words' bytes in memory order (the
/// target's byte order, which is not stated).
#[verifier::external_body]
fn words_as_bytes(words: &[u16]) -> (r: Vec<u8>)
    ensures
        r@.len() == 2 * words@.len(),
        forall|i: int| 0 <= i < words@.len() ==> #[trigger] bytes_of_word(words@[i], r@[2 * i], r@[2 * i + 1]),
{
    let bytes: &[u8] = bytemuck::cast_slice(words);
    bytes.to_vec()
}

/// `bytemuck::try_cast_slice::<u8, u16>`: the bytes read as words in memory
/// order, or `None` where the length is odd or the buffer is not aligned for
/// `u16` (which depends on the allocation, so is not stated).
#[verifier::external_body]
fn bytes_as_words(bytes: &[u8]) -> (r: Option<Vec<u16>>)
    ensures
        r matches Some(w) ==> 2 * w@.len() == bytes@.len() && forall|i: int|
            0 <= i < w@.len() ==> #[trigger] bytes_of_word(w@[i], bytes@[2 * i], bytes@[2 * i + 1]),
        bytes@.len() % 2 == 1 ==> r is None,
{
    match bytemuck::try_cast_slice::<u8, u16>(bytes) {
        Ok(w) => Some(w.to_vec()),
        Err(_) => None,
    }
}

/// Every voxel holds the first one's block.
pub open spec fn uniform(p: Seq<u16>) -> bool {
    forall|i: int| 0 <= i < p.len() ==> #[trigger] p[i] == p[0]
}

fn all_same(palette: &SectionPalette) -> (r: bool)
    ensures
        r == uniform(palette@),
{
    let first = palette[0];
    let mut i: usize = 0;
    while i < VOLUME
        invariant
            i <= VOLUME,
            first == palette@[0],
            forall|j: int| 0 <= j < i ==> #[trigger] palette@[j] == first,
        decreases VOLUME - i,
    {
        if palette[i] != first {
            return false;
        }
        i += 1;
    }
    true
}

/// Number of maximal runs of equal blocks in `p`.
pub open spec fn run_count(p: Seq<u16>) -> nat
    decreases p.len(),
{
    if p.len() == 0 {
        0
    } else if p.len() == 1 {
        1
    } else {
        run_count(p.drop_last()) + if p.last() != p[p.len() - 2] {
            1nat
        } else {
            0nat
        }
    }
}

proof fn lemma_run_count_append(a: Seq<u16>, v: u16, k: nat)
    requires
        k > 0,
    ensures
        run_count(a + Seq::new(k, |_i: int| v)) == run_count(a) + if a.len() == 0 || a.last() != v {
            1nat
        } else {
            0nat
        },
    decreases k,
{
    let c = Seq::new(k, |_i: int| v);
    if k == 1 {
        assert((a + c).drop_last() =~= a);
    } else {
        let c1 = Seq::new((k - 1) as nat, |_i: int| v);
        lemma_run_count_append(a, v, (k - 1) as nat);
        assert((a + c).drop_last() =~= a + c1);
        assert((a + c)[(a + c).len() - 2] == v);
    }
}

proof fn lemma_expand_last(runs: Seq<RleRun>)
    requires
        runs.len() > 0,
        is_canonical(runs),
    ensures
        expand(runs).len() > 0,
        expand(runs).last() == runs.last().block,
{
    assert(runs[runs.len() - 1].count > 0);
    assert(expand(runs) == expand(runs.drop_last()) + run_voxels(runs.last()));
}

/// A canonical run list has as many runs as its voxels have maximal runs.
pub proof fn lemma_canonical_run_count(runs: Seq<RleRun>)
    requires
        is_canonical(runs),
    ensures
        runs.len() == run_count(expand(runs)),
    decreases runs.len(),
{
    if runs.len() > 0 {
        let r0 = runs.drop_last();
        assert(is_canonical(r0)) by {
            assert forall|i: int| 0 <= i < r0.len() implies #[trigger] r0[i].count > 0 by {
                assert(runs[i].count > 0);
            }
            assert forall|i: int| 0 <= i < r0.len() - 1 implies #[trigger] r0[i].block != r0[i + 1].block by {
                assert(runs[i].block != runs[i + 1].block);
            }
        }
        lemma_canonical_run_count(r0);
        let last = runs.last();
        assert(last.count > 0) by {
            assert(runs[runs.len() - 1].count > 0);
        }
        assert(run_voxels(last) =~= Seq::new(last.count as nat, |_i: int| last.block));
        lemma_run_count_append(expand(r0), last.block, last.count as nat);
        if r0.len() > 0 {
            lemma_expand_last(r0);
            assert(runs[runs.len() - 2].block != runs[runs.len() - 1].block);
        } else {
            assert(expand(r0).len() == 0);
        }
    }
}

/// `Lz4(c)` decompresses to a byte image of `p`.
pub open spec fn is_cold_image(c: Seq<u8>, p: Seq<u16>) -> bool {
    lz4_decompressed(c) matches Some(b) && b.len() == 2 * p.len() && forall|i: int|
        0 <= i < p.len() ==> #[trigger] bytes_of_word(p[i], b[2 * i], b[2 * i + 1])
}

/// What [`CompactSection::encode_cold`] yields: `Single` for a uniform
/// palette, else LZ4 of its bytes.
pub open spec fn cold_form(s: CompactSection, p: Seq<u16>) -> bool {
    if uniform(p) {
        s == CompactSection::Single(p[0])
    } else {
        s matches CompactSection::Lz4(c) && is_cold_image(c@, p)
    }
}

/// What [`CompactSection::encode_hot`] yields: `Single` for a uniform
/// palette, else the canonical run list while it has fewer than `VOLUME / 4`
/// runs, else LZ4 of its bytes.
pub open spec fn hot_form(s: CompactSection, p: Seq<u16>) -> bool {
    if uniform(p) {
        s == CompactSection::Single(p[0])
    } else if run_count(p) * 4 < VOLUME {
        s matches CompactSection::Rle(r) && expand(r.runs@) == p && is_canonical(r.runs@)
    } else {
        s matches CompactSection::Lz4(c) && is_cold_image(c@, p)
    }
}

/// Air test of a stored section: `Single(0)` or a run list of air only.
pub open spec fn air(s: CompactSection) -> bool {
    match s {
        CompactSection::Single(id) => id == 0,
        CompactSection::Rle(r) => all_air(r.runs@),
        CompactSection::Lz4(_) => false,
    }
}

/// Every voxel is air.
pub open spec fn all_zero(p: Seq<u16>) -> bool {
    forall|i: int| 0 <= i < p.len() ==> #[trigger] p[i] == 0
}

proof fn lemma_all_air_expand(runs: Seq<RleRun>)
    requires
        forall|i: int| 0 <= i < runs.len() ==> #[trigger] runs[i].count > 0,
    ensures
        all_air(runs) <==> all_zero(expand(runs)),
    decreases runs.len(),
{
    if runs.len() > 0 {
        let r0 = runs.drop_last();
        assert forall|i: int| 0 <= i < r0.len() implies #[trigger] r0[i].count > 0 by {
            assert(runs[i].count > 0);
        }
        lemma_all_air_expand(r0);
        lemma_expand_len(r0);
        let e0 = expand(r0);
        let lv = run_voxels(runs.last());
        assert(expand(runs) == e0 + lv);
        if all_air(runs) {
            assert forall|i: int| 0 <= i < r0.len() implies #[trigger] r0[i].block == 0 by {
                assert(runs[i].block == 0);
            }
            assert(runs[runs.len() - 1].block == 0);
            assert forall|i: int| 0 <= i < expand(runs).len() implies #[trigger] expand(runs)[i] == 0 by {
                if i < e0.len() {
                    assert(e0[i] == 0);
                }
            }
        }
        if all_zero(expand(runs)) {
            assert forall|i: int| 0 <= i < e0.len() implies #[trigger] e0[i] == 0 by {
                assert(expand(runs)[i] == 0);
            }
            assert(runs[runs.len() - 1].count > 0);
            assert(expand(runs)[e0.len() as int] == runs.last().block);
            assert forall|i: int| 0 <= i < runs.len() implies #[trigger] runs[i].block == 0 by {
                if i < r0.len() {
                    assert(r0[i].block == 0);
                }
            }
        }
    }
}

/// An encoded section is air exactly when every voxel of its palette is.
pub proof fn lemma_encoded_air(s: CompactSection, p: Seq<u16>)
    requires
        p.len() == VOLUME,
        hot_form(s, p) || cold_form(s, p),
    ensures
        air(s) <==> all_zero(p),
{
    if uniform(p) {
        if p[0] == 0 {
            assert forall|i: int| 0 <= i < p.len() implies #[trigger] p[i] == 0 by {
                assert(p[i] == p[0]);
            }
        }
    } else {
        if all_zero(p) {
            assert forall|i: int| 0 <= i < p.len() implies #[trigger] p[i] == p[0] by {
                assert(p[i] == 0);
                assert(p[0] == 0);
            }
        }
        if let CompactSection::Rle(r) = s {
            lemma_all_air_expand(r.runs@);
        }
    }
}

/// The voxels a stored section decodes to, for `Single` and `Rle`.
pub open spec fn decoded_voxels(s: CompactSection) -> Seq<u16>
    recommends
        !(s is Lz4),
{
    match s {
        CompactSection::Single(id) => Seq::new(VOLUME as nat, |_i: int| id),
        CompactSection::Rle(r) => expand(r.runs@),
        CompactSection::Lz4(_) => Seq::empty(),
    }
}

/// The palette held by a word buffer: its first `VOLUME` words, air where
/// it is shorter.
pub fn palette_from_words(words: &[u16]) -> (out: SectionPalette)
    ensures
        forall|i: int| 0 <= i < VOLUME ==> #[trigger] out@[i] == if i < words@.len() {
            words@[i]
        } else {
            0u16
        },
{
    let mut out = [0u16; 4096];
    let n = if words.len() < VOLUME {
        words.len()
    } else {
        VOLUME
    };
    let mut i: usize = 0;
    while i < n
        invariant
            i <= n,
            n <= words@.len(),
            n == words@.len() || n == VOLUME,
            n <= VOLUME,
            out@.len() == VOLUME,
            forall|j: int| 0 <= j < i ==> out@[j] == words@[j],
            forall|j: int| i <= j < VOLUME ==> out@[j] == 0,
        decreases n - i,
    {
        out.set(i, words[i]);
        i += 1;
    }
    out
}

impl CompactSection {
    /// Hot-path encode: `Single` for a uniform palette, else its run-length
    /// encoding, unless that has `VOLUME / 4` runs or more, in which case
    /// the cold (LZ4) form.
    pub fn encode_hot(palette: &SectionPalette) -> (s: Self)
        ensures
            hot_form(s, palette@),
            uniform(palette@) ==> s == CompactSection::Single(palette@[0]),
            !uniform(palette@) ==> (s is Rle <==> run_count(palette@) * 4 < VOLUME),
            !uniform(palette@) ==> match s {
                CompactSection::Rle(r) => expand(r.runs@) == palette@ && is_canonical(r.runs@) && r.runs@.len() * 4 < VOLUME,
                CompactSection::Lz4(c) => is_cold_image(c@, palette@),
                CompactSection::Single(_) => false,
            },
    {
        if all_same(palette) {
            return CompactSection::Single(palette[0]);
        }
        let rle = RleSection::encode(palette);
        proof {
            lemma_canonical_run_count(rle.runs@);
        }
        if rle.runs.len() >= VOLUME / 4 {
            return Self::encode_cold(palette);
        }
        CompactSection::Rle(rle)
    }

    /// Cold-path encode: `Single` for a uniform palette, else LZ4 of the
    /// palette's bytes.
    pub fn encode_cold(palette: &SectionPalette) -> (s: Self)
        ensures
            cold_form(s, palette@),
    {
        if all_same(palette) {
            return CompactSection::Single(palette[0]);
        }
        let bytes = words_as_bytes(palette.as_slice());
        let c = lz4_compress(bytes.as_slice());
        proof {
            assert(is_cold_image(c@, palette@));
        }
        CompactSection::Lz4(c)
    }

    /// A stored `Rle` payload covers exactly `VOLUME` voxels.
    pub open spec fn decodable(self) -> bool {
        self matches CompactSection::Rle(r) ==> total_count(r.runs@) == VOLUME
    }

    /// Expands to a palette. An LZ4 payload that does not decompress, or
    /// whose bytes cannot be read as words, decodes to all air; otherwise
    /// every word is decoded, extra words are ignored and missing ones are
    /// air.
    pub fn decode(&self) -> (out: SectionPalette)
        requires
            self.decodable(),
        ensures
            !(self is Lz4) ==> out@ == decoded_voxels(*self),
            self matches CompactSection::Lz4(buf) ==> (lz4_decompressed(buf@) is None ==> out@ == Seq::new(
                VOLUME as nat,
                |_i: int| 0u16,
            )),
            self matches CompactSection::Lz4(buf) ==> (out@ == Seq::new(VOLUME as nat, |_i: int| 0u16) || (
            lz4_decompressed(buf@) matches Some(raw) && forall|i: int|
                0 <= i < VOLUME ==> if 2 * i + 1 < raw.len() {
                    #[trigger] bytes_of_word(out@[i], raw[2 * i], raw[2 * i + 1])
                } else {
                    out@[i] == 0
                })),
    {
        match self {
            CompactSection::Single(id) => {
                let out = [*id; 4096];
                assert(out@ =~= Seq::new(VOLUME as nat, |_i: int| *id));
                out
            },
            CompactSection::Rle(r) => r.decode(),
            CompactSection::Lz4(buf) => {
                let mut out = [0u16; 4096];
                match lz4_decompress(buf.as_slice()) {
                    Some(raw) => {
                        match bytes_as_words(raw.as_slice()) {
                            Some(words) => {
                                out = palette_from_words(words.as_slice());
                                assert forall|j: int| 0 <= j < VOLUME implies if 2 * j + 1 < raw@.len() {
                                    #[trigger] bytes_of_word(out@[j], raw@[2 * j], raw@[2 * j + 1])
                                } else {
                                    out@[j] == 0
                                } by {
                                    if j < words@.len() {
                                        assert(bytes_of_word(words@[j], raw@[2 * j], raw@[2 * j + 1]));
                                    }
                                }
                            },
                            None => {
                                assert(out@ =~= Seq::new(VOLUME as nat, |_i: int| 0u16));
                            },
                        }
                    },
                    None => {
                        assert(out@ =~= Seq::new(VOLUME as nat, |_i: int| 0u16));
                    },
                }
                assert(out@.len() == VOLUME);
                out
            },
        }
    }

    /// Bytes held: 2 for `Single`, 2 + 4 per run for `Rle`, the buffer for
    /// `Lz4`.
    pub fn stored_bytes(&self) -> (n: usize)
        requires
            self matches CompactSection::Rle(r) ==> 2 + 4 * r.runs@.len() <= usize::MAX,
        ensures
            n == match *self {
                CompactSection::Single(_) => 2,
                CompactSection::Rle(r) => 2 + 4 * r.runs@.len(),
                CompactSection::Lz4(b) => b@.len(),
            },
    {
        match self {
            CompactSection::Single(_) => 2,
            CompactSection::Rle(r) => 2 + r.runs.len() * 4,
            CompactSection::Lz4(b) => b.len(),
        }
    }

    /// Air test: `Single(0)` and all-air run lists; an LZ4 payload counts as
    /// not air (uniform palettes are never stored as LZ4).
    pub fn is_air(&self) -> (b: bool)
        ensures
            b == air(*self),
            b == match *self {
                CompactSection::Single(id) => id == 0,
                CompactSection::Rle(r) => all_air(r.runs@),
                CompactSection::Lz4(_) => false,
            },
    {
        match self {
            CompactSection::Single(id) => *id == 0,
            CompactSection::Rle(r) => r.is_empty(),
            CompactSection::Lz4(_) => false,
        }
    }

    /// Re-encodes for cold storage: run-length payloads become the cold form
    /// of their palette; the others are copied.
    pub fn to_cold(&self) -> (s: Self)
        requires
            self.decodable(),
        ensures
            match *self {
                CompactSection::Single(id) => s == CompactSection::Single(id),
                CompactSection::Lz4(b) => s matches CompactSection::Lz4(c) && c@ == b@,
                CompactSection::Rle(r) => cold_form(s, expand(r.runs@)),
            },
    {
        match self {
            CompactSection::Single(id) => CompactSection::Single(*id),
            CompactSection::Lz4(b) => {
                let mut c: Vec<u8> = Vec::new();
                c.extend_from_slice(b.as_slice());
                assert(c@ =~= b@);
                CompactSection::Lz4(c)
            },
            CompactSection::Rle(r) => {
                let p = r.decode();
                Self::encode_cold(&p)
            },
        }
    }
}

/// An air section decodes to air: `is_air` holds only of payloads whose
/// voxels are all 0.
pub proof fn lemma_air_decodes_to_air(s: CompactSection)
    requires
        s.decodable(),
        match s {
            CompactSection::Single(id) => id == 0,
            CompactSection::Rle(r) => all_air(r.runs@),
            CompactSection::Lz4(_) => false,
        },
    ensures
        forall|i: int| 0 <= i < VOLUME ==> #[trigger] decoded_voxels(s)[i] == 0,
{
    match s {
        CompactSection::Single(id) => {},
        CompactSection::Rle(r) => {
            lemma_all_air_expands_to_air(r.runs@);
            lemma_expand_len(r.runs@);
        },
        CompactSection::Lz4(_) => {},
    }
}

proof fn lemma_all_air_expands_to_air(runs: Seq<crate::section_rle::RleRun>)
    requires
        all_air(runs),
    ensures
        forall|i: int| 0 <= i < expand(runs).len() ==> #[trigger] expand(runs)[i] == 0,
    decreases runs.len(),
{
    if runs.len() > 0 {
        let init = runs.drop_last();
        assert(all_air(init)) by {
            assert forall|i: int| 0 <= i < init.len() implies #[trigger] init[i].block == 0 by {
                assert(init[i] == runs[i]);
            }
        }
        lemma_all_air_expands_to_air(init);
        let e = expand(runs);
        assert(e == expand(init) + run_voxels(runs.last()));
        assert(runs.last().block == 0);
    }
}

} // verus!
