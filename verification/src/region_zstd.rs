//! Region files: 32x32 chunks per region, an 8 KiB header (location table and
//! timestamps) and 4 KiB-sector aligned chunk records, with zstd level
//! selection by machine class.

use vstd::prelude::*;
use crate::text::{decimal, format_number_between};

verus! {

/// Chunks per region (32 x 32).
pub const REGION_CHUNKS: usize = 1024;

/// Location table (4096 B) and timestamps (4096 B).
pub const HEADER_BYTES: usize = 8192;

pub const SECTOR: usize = 4096;

/// Compression policy.
#[derive(Debug, Clone, Copy, PartialEq, Eq, Structural)]
pub enum CodecChoice {
    /// Raw bytes.
    Stored,
    /// zstd level 1.
    ZstdFast,
    /// zstd level 3.
    ZstdBalanced,
    /// zstd level 19.
    ZstdArchive,
}

/// zstd level of a policy (`None` = stored raw).
pub open spec fn spec_level(c: CodecChoice) -> Option<i32> {
    match c {
        CodecChoice::Stored => None,
        CodecChoice::ZstdFast => Some(1),
        CodecChoice::ZstdBalanced => Some(3),
        CodecChoice::ZstdArchive => Some(19),
    }
}

/// The zstd level of each policy: raw bytes for `Stored`, then levels 1, 3
/// and 19.
pub proof fn lemma_policy_levels()
    ensures
        spec_level(CodecChoice::Stored) is None,
        spec_level(CodecChoice::ZstdFast) == Some(1i32),
        spec_level(CodecChoice::ZstdBalanced) == Some(3i32),
        spec_level(CodecChoice::ZstdArchive) == Some(19i32),
{
}

impl CodecChoice {
    /// Low-end machines (at most two cores, or battery saving) get the
    /// fastest level, others the balanced one.
    pub fn auto(logical_cores: usize, battery_saver: bool) -> (c: Self)
        ensures
            c == if battery_saver || logical_cores <= 2 {
                CodecChoice::ZstdFast
            } else {
                CodecChoice::ZstdBalanced
            },
    {
        if battery_saver || logical_cores <= 2 {
            CodecChoice::ZstdFast
        } else {
            CodecChoice::ZstdBalanced
        }
    }

    fn zstd_level(&self) -> (l: Option<i32>)
        ensures
            l == spec_level(*self),
            *self == CodecChoice::Stored ==> l is None,
            *self == CodecChoice::ZstdFast ==> l == Some(1i32),
            *self == CodecChoice::ZstdBalanced ==> l == Some(3i32),
            *self == CodecChoice::ZstdArchive ==> l == Some(19i32),
    {
        match self {
            CodecChoice::Stored => None,
            CodecChoice::ZstdFast => Some(1),
            CodecChoice::ZstdBalanced => Some(3),
            CodecChoice::ZstdArchive => Some(19),
        }
    }
}

/// One entry of the location table.
#[derive(Debug, Clone, Copy, Default, PartialEq, Eq, Structural)]
pub struct Location {
    pub offset_sectors: u32,
    pub sectors: u32,
}

/// What `zstd::stream::encode_all` yields for `data` at `level`.
pub uninterp spec fn zstd_frame(data: Seq<u8>, level: i32) -> Option<Seq<u8>>;

/// `zstd::stream::encode_all` over an in-memory reader: the compressed frame,
/// or `None` where the encoder reports an error.
#[verifier::external_body]
fn zstd_encode(raw: &[u8], level: i32) -> (r: Option<Vec<u8>>)
    ensures
        match r {
            Some(v) => zstd_frame(raw@, level) == Some(v@),
            None => zstd_frame(raw@, level) is None,
        },
{
    zstd::stream::encode_all(std::io::Cursor::new(raw), level).ok()
}

/// `zstd::stream::decode_all` over an in-memory reader. A frame that
/// `encode_all` produced decodes to the data it was made from; for other
/// input nothing is stated.
#[verifier::external_body]
fn zstd_decode(body: &[u8]) -> (r: Option<Vec<u8>>)
    ensures
        r is None ==> forall|d: Seq<u8>, l: i32| #[trigger] zstd_frame(d, l) != Some(body@),
        r matches Some(v) ==> forall|d: Seq<u8>, l: i32|
            #[trigger] zstd_frame(d, l) == Some(body@) ==> v@ == d,
{
    zstd::stream::decode_all(std::io::Cursor::new(body)).ok()
}

/// Text of the sector-limit error of [`RegionCodec::build_file_checked`]:
/// `chunk {chunk} uses {sectors} sectors > 255-sector vanilla limit`.
pub open spec fn sector_limit_message(chunk: usize, sectors: usize) -> Seq<char> {
    "chunk "@ + decimal(chunk as nat) + " uses "@ + decimal(sectors as nat) + " sectors > 255-sector vanilla limit"@
}

fn format_sector_limit_message(chunk: usize, sectors: usize) -> (s: String)
    ensures
        s@ == sector_limit_message(chunk, sectors),
{
    let head = format_number_between("chunk ", chunk, " uses ");
    let s = format_number_between(head.as_str(), sectors, " sectors > 255-sector vanilla limit");
    assert(s@ =~= sector_limit_message(chunk, sectors));
    s
}

/// Region codec: chunks are kept in memory and written out in one go.
pub struct RegionCodec {
    pub choice: CodecChoice,
    chunks: Vec<Option<Vec<u8>>>,
    /// The raw data of each stored chunk.
    raw_chunks: Ghost<Seq<Option<Seq<u8>>>>,
}

/// Big-endian bytes of a 32-bit value.
pub open spec fn be32(v: int) -> Seq<u8> {
    seq![
        ((v / 0x100_0000) % 256) as u8,
        ((v / 0x1_0000) % 256) as u8,
        ((v / 0x100) % 256) as u8,
        (v % 256) as u8,
    ]
}

/// Sectors taken by the record of a chunk body of `len` bytes.
pub open spec fn record_sectors(len: int) -> int {
    (len + 5 + SECTOR - 1) / (SECTOR as int)
}

/// The record of a chunk body: its length + 1 (big endian), a format byte,
/// the body, zero padding to the next sector boundary.
pub open spec fn record(body: Seq<u8>, fmt: u8) -> Seq<u8> {
    be32(body.len() as int + 1) + seq![fmt] + body + Seq::new(
        (record_sectors(body.len() as int) * SECTOR - (body.len() + 5)) as nat,
        |_i: int| 0u8,
    )
}

/// Format byte of a policy: 1 for stored, 2 for zstd.
pub open spec fn format_byte(c: CodecChoice) -> u8 {
    if c == CodecChoice::Stored {
        1
    } else {
        2
    }
}

/// Location table and body bytes for the first `n` chunk slots.
pub open spec fn layout(chunks: Seq<Option<Seq<u8>>>, fmt: u8, n: nat) -> (Seq<Location>, Seq<u8>)
    decreases n,
{
    if n == 0 {
        (Seq::empty(), Seq::empty())
    } else {
        let (locs, body) = layout(chunks, fmt, (n - 1) as nat);
        match chunks[n - 1] {
            Some(c) => (
                locs.push(
                    Location {
                        offset_sectors: (2 + body.len() as int / (SECTOR as int)) as u32,
                        sectors: record_sectors(c.len() as int) as u32,
                    },
                ),
                body + record(c, fmt),
            ),
            None => (locs.push(Location { offset_sectors: 0, sectors: 0 }), body),
        }
    }
}

/// Index of the first chunk whose record needs more than 255 sectors.
pub open spec fn first_oversize(chunks: Seq<Option<Seq<u8>>>, n: nat) -> Option<int>
    decreases n,
{
    if n == 0 {
        None
    } else {
        match first_oversize(chunks, (n - 1) as nat) {
            Some(i) => Some(i),
            None => match chunks[n - 1] {
                Some(c) => if record_sectors(c.len() as int) > 255 {
                    Some(n - 1)
                } else {
                    None
                },
                None => None,
            },
        }
    }
}

/// Header bytes of a location table: each entry as `offset << 8 | sectors`,
/// big endian.
pub open spec fn header_entries(locs: Seq<Location>) -> Seq<u8>
    decreases locs.len(),
{
    if locs.len() == 0 {
        Seq::empty()
    } else {
        header_entries(locs.drop_last()) + be32(
            locs.last().offset_sectors * 256 + locs.last().sectors,
        )
    }
}

/// The whole region file: location table, zero fill up to 8 KiB, records.
pub open spec fn region_file(chunks: Seq<Option<Seq<u8>>>, fmt: u8) -> Seq<u8> {
    let (locs, body) = layout(chunks, fmt, REGION_CHUNKS as nat);
    let h = header_entries(locs);
    h + Seq::new((HEADER_BYTES - h.len()) as nat, |_i: int| 0u8) + body
}

impl RegionCodec {
    /// The stored (possibly compressed) body of each chunk slot.
    pub closed spec fn stored(self) -> Seq<Option<Seq<u8>>> {
        Seq::new(
            self.chunks@.len(),
            |i: int|
                match self.chunks@[i] {
                    Some(v) => Some(v@),
                    None => None,
                },
        )
    }

    /// The compression policy the codec was made with.
    pub closed spec fn policy(self) -> CodecChoice {
        self.choice
    }

    /// The raw data last put into each chunk slot.
    pub closed spec fn raw_chunks(self) -> Seq<Option<Seq<u8>>> {
        self.raw_chunks@
    }

    /// Every stored body is the raw data (stored policy) or its zstd frame.
    pub closed spec fn wf(self) -> bool {
        &&& self.chunks@.len() == REGION_CHUNKS
        &&& self.raw_chunks@.len() == REGION_CHUNKS
        &&& forall|i: int|
            0 <= i < REGION_CHUNKS ==> match (#[trigger] self.stored()[i], self.raw_chunks@[i]) {
                (Some(b), Some(d)) => match spec_level(self.choice) {
                    None => b == d,
                    Some(l) => zstd_frame(d, l) == Some(b),
                },
                (None, None) => true,
                _ => false,
            }
    }

    pub fn new(choice: CodecChoice) -> (rc: Self)
        ensures
            rc.wf(),
            rc.policy() == choice,
            rc.stored() == Seq::new(REGION_CHUNKS as nat, |_i: int| None::<Seq<u8>>),
    {
        let mut chunks: Vec<Option<Vec<u8>>> = Vec::new();
        let mut i: usize = 0;
        while i < REGION_CHUNKS
            invariant
                i <= REGION_CHUNKS,
                chunks@.len() == i,
                forall|k: int| 0 <= k < i ==> #[trigger] chunks@[k] is None,
            decreases REGION_CHUNKS - i,
        {
            chunks.push(None);
            i += 1;
        }
        let rc = Self {
            choice,
            chunks,
            raw_chunks: Ghost(Seq::new(REGION_CHUNKS as nat, |_i: int| None::<Seq<u8>>)),
        };
        assert(rc.stored() =~= Seq::new(REGION_CHUNKS as nat, |_i: int| None::<Seq<u8>>));
        rc
    }

    /// Stores the raw data of chunk `(cx, cz)`, both below 32; coordinates out
    /// of range are refused with `false`, as is data the encoder fails on.
    pub fn put_chunk(&mut self, cx: usize, cz: usize, raw: &[u8]) -> (ok: bool)
        requires
            old(self).wf(),
        ensures
            final(self).wf(),
            final(self).policy() == old(self).policy(),
            ok ==> cx < 32 && cz < 32,
            (cx < 32 && cz < 32 && (spec_level(old(self).policy()) is None || zstd_frame(
                raw@,
                spec_level(old(self).policy())->0,
            ) is Some)) ==> ok,
            ok ==> final(self).raw_chunks() == old(self).raw_chunks().update(
                (cz * 32 + cx) as int,
                Some(raw@),
            ),
            !ok ==> final(self).raw_chunks() == old(self).raw_chunks(),
            ok ==> final(self).stored() == old(self).stored().update(
                (cz * 32 + cx) as int,
                match spec_level(old(self).policy()) {
                    None => Some(raw@),
                    Some(l) => zstd_frame(raw@, l),
                },
            ),
            !ok ==> final(self).stored() == old(self).stored(),
            ok && old(self).policy() == CodecChoice::Stored ==> final(self).stored()[(cz * 32 + cx) as int] == Some(raw@),
            ok && old(self).policy() == CodecChoice::ZstdFast ==> final(self).stored()[(cz * 32 + cx) as int] == zstd_frame(raw@, 1),
            ok && old(self).policy() == CodecChoice::ZstdBalanced ==> final(self).stored()[(cz * 32 + cx) as int] == zstd_frame(raw@, 3),
            ok && old(self).policy() == CodecChoice::ZstdArchive ==> final(self).stored()[(cz * 32 + cx) as int] == zstd_frame(raw@, 19),
    {
        if cx >= 32 || cz >= 32 {
            return false;
        }
        let idx = cz * 32 + cx;
        let body = match self.choice.zstd_level() {
            None => copy_bytes(raw),
            Some(level) => match zstd_encode(raw, level) {
                Some(b) => b,
                None => {
                    return false;
                },
            },
        };
        let ghost old_stored = self.stored();
        let ghost b = body@;
        self.chunks.set(idx, Some(body));
        self.raw_chunks = Ghost(self.raw_chunks@.update(idx as int, Some(raw@)));
        assert(self.stored() =~= old_stored.update(idx as int, Some(b)));
        true
    }

    /// The raw data of chunk `(cx, cz)`, or `None` when the slot is empty or
    /// out of range.
    pub fn get_chunk(&self, cx: usize, cz: usize) -> (r: Option<Vec<u8>>)
        requires
            self.wf(),
        ensures
            !(cx < 32 && cz < 32) ==> r is None,
            cx < 32 && cz < 32 ==> match self.raw_chunks()[(cz * 32 + cx) as int] {
                Some(d) => r matches Some(v) && v@ == d,
                None => r is None,
            },
    {
        if cx >= 32 || cz >= 32 {
            return None;
        }
        let idx = cz * 32 + cx;
        assert(self.stored()[idx as int] == match self.chunks@[idx as int] {
            Some(v) => Some(v@),
            None => None::<Seq<u8>>,
        });
        match &self.chunks[idx] {
            None => None,
            Some(body) => {
                if self.choice.zstd_level().is_none() {
                    Some(body.clone())
                } else {
                    let r = zstd_decode(body.as_slice());
                    proof {
                        let d = self.raw_chunks@[idx as int]->0;
                        let l = spec_level(self.choice)->0;
                        assert(zstd_frame(d, l) == Some(body@));
                    }
                    r
                }
            },
        }
    }

    /// Builds the whole region file, failing when a chunk record would need
    /// more than 255 sectors (the location table's 8-bit limit); see
    /// [`region_file`] for the layout.
    pub fn build_file_checked(&mut self) -> (r: Result<Vec<u8>, String>)
        requires
            old(self).wf(),
        ensures
            *final(self) == *old(self),
            match first_oversize(old(self).stored(), REGION_CHUNKS as nat) {
                Some(i) => r matches Err(msg) && msg@ == sector_limit_message(
                    i as usize,
                    record_sectors(old(self).stored()[i]->0.len() as int) as usize,
                ),
                None => r matches Ok(f) && f@ == region_file(
                    old(self).stored(),
                    format_byte(old(self).policy()),
                ),
            },
    {
        self.assemble()
    }

    /// Lays out the records and the location table of the stored chunks.
    fn assemble(&self) -> (r: Result<Vec<u8>, String>)
        requires
            self.wf(),
        ensures
            match first_oversize(self.stored(), REGION_CHUNKS as nat) {
                Some(i) => r matches Err(msg) && msg@ == sector_limit_message(
                    i as usize,
                    record_sectors(self.stored()[i]->0.len() as int) as usize,
                ),
                None => r matches Ok(f) && f@ == region_file(self.stored(), format_byte(self.policy())),
            },
    {
        let ghost chunks = self.stored();
        let fmt: u8 = if self.choice == CodecChoice::Stored {
            1
        } else {
            2
        };
        let mut locations: Vec<Location> = Vec::new();
        let mut body: Vec<u8> = Vec::new();
        let mut offset: usize = HEADER_BYTES / SECTOR;
        let mut i: usize = 0;
        while i < REGION_CHUNKS
            invariant
                i <= REGION_CHUNKS,
                self.chunks@.len() == REGION_CHUNKS,
                chunks == self.stored(),
                fmt == format_byte(self.choice),
                first_oversize(chunks, i as nat) is None,
                (locations@, body@) == layout(chunks, fmt, i as nat),
                locations@.len() == i,
                forall|t: int| 0 <= t < i ==> #[trigger] locations@[t].offset_sectors <= 2 + 255 * t
                    && locations@[t].sectors <= 255,
                body@.len() == (offset - 2) * SECTOR,
                2 <= offset <= 2 + 255 * i,
            decreases REGION_CHUNKS - i,
        {
            assert(chunks[i as int] == match self.chunks@[i as int] {
                Some(v) => Some(v@),
                None => None::<Seq<u8>>,
            });
            match &self.chunks[i] {
                Some(c) => {
                    let sectors = record_sector_count(c.len());
                    if sectors > 255 {
                        proof {
                            assert(first_oversize(chunks, (i + 1) as nat) == Some(i as int));
                            lemma_first_oversize_stays(chunks, (i + 1) as nat, REGION_CHUNKS as nat, i as int);
                        }
                        return Err(format_sector_limit_message(i, sectors));
                    }
                    proof {
                        assert(first_oversize(chunks, (i + 1) as nat) is None);
                    }
                    append_record(&mut body, c, fmt, sectors);
                    locations.push(Location { offset_sectors: offset as u32, sectors: sectors as u32 });
                    proof {
                        lemma_sector_multiple((offset - 2) as int);
                    }
                    offset += sectors;
                },
                None => {
                    locations.push(Location { offset_sectors: 0, sectors: 0 });
                },
            }
            i += 1;
        }
        let mut out = header_bytes(&locations);
        let ghost h = out@;
        while out.len() < HEADER_BYTES
            invariant
                out@.len() <= HEADER_BYTES,
                out@ == h + Seq::new((out@.len() - h.len()) as nat, |_k: int| 0u8),
                h.len() == 4096,
            decreases HEADER_BYTES - out@.len(),
        {
            let ghost prev = out@;
            out.push(0);
            assert(Seq::new((out@.len() - h.len()) as nat, |_k: int| 0u8) =~= Seq::new(
                (prev.len() - h.len()) as nat,
                |_k: int| 0u8,
            ).push(0u8));
        }
        let ghost hz = out@;
        let mut b: usize = 0;
        while b < body.len()
            invariant
                b <= body@.len(),
                out@ == hz + body@.take(b as int),
            decreases body@.len() - b,
        {
            out.push(body[b]);
            assert(body@.take(b + 1) =~= body@.take(b as int).push(body@[b as int]));
            b += 1;
        }
        assert(body@.take(b as int) =~= body@);
        Ok(out)
    }

    /// [`Self::build_file_checked`] for regions whose chunk records all fit
    /// in 255 sectors.
    pub fn build_file(&mut self) -> (f: Vec<u8>)
        requires
            old(self).wf(),
            first_oversize(old(self).stored(), REGION_CHUNKS as nat) is None,
        ensures
            final(self).wf(),
            final(self).stored() == old(self).stored(),
            final(self).raw_chunks() == old(self).raw_chunks(),
            final(self).policy() == old(self).policy(),
            f@ == region_file(old(self).stored(), format_byte(old(self).policy())),
    {
        match self.build_file_checked() {
            Ok(f) => f,
            Err(_) => Vec::new(),
        }
    }
}

/// Number of filled slots among the first `n`.
pub open spec fn count_filled(s: Seq<Option<Seq<u8>>>, n: nat) -> int
    decreases n,
{
    if n == 0 {
        0
    } else {
        count_filled(s, (n - 1) as nat) + if s[n - 1] is Some {
            1int
        } else {
            0int
        }
    }
}

/// Total length of the filled slots among the first `n`.
pub open spec fn total_len(s: Seq<Option<Seq<u8>>>, n: nat) -> int
    decreases n,
{
    if n == 0 {
        0
    } else {
        total_len(s, (n - 1) as nat) + match s[n - 1] {
            Some(b) => b.len() as int,
            None => 0,
        }
    }
}

proof fn lemma_total_len_monotone(s: Seq<Option<Seq<u8>>>, n: nat, m: nat)
    requires
        n <= m,
    ensures
        total_len(s, n) <= total_len(s, m),
        count_filled(s, n) <= count_filled(s, m),
        0 <= count_filled(s, n) <= n,
    decreases m,
{
    if n < m {
        lemma_total_len_monotone(s, n, (m - 1) as nat);
    } else if n > 0 {
        lemma_total_len_monotone(s, (n - 1) as nat, (n - 1) as nat);
    }
}

impl RegionCodec {
    /// Number of stored chunks, their total raw size and their total stored
    /// size (the compression ratio is stored / raw).
    pub fn stats_sizes(&self) -> (r: (usize, usize, usize))
        requires
            self.wf(),
            total_len(self.stored(), REGION_CHUNKS as nat) <= usize::MAX,
            total_len(self.raw_chunks(), REGION_CHUNKS as nat) <= usize::MAX,
        ensures
            r.0 == count_filled(self.stored(), REGION_CHUNKS as nat),
            r.1 == total_len(self.raw_chunks(), REGION_CHUNKS as nat),
            r.2 == total_len(self.stored(), REGION_CHUNKS as nat),
    {
        let ghost st = self.stored();
        let ghost or = self.raw_chunks();
        let mut n: usize = 0;
        let mut raw: usize = 0;
        let mut packed: usize = 0;
        let mut i: usize = 0;
        while i < REGION_CHUNKS
            invariant
                i <= REGION_CHUNKS,
                self.wf(),
                st == self.stored(),
                or == self.raw_chunks(),
                total_len(st, REGION_CHUNKS as nat) <= usize::MAX,
                total_len(or, REGION_CHUNKS as nat) <= usize::MAX,
                n == count_filled(st, i as nat),
                raw == total_len(or, i as nat),
                packed == total_len(st, i as nat),
            decreases REGION_CHUNKS - i,
        {
            proof {
                lemma_total_len_monotone(st, (i + 1) as nat, REGION_CHUNKS as nat);
                lemma_total_len_monotone(or, (i + 1) as nat, REGION_CHUNKS as nat);
                lemma_total_len_monotone(st, (i + 1) as nat, (i + 1) as nat);
            }
            assert(st[i as int] == match self.chunks@[i as int] {
                Some(v) => Some(v@),
                None => None::<Seq<u8>>,
            });
            match &self.chunks[i] {
                Some(c) => {
                    n += 1;
                    packed += c.len();
                    if self.choice.zstd_level().is_none() {
                        raw += c.len();
                    } else {
                        proof {
                            let d = or[i as int]->0;
                            let l = spec_level(self.choice)->0;
                            assert(zstd_frame(d, l) == Some(c@));
                        }
                        match zstd_decode(c.as_slice()) {
                            Some(d) => {
                                raw += d.len();
                            },
                            None => {},
                        }
                    }
                },
                None => {},
            }
            i += 1;
        }
        (n, raw, packed)
    }
}

proof fn lemma_first_oversize_stays(chunks: Seq<Option<Seq<u8>>>, n: nat, m: nat, i: int)
    requires
        n <= m,
        first_oversize(chunks, n) == Some(i),
    ensures
        first_oversize(chunks, m) == Some(i),
    decreases m - n,
{
    if n < m {
        lemma_first_oversize_stays(chunks, n, (m - 1) as nat, i);
    }
}

/// `(k * SECTOR) / SECTOR == k`.
proof fn lemma_sector_multiple(k: int)
    requires
        k >= 0,
    ensures
        (k * SECTOR) / (SECTOR as int) == k,
{
    vstd::arithmetic::div_mod::lemma_div_by_multiple(k, SECTOR as int);
}

/// Sectors taken by the record of a body of `len` bytes, computed without
/// overflow.
fn record_sector_count(len: usize) -> (s: usize)
    ensures
        s == record_sectors(len as int),
{
    let q = len / SECTOR;
    let r = len % SECTOR;
    proof {
        assert(len == q * SECTOR + r) by (nonlinear_arith)
            requires
                q == len / 4096,
                r == len % 4096,
        ;
        assert((len + 5 + SECTOR - 1) / (SECTOR as int) == q + (r + 4100) / 4096) by (nonlinear_arith)
            requires
                len == q * 4096 + r,
                0 <= r < 4096,
        ;
    }
    q + (r + 4100) / SECTOR
}

/// Appends the record of chunk body `c` (which takes `sectors` sectors).
fn append_record(body: &mut Vec<u8>, c: &Vec<u8>, fmt: u8, sectors: usize)
    requires
        sectors == record_sectors(c@.len() as int),
        sectors <= 255,
    ensures
        final(body)@ == old(body)@ + record(c@, fmt),
        final(body)@.len() == old(body)@.len() + sectors * SECTOR,
{
    proof {
        assert(sectors * SECTOR >= c@.len() + 5) by (nonlinear_arith)
            requires
                sectors == (c@.len() + 5 + 4095) / 4096,
        ;
    }
    let len_field = (c.len() + 1) as u32;
    let ghost before = body@;
    push_be32(body, len_field);
    body.push(fmt);
    let mut k: usize = 0;
    while k < c.len()
        invariant
            k <= c@.len(),
            c@.len() + 5 <= 255 * SECTOR,
            body@ == before + be32(c@.len() as int + 1) + seq![fmt] + c@.take(k as int),
        decreases c@.len() - k,
    {
        body.push(c[k]);
        assert(c@.take(k + 1) =~= c@.take(k as int).push(c@[k as int]));
        k += 1;
    }
    let pad = sectors * SECTOR - (c.len() + 5);
    let mut z: usize = 0;
    while z < pad
        invariant
            z <= pad,
            body@ == before + be32(c@.len() as int + 1) + seq![fmt] + c@ + Seq::new(
                z as nat,
                |_j: int| 0u8,
            ),
        decreases pad - z,
    {
        body.push(0);
        assert(Seq::new((z + 1) as nat, |_j: int| 0u8) =~= Seq::new(z as nat, |_j: int| 0u8).push(0u8));
        z += 1;
    }
    assert(c@.take(c@.len() as int) =~= c@);
    assert(body@ =~= before + record(c@, fmt));
}

/// The location table of `locations`, each entry as `offset << 8 | sectors`
/// in big endian.
fn header_bytes(locations: &Vec<Location>) -> (out: Vec<u8>)
    requires
        locations@.len() == REGION_CHUNKS,
        forall|t: int| 0 <= t < locations@.len() ==> #[trigger] locations@[t].offset_sectors < 0x100_0000
            && locations@[t].sectors <= 255,
    ensures
        out@ == header_entries(locations@),
        out@.len() == 4 * REGION_CHUNKS,
{
    let mut out: Vec<u8> = Vec::new();
    let mut j: usize = 0;
    while j < locations.len()
        invariant
            j <= locations@.len(),
            locations@.len() == REGION_CHUNKS,
            out@ == header_entries(locations@.take(j as int)),
            out@.len() == 4 * j,
            forall|t: int| 0 <= t < locations@.len() ==> #[trigger] locations@[t].offset_sectors < 0x100_0000
                && locations@[t].sectors <= 255,
        decreases locations@.len() - j,
    {
        let loc = locations[j];
        assert(loc.offset_sectors < 0x100_0000 && loc.sectors <= 255);
        let v: u32 = loc.offset_sectors * 256 + loc.sectors;
        push_be32(&mut out, v);
        assert(locations@.take(j + 1).drop_last() =~= locations@.take(j as int));
        j += 1;
    }
    assert(locations@.take(j as int) =~= locations@);
    out
}

/// A fresh vector holding `raw`.
fn copy_bytes(raw: &[u8]) -> (v: Vec<u8>)
    ensures
        v@ == raw@,
{
    let mut v: Vec<u8> = Vec::new();
    let mut i: usize = 0;
    while i < raw.len()
        invariant
            i <= raw@.len(),
            v@ == raw@.take(i as int),
        decreases raw@.len() - i,
    {
        v.push(raw[i]);
        assert(raw@.take(i + 1) =~= raw@.take(i as int).push(raw@[i as int]));
        i += 1;
    }
    assert(raw@.take(i as int) =~= raw@);
    v
}

/// Appends the big-endian bytes of `v`.
fn push_be32(out: &mut Vec<u8>, v: u32)
    ensures
        final(out)@ == old(out)@ + be32(v as int),
{
    out.push((v / 0x100_0000) as u8);
    out.push(((v / 0x1_0000) % 256) as u8);
    out.push(((v / 0x100) % 256) as u8);
    out.push((v % 256) as u8);
    assert(final(out)@ =~= old(out)@ + be32(v as int));
}

/// Summary of a region file's location table.
#[derive(Debug, Clone, Copy, PartialEq, Eq)]
pub struct RegionScan {
    pub file_bytes: usize,
    pub used_sectors: u32,
    pub chunks: u32,
}

/// Why a region file was rejected.
#[derive(Debug, Clone, Copy, PartialEq, Eq)]
pub enum RegionScanError {
    /// Shorter than the 8 KiB header.
    TooSmall,
    /// A used entry points into the header sectors.
    OffsetInHeader { chunk: usize, offset: u32 },
    /// A used entry's span ends past the end of the file.
    SpanPastEnd { chunk: usize, end: u64, len: usize },
}

/// Big-endian 32-bit value at `off`.
pub open spec fn read_be32(b: Seq<u8>, off: int) -> int {
    b[off] as int * 0x100_0000 + b[off + 1] as int * 0x1_0000 + b[off + 2] as int * 0x100 + b[off + 3] as int
}

/// Scan of the first `n` location entries: `(used sectors, chunk count)` or
/// the first error.
pub open spec fn scan_entries(b: Seq<u8>, n: nat) -> Result<(int, int), RegionScanError>
    decreases n,
{
    if n == 0 {
        Ok((2, 0))
    } else {
        match scan_entries(b, (n - 1) as nat) {
            Err(e) => Err(e),
            Ok((used, count)) => {
                let v = read_be32(b, 4 * (n - 1));
                let off = v / 256;
                let sectors = v % 256;
                if sectors == 0 {
                    Ok((used, count))
                } else if off < 2 {
                    Err(RegionScanError::OffsetInHeader { chunk: (n - 1) as usize, offset: off as u32 })
                } else if (off + sectors) * SECTOR > b.len() {
                    Err(RegionScanError::SpanPastEnd { chunk: (n - 1) as usize, end: ((off + sectors) * SECTOR) as u64, len: b.len() as usize })
                } else {
                    Ok((used + sectors, count + 1))
                }
            },
        }
    }
}

/// Checks a region file's location table: used entries must not point into
/// the header and must end within the file.
pub fn scan_file(bytes: &[u8]) -> (r: Result<RegionScan, RegionScanError>)
    ensures
        bytes@.len() < HEADER_BYTES ==> r == Err::<RegionScan, RegionScanError>(RegionScanError::TooSmall),
        bytes@.len() >= HEADER_BYTES ==> match scan_entries(bytes@, REGION_CHUNKS as nat) {
            Err(e) => r == Err::<RegionScan, RegionScanError>(e),
            Ok((used, count)) => r == Ok::<RegionScan, RegionScanError>(RegionScan { file_bytes: bytes@.len() as usize, used_sectors: used as u32, chunks: count as u32 }),
        },
{
    if bytes.len() < HEADER_BYTES {
        return Err(RegionScanError::TooSmall);
    }
    let mut used: u32 = (HEADER_BYTES / SECTOR) as u32;
    let mut chunks: u32 = 0;
    let mut i: usize = 0;
    while i < REGION_CHUNKS
        invariant
            i <= REGION_CHUNKS,
            bytes@.len() >= HEADER_BYTES,
            scan_entries(bytes@, i as nat) == Ok::<(int, int), RegionScanError>((used as int, chunks as int)),
            used <= 2 + 255 * i,
            chunks <= i,
        decreases REGION_CHUNKS - i,
    {
        let v = read_entry(bytes, i);
        let off_sectors = v / 256;
        let sectors = v % 256;
        if sectors > 0 {
            if off_sectors < 2 {
                let e = RegionScanError::OffsetInHeader { chunk: i, offset: off_sectors };
                proof {
                    lemma_scan_err_stays(bytes@, (i + 1) as nat, REGION_CHUNKS as nat, e);
                }
                return Err(e);
            }
            let end = (off_sectors as u64 + sectors as u64) * SECTOR as u64;
            if end > bytes.len() as u64 {
                let e = RegionScanError::SpanPastEnd { chunk: i, end, len: bytes.len() };
                proof {
                    lemma_scan_err_stays(bytes@, (i + 1) as nat, REGION_CHUNKS as nat, e);
                }
                return Err(e);
            }
            used += sectors;
            chunks += 1;
        }
        i += 1;
    }
    Ok(RegionScan { file_bytes: bytes.len(), used_sectors: used, chunks })
}

/// Location entry `i` of a region file, big endian.
fn read_entry(bytes: &[u8], i: usize) -> (v: u32)
    requires
        i < REGION_CHUNKS,
        bytes@.len() >= HEADER_BYTES,
    ensures
        v == read_be32(bytes@, 4 * i),
{
    bytes[i * 4] as u32 * 0x100_0000 + bytes[i * 4 + 1] as u32 * 0x1_0000 + bytes[i * 4 + 2] as u32
        * 0x100 + bytes[i * 4 + 3] as u32
}

proof fn lemma_scan_err_stays(b: Seq<u8>, n: nat, m: nat, e: RegionScanError)
    requires
        n <= m,
        scan_entries(b, n) == Err::<(int, int), RegionScanError>(e),
    ensures
        scan_entries(b, m) == Err::<(int, int), RegionScanError>(e),
    decreases m - n,
{
    if n < m {
        lemma_scan_err_stays(b, n, (m - 1) as nat, e);
    }
}

} // verus!
