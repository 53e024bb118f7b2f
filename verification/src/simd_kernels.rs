//! Bit kernels for greedy meshing: population counts of opacity masks
//! (sequential and chunked in parallel) and maximal runs of set bits in
//! 16-wide rows.

use vstd::prelude::*;
use rayon::iter::ParallelIterator;
use rayon::slice::ParallelSlice;

verus! {

/// Number of set bits.
pub open spec fn popcount(x: u64) -> nat
    decreases x,
{
    if x == 0 {
        0
    } else {
        popcount(x / 2) + (x % 2) as nat
    }
}

/// Set bits over all words.
pub open spec fn pop_total(s: Seq<u64>) -> nat
    decreases s.len(),
{
    if s.len() == 0 {
        0
    } else {
        pop_total(s.drop_last()) + popcount(s.last())
    }
}

proof fn lemma_popcount_bound(x: u64, k: nat)
    requires
        x < vstd::arithmetic::power2::pow2(k),
    ensures
        popcount(x) <= k,
    decreases k,
{
    if x > 0 {
        if k == 0 {
            vstd::arithmetic::power2::lemma2_to64();
        } else {
            vstd::arithmetic::power2::lemma_pow2_unfold(k);
            lemma_popcount_bound(x / 2, (k - 1) as nat);
        }
    }
}

/// Number of one bits of `x`, bit by bit from the lowest.
fn count_ones(x: u64) -> (r: u32)
    ensures
        r == popcount(x),
{
    proof {
        vstd::arithmetic::power2::lemma2_to64();
        lemma_popcount_bound(x, 64);
    }
    let mut y = x;
    let mut r: u32 = 0;
    while y > 0
        invariant
            r + popcount(y) == popcount(x),
            popcount(x) <= 64,
        decreases y,
    {
        r = r + (y % 2) as u32;
        y = y / 2;
    }
    r
}

/// Set bits of one word.
pub fn popcount_u64(x: u64) -> (r: u32)
    ensures
        r == popcount(x),
{
    count_ones(x)
}

proof fn lemma_pop_total_take(s: Seq<u64>, i: int)
    requires
        0 <= i < s.len(),
    ensures
        pop_total(s.take(i + 1)) == pop_total(s.take(i)) + popcount(s[i]),
{
    assert(s.take(i + 1).drop_last() =~= s.take(i));
}

proof fn lemma_pop_total_prefix(s: Seq<u64>, i: int)
    requires
        0 <= i <= s.len(),
    ensures
        pop_total(s.take(i)) <= pop_total(s),
    decreases s.len() - i,
{
    if i < s.len() {
        lemma_pop_total_prefix(s, i + 1);
        lemma_pop_total_take(s, i);
    } else {
        assert(s.take(i) =~= s);
    }
}

/// Set bits over a mask of words.
pub fn popcount_opaque_mask(mask: &[u64]) -> (r: u32)
    requires
        pop_total(mask@) <= u32::MAX,
    ensures
        r == pop_total(mask@),
{
    let mut total: u32 = 0;
    let mut i: usize = 0;
    while i < mask.len()
        invariant
            i <= mask@.len(),
            pop_total(mask@) <= u32::MAX,
            total == pop_total(mask@.take(i as int)),
        decreases mask@.len() - i,
    {
        proof {
            lemma_pop_total_take(mask@, i as int);
            lemma_pop_total_prefix(mask@, i + 1);
        }
        total = total + count_ones(mask[i]);
        i += 1;
    }
    proof {
        assert(mask@.take(mask@.len() as int) =~= mask@);
    }
    total
}

/// `par_chunks(64)` of rayon, each chunk counted by `popcount_opaque_mask`
/// and the counts summed by rayon's `sum`. rayon splits the slice into its
/// consecutive chunks and the sum of `u32`s does not depend on the order in
/// which it adds them, so the result is the count over the whole mask.
#[verifier::external_body]
fn par_chunk_popcount(mask: &[u64]) -> (r: u32)
    requires
        pop_total(mask@) <= u32::MAX,
    ensures
        r == pop_total(mask@),
{
    mask.par_chunks(64).map(|c| popcount_opaque_mask(c)).sum()
}

/// Set bits over a mask of words, counted in parallel chunks of 64 words when
/// the mask has at least 64 words.
pub fn popcount_opaque_mask_par(mask: &[u64]) -> (r: u32)
    requires
        pop_total(mask@) <= u32::MAX,
    ensures
        r == pop_total(mask@),
{
    if mask.len() < 64 {
        return popcount_opaque_mask(mask);
    }
    par_chunk_popcount(mask)
}

/// Bit `i` of a row.
pub open spec fn row_bit(m: u16, i: int) -> bool {
    (m >> (i as u16)) & 1 == 1
}

/// First position at or after `i` (up to 16) whose bit is clear.
pub open spec fn run_end(m: u16, i: int) -> int
    decreases 16 - i,
{
    if i >= 16 || !row_bit(m, i) {
        i
    } else {
        run_end(m, i + 1)
    }
}

/// The maximal runs of set bits at or after position `i`, as (start,
/// length), in order.
pub open spec fn runs_from(m: u16, i: int) -> Seq<(u8, u8)>
    decreases 16 - i,
{
    if i >= 16 || i < 0 {
        Seq::empty()
    } else if !row_bit(m, i) {
        runs_from(m, i + 1)
    } else {
        let e = run_end(m, i + 1);
        proof {
            lemma_run_end(m, i + 1);
        }
        seq![(i as u8, (e - i) as u8)] + runs_from(m, e)
    }
}

/// The run starting at `i` stops at the first clear bit, within the row.
pub proof fn lemma_run_end(m: u16, i: int)
    requires
        0 <= i <= 16,
    ensures
        i <= run_end(m, i) <= 16,
        run_end(m, i) < 16 ==> !row_bit(m, run_end(m, i)),
        forall|j: int| i <= j < run_end(m, i) ==> row_bit(m, j),
    decreases 16 - i,
{
    if i < 16 && row_bit(m, i) {
        lemma_run_end(m, i + 1);
    }
}

/// Maximal runs of set bits in a 16-wide row, as (start, length), low bit
/// first.
pub fn merge_face_runs(row_mask: u16) -> (runs: Vec<(u8, u8)>)
    ensures
        runs@ == runs_from(row_mask, 0),
{
    let mut runs: Vec<(u8, u8)> = Vec::new();
    let mut i: u8 = 0;
    while i < 16
        invariant
            i <= 16,
            runs@ + runs_from(row_mask, i as int) == runs_from(row_mask, 0),
        decreases 16 - i,
    {
        if (row_mask >> (i as u16)) & 1 != 1 {
            i += 1;
            continue;
        }
        let start = i;
        i += 1;
        while i < 16 && (row_mask >> (i as u16)) & 1 == 1
            invariant
                start < i <= 16,
                run_end(row_mask, start as int + 1) == run_end(row_mask, i as int),
            decreases 16 - i,
        {
            i += 1;
        }
        proof {
            lemma_run_end(row_mask, start as int + 1);
            assert(run_end(row_mask, i as int) == i);
            assert(runs_from(row_mask, start as int) == seq![(start, (i - start) as u8)] + runs_from(row_mask, i as int));
        }
        let ghost r0 = runs@;
        runs.push((start, i - start));
        proof {
            assert(runs@ + runs_from(row_mask, i as int) =~= r0 + runs_from(row_mask, start as int));
        }
    }
    proof {
        assert(runs_from(row_mask, 16) =~= Seq::<(u8, u8)>::empty());
        assert(runs@ =~= runs@ + runs_from(row_mask, 16));
    }
    runs
}

/// The runs of row `r`, tagged with the row.
pub open spec fn tagged_runs(m: u16, r: int) -> Seq<(u8, u8, u8)> {
    runs_from(m, 0).map_values(|p: (u8, u8)| (r as u8, p.0, p.1))
}

/// The runs of rows `0..k`, row by row.
pub open spec fn rows_runs(rows: Seq<u16>, k: int) -> Seq<(u8, u8, u8)>
    decreases k,
{
    if k <= 0 {
        Seq::empty()
    } else {
        rows_runs(rows, k - 1) + tagged_runs(rows[k - 1], k - 1)
    }
}

/// Maximal runs of all 16 rows of a face slice, as (row, start, length),
/// row by row.
pub fn merge_face_runs_batch(rows: &[u16; 16]) -> (out: Vec<(u8, u8, u8)>)
    ensures
        out@ == rows_runs(rows@, 16),
{
    let mut out: Vec<(u8, u8, u8)> = Vec::new();
    let mut r: usize = 0;
    while r < 16
        invariant
            r <= 16,
            out@ == rows_runs(rows@, r as int),
        decreases 16 - r,
    {
        let runs = merge_face_runs(rows[r]);
        let ghost o0 = out@;
        let mut k: usize = 0;
        while k < runs.len()
            invariant
                r < 16,
                k <= runs@.len(),
                runs@ == runs_from(rows@[r as int], 0),
                out@ == o0 + tagged_runs(rows@[r as int], r as int).take(k as int),
            decreases runs@.len() - k,
        {
            let (start, len) = runs[k];
            out.push((r as u8, start, len));
            proof {
                assert(out@ =~= o0 + tagged_runs(rows@[r as int], r as int).take(k + 1));
            }
            k += 1;
        }
        proof {
            assert(tagged_runs(rows@[r as int], r as int).take(k as int) =~= tagged_runs(rows@[r as int], r as int));
        }
        r += 1;
    }
    out
}

} // verus!
