//! Wave (subgroup) operations simulated on the CPU.

use vstd::prelude::*;

verus! {

/// Width of a hardware wave.
pub const WAVE_WIDTH: usize = 32;

/// Bit `j` of a 64-bit mask.
pub open spec fn bit64(m: u64, j: u64) -> bool {
    (m >> j) & 1u64 == 1u64
}

proof fn lemma_bit64_or(r: u64, x: u64, k: u64)
    requires
        x < 64,
        k < 64,
    ensures
        bit64(r | (1u64 << x), k) == (bit64(r, k) || k == x),
{
    assert(((r | (1u64 << x)) >> k) & 1u64 == 1u64 <==> (((r >> k) & 1u64 == 1u64) || k == x))
        by (bit_vector)
        requires
            x < 64,
            k < 64,
    ;
}

proof fn lemma_bit64_zero(k: u64)
    requires
        k < 64,
    ensures
        !bit64(0u64, k),
{
    assert((0u64 >> k) & 1u64 != 1u64) by (bit_vector);
}

/// Ballot mask: bit `j` is set when lane `j` is true; lanes from 64 on do not
/// fit in the mask and are dropped.
pub fn subgroup_ballot(cond: &[bool]) -> (mask: u64)
    ensures
        forall|j: int| 0 <= j < 64 ==> (#[trigger] bit64(mask, j as u64) <==> (j < cond@.len() && cond@[j])),
{
    let mut mask = 0u64;
    let mut j: usize = 0;
    assert forall|k: int| 0 <= k < 64 implies !#[trigger] bit64(mask, k as u64) by {
        lemma_bit64_zero(k as u64);
    }
    while j < cond.len()
        invariant
            j <= cond@.len(),
            forall|k: int|
                0 <= k < 64 ==> (#[trigger] bit64(mask, k as u64) <==> (k < j && k < cond@.len()
                    && cond@[k])),
        decreases cond@.len() - j,
    {
        let ghost old_mask = mask;
        if cond[j] && j < 64 {
            mask = mask | (1u64 << (j as u64));
            assert forall|k: int| 0 <= k < 64 implies #[trigger] bit64(mask, k as u64) == (bit64(
                old_mask,
                k as u64,
            ) || k == j) by {
                lemma_bit64_or(old_mask, j as u64, k as u64);
            }
        }
        j += 1;
    }
    mask
}

} // verus!
