//! Column OR masks of a section palette, used ahead of greedy meshing.

use crate::section_rle::{cell_solid, SectionPalette, VOLUME};
use vstd::prelude::*;

verus! {

/// Opt-in switch for the vectorised path.
#[derive(Debug, Clone, Copy, Default)]
pub struct SimdAvx2Config {
    pub enabled: bool,
}

/// Bit `k` of a 32-bit mask.
pub open spec fn bit32(m: u32, k: u32) -> bool {
    (m >> k) & 1u32 == 1u32
}

/// Some voxel of the Y column at `(x, z)` is not air.
pub open spec fn y_column_solid(p: Seq<u16>, x: int, z: int) -> bool {
    exists|y: int| 0 <= y < 16 && cell_solid(p, x, y, z)
}

/// The masks reduce Y: bit `x` of entry `z` is set exactly when the column
/// `(x, *, z)` holds a non-air voxel, and bits from 16 on are clear.
pub open spec fn is_column_masks(p: Seq<u16>, m: Seq<u32>) -> bool {
    &&& m.len() == 16
    &&& forall|z: int, x: int|
        0 <= z < 16 && 0 <= x < 32 ==> (#[trigger] bit32(m[z], x as u32) <==> (x < 16
            && y_column_solid(p, x, z)))
}

proof fn lemma_bit32_or(r: u32, x: u32, k: u32)
    requires
        x < 32,
        k < 32,
    ensures
        bit32(r | (1u32 << x), k) == (bit32(r, k) || k == x),
{
    assert(((r | (1u32 << x)) >> k) & 1u32 == 1u32 <==> (((r >> k) & 1u32 == 1u32) || k == x))
        by (bit_vector)
        requires
            x < 32,
            k < 32,
    ;
}

proof fn lemma_bit32_zero(k: u32)
    requires
        k < 32,
    ensures
        !bit32(0u32, k),
{
    assert((0u32 >> k) & 1u32 != 1u32) by (bit_vector);
}

/// Column mask of a palette: bit `x` of `masks[z]` is set when some voxel
/// `(x, y, z)` is not air.
pub fn greedy_mask_avx2(palette: &SectionPalette) -> (masks: [u32; 16])
    ensures
        is_column_masks(palette@, masks@),
{
    let mut masks = [0u32; 16];
    let mut z: usize = 0;
    while z < 16
        invariant
            z <= 16,
            palette@.len() == VOLUME,
            masks@.len() == 16,
            forall|zz: int, x: int|
                0 <= zz < z && 0 <= x < 32 ==> (#[trigger] bit32(masks@[zz], x as u32) <==> (x
                    < 16 && y_column_solid(palette@, x, zz))),
        decreases 16 - z,
    {
        let mut m = 0u32;
        assert forall|k: int| 0 <= k < 32 implies !#[trigger] bit32(m, k as u32) by {
            lemma_bit32_zero(k as u32);
        }
        let mut y: usize = 0;
        while y < 16
            invariant
                z < 16,
                y <= 16,
                palette@.len() == VOLUME,
                forall|k: int|
                    0 <= k < 32 ==> (#[trigger] bit32(m, k as u32) <==> (k < 16 && exists|yy: int|
                        0 <= yy < y && cell_solid(palette@, k, yy, z as int))),
            decreases 16 - y,
        {
            let mut x: usize = 0;
            while x < 16
                invariant
                    z < 16,
                    y < 16,
                    x <= 16,
                    palette@.len() == VOLUME,
                    forall|k: int|
                        0 <= k < 32 ==> (#[trigger] bit32(m, k as u32) <==> (k < 16 && ((exists|
                            yy: int,
                        | 0 <= yy < y && cell_solid(palette@, k, yy, z as int)) || (k < x
                            && cell_solid(palette@, k, y as int, z as int))))),
                decreases 16 - x,
            {
                let ghost old_m = m;
                if palette[x + y * 16 + z * 256] != 0 {
                    m = m | (1u32 << x as u32);
                    assert forall|k: int| 0 <= k < 32 implies #[trigger] bit32(m, k as u32) == (
                    bit32(old_m, k as u32) || k == x) by {
                        lemma_bit32_or(old_m, x as u32, k as u32);
                    }
                }
                x += 1;
            }
            assert forall|k: int| 0 <= k < 32 implies (#[trigger] bit32(m, k as u32) <==> (k < 16
                && exists|yy: int| 0 <= yy < y + 1 && cell_solid(palette@, k, yy, z as int))) by {
                if k < 16 && cell_solid(palette@, k, y as int, z as int) {
                    assert(0 <= y < y + 1);
                }
            }
            y += 1;
        }
        let ghost old_masks = masks@;
        masks[z] = m;
        assert forall|zz: int, x: int| 0 <= zz < z + 1 && 0 <= x < 32 implies (#[trigger] bit32(
            masks@[zz],
            x as u32,
        ) <==> (x < 16 && y_column_solid(palette@, x, zz))) by {
            if zz < z {
                assert(masks@[zz] == old_masks[zz]);
            }
        }
        z += 1;
    }
    masks
}

/// Reads bit `(x, z)` of the column masks; `y` is ignored (the masks reduce
/// Y). Coordinates outside the section give `false`.
pub fn face_visible_bitmask(masks: &[u32; 16], x: usize, _y: usize, z: usize) -> (b: bool)
    ensures
        b == (z < 16 && x < 16 && bit32(masks@[z as int], x as u32)),
{
    if z >= 16 || x >= 16 {
        return false;
    }
    let m = masks[z];
    let bit = (m >> (x as u32)) & 1;
    bit == 1
}

} // verus!
