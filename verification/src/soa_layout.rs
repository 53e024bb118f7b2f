//! XZY linear indexing: Y is the fastest axis, so column scans are contiguous.

use vstd::prelude::*;

verus! {

/// The XZY index of `(x, y, z)` in a box whose XZ cross-section is `sx * sx`
/// and whose height is `sy`.
pub open spec fn spec_xzy_index(x: int, y: int, z: int, sx: int, sy: int) -> int {
    (x * sx + z) * sy + y
}

/// XZY linear index. `x` and `z` must be below `sx` and `y` below `sy`
/// (out-of-range coordinates would alias other cells).
pub fn xzy_index(x: u32, y: u32, z: u32, sx: u32, sy: u32) -> (i: usize)
    requires
        x < sx,
        z < sx,
        y < sy,
        spec_xzy_index(x as int, y as int, z as int, sx as int, sy as int) <= u32::MAX,
    ensures
        i == spec_xzy_index(x as int, y as int, z as int, sx as int, sy as int),
{
    proof {
        assert(0 <= x * sx + z) by (nonlinear_arith)
            requires
                x >= 0,
                sx >= 0,
                z >= 0,
        ;
        assert(x * sx + z <= (x * sx + z) * sy) by (nonlinear_arith)
            requires
                sy >= 1,
                x * sx + z >= 0,
        ;
    }
    ((x * sx + z) * sy + y) as usize
}

/// Inverse of [`xzy_index`]: `(x, y, z)` of a flat index. The x coordinate is
/// truncated to 32 bits when it does not fit.
pub fn xzy_decode(index: usize, sx: u32, sy: u32) -> (r: (u32, u32, u32))
    requires
        sx > 0,
        sy > 0,
    ensures
        r.1 == (index as int) % (sy as int),
        r.2 == ((index as int) / (sy as int)) % (sx as int),
        (index as int) / (sy as int) / (sx as int) <= u32::MAX ==> r.0 == (index as int) / (
        sy as int) / (sx as int),
{
    let sy = sy as usize;
    let sx = sx as usize;
    let y = index % sy;
    let xz = index / sy;
    let z = xz % sx;
    let x = xz / sx;
    (#[verifier::truncate] (x as u32), y as u32, z as u32)
}

/// Decoding an index gives back its coordinates.
pub proof fn lemma_xzy_roundtrip(x: int, y: int, z: int, sx: int, sy: int)
    requires
        0 <= x,
        0 <= z < sx,
        0 <= y < sy,
    ensures
        spec_xzy_index(x, y, z, sx, sy) % sy == y,
        (spec_xzy_index(x, y, z, sx, sy) / sy) % sx == z,
        spec_xzy_index(x, y, z, sx, sy) / sy / sx == x,
{
    let i = spec_xzy_index(x, y, z, sx, sy);
    let xz = x * sx + z;
    assert(x * sx + z >= 0) by (nonlinear_arith)
        requires
            x >= 0,
            sx >= 0,
            z >= 0,
    ;
    vstd::arithmetic::div_mod::lemma_fundamental_div_mod_converse(i, sy, xz, y);
    vstd::arithmetic::div_mod::lemma_fundamental_div_mod_converse(xz, sx, x, z);
}

} // verus!
