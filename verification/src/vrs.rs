//! Variable rate shading: the hardware shading-rate vocabulary.

use vstd::prelude::*;

verus! {

/// Coarseness of pixel shading for one screen tile.
#[derive(Clone, Copy, Debug, PartialEq, Eq, Structural)]
pub enum ShadingRate {
    Rate1x1,
    Rate1x2,
    Rate2x2,
    Rate2x4,
    Rate4x4,
}

impl ShadingRate {
    /// Hardware shading-rate code (0 = finest, 4 = coarsest).
    pub open spec fn spec_code(self) -> u32 {
        match self {
            ShadingRate::Rate1x1 => 0,
            ShadingRate::Rate1x2 => 1,
            ShadingRate::Rate2x2 => 2,
            ShadingRate::Rate2x4 => 3,
            ShadingRate::Rate4x4 => 4,
        }
    }

    /// Pixels covered by one shaded sample: width times height of the rate.
    pub open spec fn spec_area(self) -> u32 {
        match self {
            ShadingRate::Rate1x1 => 1,
            ShadingRate::Rate1x2 => 2,
            ShadingRate::Rate2x2 => 4,
            ShadingRate::Rate2x4 => 8,
            ShadingRate::Rate4x4 => 16,
        }
    }

    /// Hardware shading-rate code (0 = finest).
    pub fn as_code(self) -> (c: u32)
        ensures
            c == self.spec_code(),
    {
        match self {
            ShadingRate::Rate1x1 => 0,
            ShadingRate::Rate1x2 => 1,
            ShadingRate::Rate2x2 => 2,
            ShadingRate::Rate2x4 => 3,
            ShadingRate::Rate4x4 => 4,
        }
    }

    /// Number of pixels covered by one shaded sample at this rate.
    pub fn pixel_area(self) -> (a: u32)
        ensures
            a == self.spec_area(),
    {
        match self {
            ShadingRate::Rate1x1 => 1,
            ShadingRate::Rate1x2 => 2,
            ShadingRate::Rate2x2 => 4,
            ShadingRate::Rate2x4 => 8,
            ShadingRate::Rate4x4 => 16,
        }
    }
}

/// Coarser codes never cover fewer pixels, and distinct rates have distinct
/// codes.
pub proof fn lemma_code_orders_area(a: ShadingRate, b: ShadingRate)
    ensures
        a.spec_code() <= b.spec_code() ==> a.spec_area() <= b.spec_area(),
        a.spec_code() == b.spec_code() ==> a == b,
{
}

} // verus!
