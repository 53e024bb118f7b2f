//! Texture atlas format choice for the texture bandwidth budget.

use vstd::prelude::*;

verus! {

#[derive(Debug, Clone, Copy, PartialEq, Eq, Structural)]
pub enum AtlasCompression {
    Uncompressed,
    /// Desktop and modern integrated GPUs.
    Bc7,
    /// Mobile and Apple GPUs.
    Astc4x4,
}

/// Atlas format of a render profile: uncompressed unless the feather
/// profile asks for compression, then ASTC 4x4 on Apple platforms and BC7
/// elsewhere.
pub fn profile_compression(feather_enabled: bool, compressed: bool, apple_platform: bool) -> (c: AtlasCompression)
    ensures
        c == if !feather_enabled || !compressed {
            AtlasCompression::Uncompressed
        } else if apple_platform {
            AtlasCompression::Astc4x4
        } else {
            AtlasCompression::Bc7
        },
{
    if !feather_enabled {
        return AtlasCompression::Uncompressed;
    }
    if compressed {
        if apple_platform {
            AtlasCompression::Astc4x4
        } else {
            AtlasCompression::Bc7
        }
    } else {
        AtlasCompression::Uncompressed
    }
}

impl AtlasCompression {
    /// Bits per texel of the format: RGBA8 32; BC7 and ASTC 4x4 store 128
    /// bits per 4x4 block, 8. The bandwidth relative to RGBA8 is this over 32.
    pub fn bits_per_texel(&self) -> (b: u32)
        ensures
            b == match *self {
                AtlasCompression::Uncompressed => 32u32,
                AtlasCompression::Bc7 => 8u32,
                AtlasCompression::Astc4x4 => 8u32,
            },
    {
        match self {
            AtlasCompression::Uncompressed => 32,
            AtlasCompression::Bc7 => 8,
            AtlasCompression::Astc4x4 => 8,
        }
    }

    /// Display label of the atlas format.
    pub fn label(&self) -> (s: &'static str)
        ensures
            s@ == match *self {
                AtlasCompression::Uncompressed => "RGBA8 atlas"@,
                AtlasCompression::Bc7 => "BC7 compressed atlas"@,
                AtlasCompression::Astc4x4 => "ASTC 4×4 atlas"@,
            },
    {
        match self {
            AtlasCompression::Uncompressed => "RGBA8 atlas",
            AtlasCompression::Bc7 => "BC7 compressed atlas",
            AtlasCompression::Astc4x4 => "ASTC 4×4 atlas",
        }
    }
}

} // verus!
