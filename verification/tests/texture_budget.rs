use rsift_opt_gfx::texture_budget::{profile_compression, AtlasCompression};

#[test]
fn non_feather_is_passthrough_uncompressed() {
    assert_eq!(profile_compression(false, true, false), AtlasCompression::Uncompressed);
    assert_eq!(profile_compression(false, true, true), AtlasCompression::Uncompressed);
}

#[test]
fn feather_compressed_uses_platform_format() {
    assert_eq!(profile_compression(true, true, true), AtlasCompression::Astc4x4);
    assert_eq!(profile_compression(true, true, false), AtlasCompression::Bc7);
}

#[test]
fn feather_uncompressed_keeps_bias() {
    assert_eq!(profile_compression(true, false, false), AtlasCompression::Uncompressed);
}

#[test]
fn bandwidth_factor_and_labels_exact() {
    let factor = |c: AtlasCompression| c.bits_per_texel() as f32 / 32.0;
    assert_eq!(factor(AtlasCompression::Uncompressed), 1.0);
    assert_eq!(AtlasCompression::Uncompressed.label(), "RGBA8 atlas");
    assert_eq!(factor(AtlasCompression::Bc7), 0.25);
    assert_eq!(AtlasCompression::Bc7.label(), "BC7 compressed atlas");
    assert_eq!(factor(AtlasCompression::Astc4x4), 0.25);
    assert_eq!(AtlasCompression::Astc4x4.label(), "ASTC 4×4 atlas");
}

#[test]
fn bandwidth_factor_matches_exact_bpp() {
    assert_eq!(AtlasCompression::Uncompressed.bits_per_texel(), 32, "RGBA8 = 32 bpp");
    assert_eq!(AtlasCompression::Bc7.bits_per_texel(), 8, "BC7 = 8 bpp");
    assert_eq!(AtlasCompression::Astc4x4.bits_per_texel(), 8, "ASTC 4x4 = 8 bpp");
}
