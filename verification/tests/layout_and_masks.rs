use rsift_opt_gfx::root_signature_optimized::{OptimizedRootSignature, RootParamType, RootParameter};
use rsift_opt_gfx::simd_kernels_avx2::{face_visible_bitmask, greedy_mask_avx2, SimdAvx2Config};
use rsift_opt_gfx::soa_layout::{xzy_decode, xzy_index};
use rsift_opt_gfx::software_tiling::SoftwareTileBinner;
use rsift_opt_gfx::visibility_buffer::{
    generate_bindless_pulling_wgsl, pack_ids, pack_ids_64, unpack_ids, unpack_ids_64, VisibilityBufferResolver,
};

#[test]
fn graphics_layout_fields_bit_exact() {
    let rs = OptimizedRootSignature::rs_graphics();
    assert_eq!(rs.params.len(), 3);
    let p0 = &rs.params[0];
    assert_eq!(p0.param_type, RootParamType::Constants);
    assert_eq!((p0.shader_visibility, p0.num_descriptors, p0.register, p0.space), (0, 16, 0, 0));
    let p1 = &rs.params[1];
    assert_eq!(p1.param_type, RootParamType::DescriptorTable);
    assert_eq!((p1.shader_visibility, p1.num_descriptors, p1.register, p1.space), (0, 1024, 0, 0));
    let p2 = &rs.params[2];
    assert_eq!(p2.param_type, RootParamType::RootDescriptor);
    assert_eq!((p2.shader_visibility, p2.num_descriptors, p2.register, p2.space), (0, 1, 1, 0));
    assert_eq!(rs.static_samplers.len(), 2);
    let s0 = &rs.static_samplers[0];
    assert_eq!(
        (s0.filter, s0.address_u, s0.address_v, s0.address_w, s0.shader_register, s0.register_space),
        (0, 1, 1, 1, 0, 0)
    );
    let s1 = &rs.static_samplers[1];
    assert_eq!(
        (s1.filter, s1.address_u, s1.address_v, s1.address_w, s1.shader_register, s1.register_space),
        (1, 1, 1, 1, 1, 0)
    );
    assert_eq!(rs.flags, 0x1C);
}

#[test]
fn root_cost_weighting_table() {
    let mk = |param_type: RootParamType, num: u32| RootParameter {
        param_type,
        shader_visibility: 0,
        num_descriptors: num,
        register: 0,
        space: 0,
    };
    let rs = OptimizedRootSignature {
        params: vec![
            mk(RootParamType::Constants, 5),
            mk(RootParamType::DescriptorTable, 999),
            mk(RootParamType::RootDescriptor, 7),
            mk(RootParamType::StaticSampler, 100),
        ],
        static_samplers: Vec::new(),
        flags: 0,
    };
    assert_eq!(rs.root_cost(), 5 + 1 + 2 + 0);
}

#[test]
fn fn_flags_truth_from_first_source() {
    let rs = OptimizedRootSignature::rs_graphics();
    assert_eq!(rs.flags, 0x1C);
    assert_eq!(rs.flags & 0x1, 0);
    assert_eq!(rs.flags & !0x1C, 0);
}

#[test]
fn graphics_root_cost_within_d3d12_budget() {
    let cost = OptimizedRootSignature::rs_graphics().root_cost();
    assert_eq!(cost, 19);
    assert!(cost <= 64);
}

#[test]
fn xzy_index_decode_exact_table() {
    assert_eq!(xzy_index(0, 0, 0, 16, 16), 0);
    assert_eq!(xzy_index(1, 2, 3, 16, 16), (1 * 16 + 3) * 16 + 2);
    assert_eq!(xzy_index(15, 15, 15, 16, 16), 4095);
    assert_eq!(xzy_index(2, 5, 9, 16, 16) + 1, xzy_index(2, 6, 9, 16, 16));
    for (x, y, z) in [(0, 0, 0), (1, 2, 3), (15, 0, 15), (7, 15, 4), (15, 15, 15)] {
        assert_eq!(xzy_decode(xzy_index(x, y, z, 16, 16), 16, 16), (x, y, z));
    }
}

fn spec_masks(palette: &[u16; 4096]) -> [u32; 16] {
    let mut out = [0u32; 16];
    for z in 0..16usize {
        for x in 0..16usize {
            let mut any = false;
            for y in 0..16usize {
                any |= palette[x + y * 16 + z * 256] != 0;
            }
            if any {
                out[z] |= 1u32 << x;
            }
        }
    }
    out
}

#[test]
fn empty_and_full_palettes() {
    let zero = [0u16; 4096];
    assert_eq!(greedy_mask_avx2(&zero), [0u32; 16]);
    let mut full = [1u16; 4096];
    full[123] = 7;
    full[4095] = u16::MAX;
    assert_eq!(greedy_mask_avx2(&full), [0xFFFFu32; 16]);
    assert!(!SimdAvx2Config::default().enabled);
    let cfg = SimdAvx2Config { enabled: true };
    let copied = cfg;
    assert!(copied.enabled && cfg.enabled);
}

#[test]
fn single_voxel_sets_exactly_one_bit() {
    for &(x, y, z) in &[(0usize, 0usize, 0usize), (9, 3, 7), (15, 15, 15), (8, 0, 15)] {
        let mut p = [0u16; 4096];
        p[x + y * 16 + z * 256] = 1;
        let m = greedy_mask_avx2(&p);
        for zi in 0..16usize {
            let expect = if zi == z { 1u32 << x } else { 0 };
            assert_eq!(m[zi], expect, "({x},{y},{z}): z={zi}");
        }
    }
}

#[test]
fn fuzz_matches_independent_spec() {
    let mut p = [0u16; 4096];
    for (i, v) in p.iter_mut().enumerate() {
        let h = (i as u64).wrapping_mul(0x9E37_79B9_7F4A_7C15).rotate_left(17);
        *v = if h % 7 < 3 { (i % 500) as u16 + 1 } else { 0 };
    }
    assert_eq!(greedy_mask_avx2(&p), spec_masks(&p));
}

#[test]
fn face_visible_bitmask_mapping_and_z_guard() {
    let mut p = [0u16; 4096];
    p[3 + 4 * 16 + 5 * 256] = 9;
    p[10 + 0 * 16 + 5 * 256] = 1;
    let m = greedy_mask_avx2(&p);
    assert!(face_visible_bitmask(&m, 3, 999, 5));
    assert!(face_visible_bitmask(&m, 10, 0, 5));
    assert!(!face_visible_bitmask(&m, 4, 4, 5));
    assert!(!face_visible_bitmask(&m, 3, 4, 4));
    assert!(!face_visible_bitmask(&m, 3, 4, 16));
    assert!(!face_visible_bitmask(&m, 3, 4, usize::MAX));
}

#[test]
fn face_visible_bitmask_x_guard_and_wraparound_regression() {
    let mut p = [0u16; 4096];
    p[0 + 0 * 16 + 5 * 256] = 1;
    let m = greedy_mask_avx2(&p);
    for x in [16usize, 17, 31] {
        assert!(!face_visible_bitmask(&m, x, 0, 5), "x={x}");
    }
    for x in [32usize, 33, 64, usize::MAX] {
        assert!(!face_visible_bitmask(&m, x, 0, 5), "x={x}");
    }
    assert!(face_visible_bitmask(&m, 0, 0, 5));
}

#[test]
fn tile_size_floor_and_count_ceil() {
    let b = SoftwareTileBinner::new(1920, 1080, 8);
    assert_eq!(b.tile_size, 16);
    assert_eq!(b.tile_count(), (120, 68));
    let b = SoftwareTileBinner::new(1920, 1080, 32);
    assert_eq!(b.tile_count(), (60, 34));
    let b = SoftwareTileBinner::new(0, 0, 32);
    assert_eq!(b.tile_count(), (1, 1));
}

#[test]
fn fx_tile_size_floor_boundaries() {
    assert_eq!(SoftwareTileBinner::new(640, 640, 15).tile_size, 16);
    assert_eq!(SoftwareTileBinner::new(640, 640, 16).tile_size, 16);
    assert_eq!(SoftwareTileBinner::new(640, 640, 17).tile_size, 17);
    let b = SoftwareTileBinner::new(640, 640, 17);
    assert_eq!(b.tile_count(), (38, 38));
}

#[test]
fn pack_roundtrip() {
    let p = pack_ids(0x1234, 0xABCD);
    assert_eq!(p & 0xFFFF, 0x1234);
    assert_eq!((p >> 16) & 0xFFFF, 0xABCD);
    assert_eq!(unpack_ids(p), (0x1234, 0xABCD));
}

#[test]
fn pack_64_roundtrip() {
    let p = pack_ids_64(0x12345678, 0x87654321);
    assert_eq!(unpack_ids_64(p), (0x12345678, 0x87654321));
}

#[test]
fn pack_ids_full_boundary_exact() {
    assert_eq!(pack_ids(0, 0), 0);
    assert_eq!(pack_ids(65535, 65535), 0xFFFF_FFFF);
    assert_eq!(unpack_ids(0xFFFF_FFFF), (65535, 65535));
    let p = pack_ids_64(u32::MAX, u32::MAX);
    assert_eq!(unpack_ids_64(p), (u32::MAX, u32::MAX));
    assert_eq!(unpack_ids_64(pack_ids_64(1, 0)), (1, 0));
}

#[test]
fn histogram_counts_instances_within_screen() {
    let r = VisibilityBufferResolver::new(2, 2);
    let buf = [
        pack_ids(1, 7),
        pack_ids(2, 7),
        pack_ids(3, 9),
        pack_ids(4, 7),
        pack_ids(5, 9),
    ];
    let h = r.histogram_instances(&buf);
    assert_eq!(h.len(), 2);
    assert_eq!(h[&7], 3);
    assert_eq!(h[&9], 1);
    let short = r.histogram_instances(&buf[..1]);
    assert_eq!(short.len(), 1);
    assert_eq!(short[&7], 1);
}

#[test]
fn test_wgsl_gen() {
    let code = generate_bindless_pulling_wgsl(4096);
    assert!(code.contains("pull_and_decode"));
    assert!(code.contains("resolve_main"));
    assert!(!code.contains("pos_packed"));
    assert!(!code.contains("color_packed"));
}

#[test]
fn generated_wgsl_embeds_the_instance_limit() {
    let code = generate_bindless_pulling_wgsl(4096);
    assert!(code.contains("const MAX_INSTANCES: u32 = 4096u;"));
    assert!(generate_bindless_pulling_wgsl(0).contains("const MAX_INSTANCES: u32 = 0u;"));
    assert!(generate_bindless_pulling_wgsl(123456789).contains("= 123456789u;"));
    assert!(code.contains("struct PulledFragment {\n"));
    assert!(code.ends_with("}\n"));
}
