use rsift_opt_gfx::tiled_deferred::{LightTileGrid, MAX_LIGHTS_PER_TILE, TILE_SIZE_PIXELS};

/// Screen footprint of a point light (row-vector convention, `p x M`), as
/// the renderer projects it; `None` when clip w is at or below 0.1.
fn footprint(g: &LightTileGrid, pos: [f32; 3], radius: f32, m: &[[f32; 4]; 4]) -> Option<(i32, i32, i32)> {
    let x = pos[0] * m[0][0] + pos[1] * m[1][0] + pos[2] * m[2][0] + m[3][0];
    let y = pos[0] * m[0][1] + pos[1] * m[1][1] + pos[2] * m[2][1] + m[3][1];
    let ww = pos[0] * m[0][3] + pos[1] * m[1][3] + pos[2] * m[2][3] + m[3][3];
    if ww <= 0.1 {
        return None;
    }
    let w = g.screen_width as f32;
    let h = g.screen_height as f32;
    let sx = ((x / ww * 0.5 + 0.5) * w) as i32;
    let sy = ((1.0 - (y / ww * 0.5 + 0.5)) * h) as i32;
    let sr = ((radius / ww) * w * 0.5) as i32;
    Some((sx, sy, sr))
}

fn cull(g: &mut LightTileGrid, lights: &[([f32; 3], f32)], m: &[[f32; 4]; 4]) {
    let fps: Vec<Option<(i32, i32, i32)>> = lights.iter().map(|&(p, r)| footprint(g, p, r, m)).collect();
    g.bin_lights(&fps);
}

const ID: [[f32; 4]; 4] = [[1.0, 0.0, 0.0, 0.0], [0.0, 1.0, 0.0, 0.0], [0.0, 0.0, 1.0, 0.0], [0.0, 0.0, 0.0, 1.0]];

#[test]
fn test_tiled_deferred_light_culling() {
    let mut g = LightTileGrid::new(1280, 720);
    let vp = [[1.0, 0.0, 0.0, 0.0], [0.0, 1.0, 0.0, 0.0], [0.0, 0.0, 1.0, 0.0], [0.0, 0.0, 1.0, 10.0]];
    cull(&mut g, &[([0.0, 64.0, 0.0], 10.0)], &vp);
    assert_eq!(g.tiles.len(), g.tiles_x * g.tiles_y);
}

#[test]
fn cull_px_m_convention_translation_pin() {
    let mut g = LightTileGrid::new(1920, 1080);
    let translate = [[1.0, 0.0, 0.0, 0.0], [0.0, 1.0, 0.0, 0.0], [0.0, 0.0, 1.0, 0.0], [0.5, 0.0, 0.0, 1.0]];
    cull(&mut g, &[([0.0, 0.0, 1.0], 1.0)], &translate);
    assert_eq!(g.tiles[30].light_indices.len(), 1, "x += 0.5 gives sx=1440, tiles 30..119");
    assert_eq!(g.tiles[29].light_indices.len(), 0, "tiles 0..29 stay empty");
}

#[test]
fn cull_offscreen_translation_excluded_pin() {
    let mut g = LightTileGrid::new(1920, 1080);
    let translate = [[1.0, 0.0, 0.0, 0.0], [0.0, 1.0, 0.0, 0.0], [0.0, 0.0, 1.0, 0.0], [10.0, 0.0, 0.0, 1.0]];
    cull(&mut g, &[([0.0, 0.0, 1.0], 1.0)], &translate);
    assert!(g.tiles.iter().all(|tl| tl.light_indices.is_empty()), "sx=10560 gives min_tx=600 > 119");
}

#[test]
fn cull_px_m_z_translation_no_vanish_pin() {
    let mut g = LightTileGrid::new(1920, 1080);
    let translate = [[1.0, 0.0, 0.0, 0.0], [0.0, 1.0, 0.0, 0.0], [0.0, 0.0, 1.0, 0.0], [0.0, 0.0, -50.0, 1.0]];
    cull(&mut g, &[([0.0, 0.0, 1.0], 1.0)], &translate);
    assert_eq!(g.tiles[400].light_indices.len(), 1, "w stays 1, the light does not vanish");
}

#[test]
fn cull_identity_golden_counts() {
    let mut g = LightTileGrid::new(1920, 1080);
    cull(&mut g, &[([0.0, 0.0, 1.0], 1.0)], &ID);
    assert_eq!(g.tiles_x * g.tiles_y, 8160, "120x68 = 8160 tiles");
    assert_eq!(g.tiles.iter().filter(|tl| !tl.light_indices.is_empty()).count(), 8160, "every tile one light");
    assert_eq!(g.tiles.iter().map(|tl| tl.light_indices.len()).max(), Some(1));
}

#[test]
fn cap_64_silent_drop_pin() {
    let mut g = LightTileGrid::new(1920, 1080);
    let lights = vec![([0.0, 0.0, 1.0], 1.0); 65];
    cull(&mut g, &lights, &ID);
    assert_eq!(g.tiles.iter().map(|tl| tl.light_indices.len()).max(), Some(64), "65 lights, cap 64");
    assert_eq!(g.tiles[0].light_indices, (0..64).collect::<Vec<u32>>());
}

#[test]
fn ww_threshold_skip_pin() {
    let mut g = LightTileGrid::new(1920, 1080);
    let mut vp = ID;
    vp[2][3] = -1.0;
    vp[3][3] = -1.0;
    cull(&mut g, &[([0.0, 0.0, 0.0], 1.0), ([0.0, 0.0, -11.0], 1.0)], &vp);
    assert_eq!(g.tiles.iter().map(|tl| tl.light_indices.len()).max(), Some(1), "w=-1 skipped, w=10 kept");
}

#[test]
fn ww_threshold_boundary_exact_pin() {
    let mut g = LightTileGrid::new(1920, 1080);
    let mut vp_skip = ID;
    vp_skip[3][3] = 0.1;
    cull(&mut g, &[([0.0, 0.0, 1.0], 1.0)], &vp_skip);
    assert!(g.tiles.iter().all(|tl| tl.light_indices.is_empty()), "w == 0.1f32 is skipped");
    let mut vp_keep = ID;
    vp_keep[3][3] = f32::from_bits(0x3DCC_CCCE);
    cull(&mut g, &[([0.0, 0.0, 1.0], 1.0)], &vp_keep);
    assert_eq!(g.tiles.iter().map(|tl| tl.light_indices.len()).max(), Some(1), "one ulp above 0.1 is kept");
}

#[test]
fn new_geometry_and_empty_pin() {
    let g = LightTileGrid::new(1920, 1080);
    assert_eq!((g.tiles_x, g.tiles_y, g.tiles.len()), (120, 68, 8160));
    let mut g2 = LightTileGrid::new(1, 1);
    assert_eq!((g2.tiles_x, g2.tiles_y, g2.tiles.len()), (1, 1, 1));
    g2.bin_lights(&[]);
    assert!(g2.tiles[0].light_indices.is_empty(), "no lights, every tile empty");
}

#[test]
fn bin_lights_integer_footprints() {
    let mut g = LightTileGrid::new(64, 32);
    assert_eq!((g.tiles_x, g.tiles_y), (4, 2));
    // (20, 5) r=4: x 16..24 -> tile 1, y 1..9 -> tile 0
    // (0, 0) r=40: low end clamps to 0, high end 40/16=2 -> tiles 0..2, rows 0..1
    g.bin_lights(&[Some((20, 5, 4)), None, Some((0, 0, 40))]);
    assert_eq!(g.tiles[1].light_indices, vec![0, 2]);
    assert_eq!(g.tiles[0].light_indices, vec![2]);
    assert_eq!(g.tiles[3].light_indices, Vec::<u32>::new());
    assert_eq!(g.tiles[4 + 2].light_indices, vec![2]);
    assert_eq!(TILE_SIZE_PIXELS, 16);
    assert_eq!(MAX_LIGHTS_PER_TILE, 64);
    // re-binning clears the earlier lists
    g.bin_lights(&[None]);
    assert!(g.tiles.iter().all(|t| t.light_indices.is_empty()));
}

#[test]
fn bin_lights_on_empty_screen_with_offscreen_light() {
    let mut g = LightTileGrid::new(0, 0);
    assert_eq!(g.tiles.len(), 0);
    // low end 100/16 = 6 exceeds the clamped high end 0: nothing to bin
    g.bin_lights(&[Some((100, 100, 0))]);
    assert_eq!(g.tiles.len(), 0);
}
