use rsift_opt_gfx::software_tiling::{SoftwareTileBinner, TileDrawList};

/// Top-down projection around the camera chunk (0.05 NDC per chunk) to
/// pixel coordinates and a depth key in thousandths of a chunk, as the
/// renderer computes it before binning.
fn project(b: &SoftwareTileBinner, chunks: &[(i32, i32)], cam_x: f32, cam_z: f32) -> Vec<(u32, u32, u32)> {
    chunks
        .iter()
        .map(|&(cx, cz)| {
            let dx = cx as f32 - cam_x;
            let dz = cz as f32 - cam_z;
            let px = ((dx * 0.05 * 0.5 + 0.5) * b.screen_w as f32) as u32;
            let py = ((dz * 0.05 * 0.5 + 0.5) * b.screen_h as f32) as u32;
            let d = dx.hypot(dz);
            (px, py, (d * 1000.0) as u32)
        })
        .collect()
}

fn bin_chunks(b: &SoftwareTileBinner, chunks: &[(i32, i32)], cam_x: f32, cam_z: f32) -> Vec<TileDrawList> {
    b.bin_tiles(&project(b, chunks, cam_x, cam_z))
}

#[test]
fn bin_chunks_projects_sorts_tiles_and_front_to_back() {
    let b = SoftwareTileBinner::new(640, 640, 32);
    let chunks = [(5, 0), (4, 0), (0, 5), (0, 0)];
    let lists = bin_chunks(&b, &chunks, 0.0, 0.0);
    let tiles: Vec<(u32, u32)> = lists.iter().map(|l| (l.tile.tx, l.tile.ty)).collect();
    assert_eq!(tiles, vec![(10, 10), (12, 10), (10, 12)]);
    let t = lists.iter().find(|l| l.tile.tx == 12).unwrap();
    assert_eq!(t.chunk_indices, vec![1, 0]);
    let single = bin_chunks(&b, &[(0, 0)], 0.0, 0.0);
    assert_eq!((single[0].tile.tx, single[0].tile.ty), (10, 10));
    assert_eq!(single[0].chunk_indices, vec![0]);
}

#[test]
fn fx_camera_origin_recenters_bins() {
    let b = SoftwareTileBinner::new(640, 640, 32);
    let centered = bin_chunks(&b, &[(4, 0)], 4.0, 0.0);
    assert_eq!((centered[0].tile.tx, centered[0].tile.ty), (10, 10));
    let offorigin = bin_chunks(&b, &[(4, 0)], 0.0, 0.0);
    assert_eq!((offorigin[0].tile.tx, offorigin[0].tile.ty), (12, 10));
}

#[test]
fn fx_bin_edges_saturate_and_cap() {
    let b = SoftwareTileBinner::new(640, 640, 32);
    let right = bin_chunks(&b, &[(200, 0)], 0.0, 0.0);
    assert_eq!(right[0].tile.tx, 19, "overrange to the right is capped at tw-1 (px=3520/32=110)");
    let left = bin_chunks(&b, &[(-200, 0)], 0.0, 0.0);
    assert_eq!(left[0].tile.tx, 0, "overrange to the left saturates to 0");
    let far_neg = bin_chunks(&b, &[(0, -500)], 0.0, 0.0);
    assert_eq!(far_neg[0].tile.ty, 0, "overrange upwards gives ty=0");
}

#[test]
fn fx_equal_distance_stable_order() {
    let b = SoftwareTileBinner::new(640, 640, 32);
    let chunks = [(4, 0), (4, 0), (4, 0)];
    let lists = bin_chunks(&b, &chunks, 0.0, 0.0);
    assert_eq!(lists.len(), 1);
    assert_eq!(lists[0].chunk_indices, vec![0, 1, 2], "equal depth in one tile keeps input order");
}

#[test]
fn bin_tiles_on_pixels_directly() {
    let b = SoftwareTileBinner::new(64, 64, 32);
    // two tiles per axis; (40, 5) is tile (1,0), (0, 40) tile (0,1), (1, 1) tile (0,0)
    let pts = [(40, 5, 7), (0, 40, 1), (1, 1, 9), (33, 0, 3), (500, 500, 0)];
    let lists = b.bin_tiles(&pts);
    let tiles: Vec<(u32, u32)> = lists.iter().map(|l| (l.tile.tx, l.tile.ty)).collect();
    assert_eq!(tiles, vec![(0, 0), (1, 0), (0, 1), (1, 1)]);
    assert_eq!(lists[1].chunk_indices, vec![3, 0]);
    assert_eq!(lists[3].chunk_indices, vec![4]);
}

#[test]
fn bin_tiles_empty_input_gives_no_lists() {
    let b = SoftwareTileBinner::new(640, 480, 32);
    assert!(b.bin_tiles(&[]).is_empty());
}
