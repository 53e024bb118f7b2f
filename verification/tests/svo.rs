use rsift_opt_gfx::section_rle::idx;
use rsift_opt_gfx::svo::{Node, SparseVoxelOctree, GPU_NODE_STRIDE, MAX_DEPTH, SECTIONS_PER_COLUMN};

const VOL: usize = 4096;

#[test]
fn uniform_air_collapses_to_one_node() {
    let p = [0u16; VOL];
    let svo = SparseVoxelOctree::from_section(&p);
    assert!(svo.node_count <= 2);
}

#[test]
fn solid_cube_compact() {
    let mut p = [0u16; VOL];
    for z in 0..16 {
        for y in 0..8 {
            for x in 0..16 {
                p[idx(x, y, z)] = 1;
            }
        }
    }
    let svo = SparseVoxelOctree::from_section(&p);
    assert!(svo.node_count < 100);
    // The root splits into eight octants: four solid leaves below, four air.
    assert_eq!(svo.node_count, 9);
    assert_eq!(svo.leaf_count, 4);
    assert_eq!(svo.sample_voxel(8, 0, 8, 0), Some(8));
    assert_eq!(svo.sample_voxel(8, 8, 8, 0), None);
}

#[test]
fn column_svo_covers_full_height() {
    let mut col = [[0u16; VOL]; 4];
    col[1][idx(5, 4, 7)] = 1; // column voxel (5, 20, 7)
    let svo = SparseVoxelOctree::from_column(&col);
    assert_eq!(svo.bounds, [16, 64, 16]);
    assert_eq!(svo.max_depth, 6, "16x64x16 -> ceil_log2(64) = 6");
    assert_eq!(svo.sample_voxel(5, 20, 7, 0), Some(8), "the voxel at y=20 is seen at the finest level");
    assert_eq!(svo.sample_voxel(5, 40, 7, 0), None, "air at y=40");
}

#[test]
fn column_leaf_is_exact_voxel() {
    let mut col = [[0u16; VOL]; 4];
    col[1][idx(5, 4, 7)] = 1;
    let svo = SparseVoxelOctree::from_column(&col);
    assert_eq!(svo.sample_voxel(5, 21, 7, 0), None, "the voxel above (5,21,7) is air");
}

#[test]
fn gpu_words_layout_matches_tree() {
    let mut col = [[0u16; VOL]; 4];
    col[1][idx(5, 4, 7)] = 1;
    col[0][idx(0, 0, 0)] = 3;
    let svo = SparseVoxelOctree::from_column(&col);
    let words = svo.to_gpu_words();
    assert_eq!(words.len(), svo.node_len() * GPU_NODE_STRIDE);
    let root = svo.root as usize;
    assert_eq!(words[root * GPU_NODE_STRIDE], 1, "root kind = Branch");
    let children = svo.node_at(root).children;
    for i in 0..8 {
        assert_eq!(words[root * GPU_NODE_STRIDE + 1 + i], children[i], "child[{i}] in slot order");
    }
    assert!(
        words.chunks(GPU_NODE_STRIDE).any(|c| c[0] == 2 + 3),
        "Uniform(3) leaf tag is 2 + b"
    );
}

#[test]
fn voxel_exact_tree_with_high_block_ids() {
    let mut p = [0u16; VOL];
    let mut state = 0x9E37_79B9_7F4A_7C15u64;
    let mut has_high = false;
    for v in p.iter_mut() {
        state = state
            .wrapping_mul(6364136223846793005)
            .wrapping_add(1442695040888963407);
        *v = match (state >> 33) % 4 {
            0 => 0,
            1 => 1,
            2 => 2,
            _ => 100,
        };
        has_high |= *v == 100;
    }
    assert!(has_high, "the generator yields block 100");
    let svo = SparseVoxelOctree::from_section(&p);
    for z in 0..16 {
        for y in 0..16 {
            for x in 0..16 {
                let b = p[idx(x, y, z)];
                let s = svo.sample_voxel(x, y, z, 0);
                if b == 0 {
                    assert_eq!(s, None, "({x},{y},{z}) is air");
                } else {
                    assert_eq!(s, Some(8), "({x},{y},{z}) block {b} is a full leaf");
                }
            }
        }
    }
    let words = svo.to_gpu_words();
    assert!(
        words.chunks(GPU_NODE_STRIDE).any(|c| c[0] == 2 + 100),
        "Uniform(100) leaf tag survives"
    );
}

#[test]
fn empty_tree_has_column_bounds_and_samples_nothing() {
    let t = SparseVoxelOctree::empty();
    assert_eq!(t.bounds, [16, 16, 64]);
    assert_eq!(t.max_depth, MAX_DEPTH);
    assert_eq!(t.node_len(), 0);
    assert_eq!(t.sample_voxel(0, 0, 0, 0), None);
    assert!(t.to_gpu_words().is_empty());
    assert_eq!(t.memory_bytes(), 0);
}

#[test]
fn column_heights_pad_to_powers_of_two() {
    let one = [[0u16; VOL]; 1];
    let two = [[0u16; VOL]; 2];
    let three = [[0u16; VOL]; 3];
    let t1 = SparseVoxelOctree::from_column(&one);
    let t2 = SparseVoxelOctree::from_column(&two);
    let t3 = SparseVoxelOctree::from_column(&three);
    assert_eq!((t1.bounds, t1.max_depth), ([16, 16, 16], 4));
    assert_eq!((t2.bounds, t2.max_depth), ([16, 32, 16], 5));
    assert_eq!((t3.bounds, t3.max_depth), ([16, 64, 16], 6));
    // All air: a single empty leaf each.
    assert_eq!(t3.node_count, 1);
    assert_eq!(t3.to_gpu_words(), vec![0u32; GPU_NODE_STRIDE]);
    assert!(SECTIONS_PER_COLUMN == 4);
}

#[test]
fn padding_above_three_sections_is_air() {
    let mut col = [[0u16; VOL]; 3];
    for s in col.iter_mut() {
        for v in s.iter_mut() {
            *v = 9;
        }
    }
    let svo = SparseVoxelOctree::from_column(&col);
    assert_eq!(svo.sample_voxel(3, 47, 3, 0), Some(8));
    assert_eq!(svo.sample_voxel(3, 48, 3, 0), None, "padding above 48 is air");
    assert_eq!(svo.sample_voxel(3, 64, 3, 0), None, "outside the bounds");
}

#[test]
fn coarse_lod_reports_solid_children() {
    let mut p = [0u16; VOL];
    // One voxel in the lowest octant: the root has exactly one solid child.
    p[idx(1, 1, 1)] = 4;
    let svo = SparseVoxelOctree::from_section(&p);
    assert_eq!(svo.sample_voxel(1, 1, 1, 0), Some(8));
    assert_eq!(svo.sample_voxel(2, 1, 1, 0), None);
    // lod >= depth: the descent stops at the root and counts its children.
    assert_eq!(svo.sample_voxel(12, 12, 12, 4), Some(1));
    assert_eq!(svo.sample_voxel(12, 12, 12, 9), Some(1));
    // One level down, the far octant is air.
    assert_eq!(svo.sample_voxel(12, 12, 12, 3), None);
}

#[test]
fn memory_bytes_counts_nodes() {
    let mut p = [0u16; VOL];
    p[0] = 1;
    let svo = SparseVoxelOctree::from_section(&p);
    assert_eq!(svo.memory_bytes(), svo.node_len() * std::mem::size_of::<Node>());
    assert_eq!(svo.node_count as usize, svo.node_len());
    assert_eq!(svo.leaf_count, 1);
}
