use rsift_opt_gfx::vertex_cache_opt::{acmr_misses, VertexCacheOptimizer};

/// Per-vertex score from its simulated cache slot (-1: not cached).
fn vertex_score(cache_size: u32, cache_pos: i32) -> f32 {
    if cache_pos < 0 {
        0.0
    } else if cache_pos < 3 {
        0.75 + 10.0
    } else {
        let span = (cache_size as i32 - 3).max(1) as f32;
        let scaled = 1.0 - (cache_pos - 3) as f32 / span;
        2.0 * scaled * scaled
    }
}

fn optimize(opt: &VertexCacheOptimizer, indices: &[u32]) -> Vec<u32> {
    let cs = opt.cache_size;
    opt.optimize(indices, move |a: i32, b: i32, c: i32| {
        (vertex_score(cs, a) + vertex_score(cs, b) + vertex_score(cs, c)).to_bits()
    })
}

fn acmr(indices: &[u32], cache_size: u32) -> f32 {
    let ntri = indices.len() / 3;
    if ntri == 0 {
        return 0.0;
    }
    acmr_misses(indices, cache_size) as f32 / ntri as f32
}

fn grid_indices() -> Vec<u32> {
    let cell = |x: u32, y: u32| -> [u32; 4] {
        let b = y * 3 + x;
        [b, b + 1, b + 3, b + 4]
    };
    let mut idx = Vec::new();
    for y in 0..2u32 {
        for x in 0..2u32 {
            let [a, b, c, d] = cell(x, y);
            idx.extend_from_slice(&[a, c, b, b, c, d]);
        }
    }
    idx
}

fn grid_indices_n(cells: u32) -> Vec<u32> {
    let mut idx = Vec::new();
    for y in 0..cells {
        for x in 0..cells {
            let b = y * (cells + 1) + x;
            let (c, d) = (b + (cells + 1), b + (cells + 2));
            idx.extend_from_slice(&[b, c, b + 1, b + 1, c, d]);
        }
    }
    idx
}

fn sorted_tris(idx: &[u32]) -> Vec<[u32; 3]> {
    let mut a: Vec<[u32; 3]> = idx
        .chunks_exact(3)
        .map(|c| {
            let mut x = [c[0], c[1], c[2]];
            x.sort();
            x
        })
        .collect();
    a.sort();
    a
}

#[test]
fn optimality_reduces_acmr() {
    let idx = grid_indices_n(4);
    let opt = VertexCacheOptimizer::new(8);
    let before = acmr(&idx, 8);
    let reordered = optimize(&opt, &idx);
    let after = acmr(&reordered, 8);
    assert!(after < before, "ACMR {after} should beat {before}");
    assert!(after < 2.0, "optimized ACMR should be well under 3.0, got {after}");
}

#[test]
fn reordered_has_same_triangles() {
    let idx = grid_indices();
    let opt = VertexCacheOptimizer::new(16);
    let r = optimize(&opt, &idx);
    assert_eq!(r.len(), idx.len());
    assert_eq!(sorted_tris(&idx), sorted_tris(&r));
}

#[test]
fn worst_case_unoptimized_is_high() {
    let idx: Vec<u32> = (0..30u32).collect();
    let a = acmr(&idx, 16);
    assert!((a - 3.0).abs() < 1e-3, "got {a}");
}

#[test]
fn emits_exact_sequence_empty_cache_tie() {
    let opt = VertexCacheOptimizer::new(4);
    let out = optimize(&opt, &[0, 1, 2, 3, 4, 5]);
    assert_eq!(out, vec![3, 4, 5, 0, 1, 2]);
}

#[test]
fn emits_exact_sequence_shared_edge_rescore() {
    let opt = VertexCacheOptimizer::new(4);
    let out = optimize(&opt, &[0, 1, 2, 2, 1, 3]);
    assert_eq!(out, vec![2, 1, 3, 0, 1, 2]);
}

#[test]
fn acmr_exact_pins_lru_model() {
    assert_eq!(acmr(&[3, 4, 5, 0, 1, 2], 4), 3.0);
    assert_eq!(acmr(&[2, 1, 3, 0, 1, 2], 4), 2.0);
    assert_eq!(acmr_misses(&[2, 1, 3, 0, 1, 2], 4), 4);
}

#[test]
fn new_clamps_cache_size_and_default_is_24() {
    assert_eq!(VertexCacheOptimizer::new(0).cache_size, 4);
    assert_eq!(VertexCacheOptimizer::new(3).cache_size, 4);
    assert_eq!(VertexCacheOptimizer::new(32).cache_size, 32);
    assert_eq!(VertexCacheOptimizer::default().cache_size, 24);
}

#[test]
fn lru_eviction_counts_a_miss_again() {
    // Cache of 4: 0..4 fill it, 4 evicts 0, so the second 0 misses again;
    // 4 was just used and hits.
    assert_eq!(acmr_misses(&[0, 1, 2, 3, 4, 0], 4), 6);
    assert_eq!(acmr_misses(&[0, 1, 2, 3, 4, 4], 4), 5);
    // A hit moves the vertex to the front, so it survives the next miss.
    assert_eq!(acmr_misses(&[0, 1, 2, 3, 0, 4, 0, 1, 2], 4), 7);
    assert_eq!(acmr_misses(&[], 4), 0);
}

#[test]
fn optimize_keeps_every_triangle_of_a_larger_grid() {
    let idx = grid_indices_n(6);
    let opt = VertexCacheOptimizer::new(8);
    let r = optimize(&opt, &idx);
    assert_eq!(sorted_tris(&idx), sorted_tris(&r));
    // Vertex order within each triangle is kept.
    for tri in r.chunks_exact(3) {
        assert!(idx.chunks_exact(3).any(|t| t == tri));
    }
    assert!(optimize(&opt, &[]).is_empty());
}
