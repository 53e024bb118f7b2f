use rsift_opt_gfx::vertex_pool::{BuiltChunkMesh, VertexPool};

fn mesh(cx: i32, cz: i32, quads: usize) -> BuiltChunkMesh {
    let mut vertices = Vec::new();
    let mut indices = Vec::new();
    for _ in 0..quads {
        let base = vertices.len() as u32;
        for k in 0..4u32 {
            vertices.push([k << 16, 0, 0]);
        }
        indices.extend_from_slice(&[base, base + 1, base + 2, base + 2, base + 3, base]);
    }
    BuiltChunkMesh { chunk_x: cx, chunk_z: cz, vertices, indices }
}

#[test]
fn capacity_derived_and_upload_advances_cursors() {
    let mut pool = VertexPool::new(1024);
    assert_eq!(pool.capacity_indices, 1536);
    assert_eq!(pool.vertex_bytes, 12);
    let s0 = pool.upload_mesh(&mesh(0, 0, 2)).unwrap();
    assert_eq!((s0.vertex_offset, s0.vertex_count), (0, 8));
    assert_eq!((s0.index_offset, s0.index_count), (0, 12));
    assert_eq!(s0.generation, 0);
    let s1 = pool.upload_mesh(&mesh(1, 0, 1)).unwrap();
    assert_eq!((s1.vertex_offset, s1.index_offset), (8, 12));
    assert_eq!(pool.active_chunks(), 2);
    assert_eq!(pool.ring_uploads, 2);
}

#[test]
fn empty_mesh_evicts_and_returns_none() {
    let mut pool = VertexPool::new(128);
    assert!(pool.upload_mesh(&mesh(0, 0, 0)).is_none());
    assert_eq!(pool.active_chunks(), 0);
    let _ = pool.upload_mesh(&mesh(1, 1, 1)).unwrap();
    assert!(pool.upload_mesh(&mesh(1, 1, 0)).is_none());
    assert_eq!(pool.active_chunks(), 0);
}

#[test]
fn oversize_mesh_rejected_without_cursor_advance() {
    let mut pool = VertexPool::new(4);
    assert_eq!(pool.capacity_indices, 6);
    let big = mesh(9, 9, 2);
    assert!(pool.upload_mesh(&big).is_none());
    assert_eq!(pool.vertex_cursor, 0);
    assert_eq!(pool.index_cursor, 0);
    assert!(pool.slots.is_empty());
}

#[test]
fn ring_reset_on_exhaustion_with_generation_advance() {
    let mut pool = VertexPool::new(12);
    let _ = pool.upload_mesh(&mesh(0, 0, 2)).unwrap();
    let s = pool.upload_mesh(&mesh(1, 0, 1)).unwrap();
    assert_eq!(s.vertex_offset, 8);
    assert_eq!(pool.generation, 0);
    let s2 = pool.upload_mesh(&mesh(2, 0, 1)).unwrap();
    assert_eq!(s2.vertex_offset, 0);
    assert_eq!(s2.generation, 1);
    assert_eq!(pool.active_chunks(), 1);
    assert_eq!(pool.ring_uploads, 3);
}

#[test]
fn oversize_reject_evicts_stale_slot_and_counts() {
    let mut pool = VertexPool::new(4);
    let s = pool.upload_mesh(&mesh(0, 0, 1)).unwrap();
    assert_eq!((s.vertex_offset, s.index_offset, s.generation), (0, 0, 0));
    assert_eq!((pool.vertex_cursor, pool.index_cursor), (4, 6));
    assert!(pool.upload_mesh(&mesh(0, 0, 2)).is_none());
    assert_eq!(pool.active_chunks(), 0);
    assert_eq!(pool.oversize_rejects, 1);
    assert_eq!((pool.vertex_cursor, pool.index_cursor), (4, 6));
    assert_eq!(pool.ring_uploads, 1);
    assert!(pool.upload_mesh(&mesh(7, 7, 2)).is_none());
    assert_eq!(pool.oversize_rejects, 2);
    assert!(pool.upload_mesh(&mesh(0, 0, 0)).is_none());
    assert_eq!(pool.oversize_rejects, 2);
}

#[test]
fn refresh_replaces_mapping_and_abandons_old_region() {
    let mut pool = VertexPool::new(16);
    let s0 = pool.upload_mesh(&mesh(0, 0, 1)).unwrap();
    let s1 = pool.upload_mesh(&mesh(0, 0, 2)).unwrap();
    assert_eq!((s0.vertex_offset, s0.vertex_count), (0, 4));
    assert_eq!(
        (s1.vertex_offset, s1.index_offset, s1.vertex_count, s1.index_count),
        (4, 6, 8, 12)
    );
    assert_eq!(pool.active_chunks(), 1);
    assert_eq!(pool.ring_uploads, 2);
    assert_eq!(pool.generation, 0);
    let g = pool.slot(0, 0).unwrap();
    assert_eq!((g.vertex_offset, g.vertex_count, g.generation), (4, 8, 0));
}

#[test]
fn exact_capacity_boundary_fits_then_next_resets() {
    let mut pool = VertexPool::new(8);
    let s = pool.upload_mesh(&mesh(0, 0, 2)).unwrap();
    assert_eq!((s.vertex_offset, s.generation), (0, 0));
    let s2 = pool.upload_mesh(&mesh(1, 0, 1)).unwrap();
    assert_eq!((s2.vertex_offset, s2.index_offset, s2.generation), (0, 0, 1));
    assert_eq!(pool.active_chunks(), 1);
}

#[test]
fn generation_wraps_on_reset_and_floor_ratio_pin() {
    let mut pool = VertexPool::new(4);
    pool.generation = u32::MAX;
    let _ = pool.upload_mesh(&mesh(0, 0, 1)).unwrap();
    let s = pool.upload_mesh(&mesh(1, 0, 1)).unwrap();
    assert_eq!(s.generation, 0);
    let mut pool = VertexPool::new(5);
    assert_eq!(pool.capacity_indices, 7);
    let s = pool.upload_mesh(&mesh(0, 0, 1)).unwrap();
    assert_eq!((s.vertex_count, s.index_count), (4, 6));
}
