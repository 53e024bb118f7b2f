use rsift_opt_gfx::texture_atlas_virtual::{TileCoord, VirtualAtlas};

fn tile(x: u32, y: u32, mip: u8) -> TileCoord {
    TileCoord { x, y, mip }
}

fn ratio(a: &VirtualAtlas) -> f32 {
    a.resident_count() as f32 / a.capacity_pages as f32
}

#[test]
fn new_initializes_full_free_pool() {
    let a = VirtualAtlas::new(1024, 1024, 64, 4);
    assert_eq!(a.free_pages, (0..4).collect::<Vec<u32>>());
    assert_eq!(a.resident_count(), 0);
    assert_eq!(a.page_of(tile(0, 0, 0)), None);
    assert_eq!(ratio(&a), 0.0);
}

#[test]
fn request_allocates_lifo_pages_and_is_idempotent() {
    let mut a = VirtualAtlas::new(1024, 1024, 64, 4);
    let s = a.request_tiles(&[tile(0, 0, 0), tile(1, 0, 0)]);
    assert_eq!(s, vec![tile(0, 0, 0), tile(1, 0, 0)]);
    assert_eq!(a.page_of(tile(0, 0, 0)), Some(3));
    assert_eq!(a.page_of(tile(1, 0, 0)), Some(2));
    assert!(a.request_tiles(&[tile(0, 0, 0)]).is_empty());
    assert_eq!(a.free_pages.len(), 2);
    let dup = a.request_tiles(&[tile(9, 9, 0), tile(9, 9, 0)]);
    assert_eq!(dup, vec![tile(9, 9, 0)]);
    assert_eq!(a.free_pages.len(), 1);
    assert_eq!(ratio(&a), 0.75);
}

#[test]
fn capacity_exhaustion_rejects_overflow() {
    let mut a = VirtualAtlas::new(1024, 1024, 64, 2);
    let s = a.request_tiles(&[tile(0, 0, 0), tile(1, 0, 0), tile(2, 0, 0)]);
    assert_eq!(s.len(), 2);
    assert!(a.is_resident(tile(0, 0, 0)));
    assert!(!a.is_resident(tile(2, 0, 0)));
    assert!(a.page_of(tile(2, 0, 0)).is_none());
}

#[test]
fn evict_lru_returns_pages_and_allows_restream() {
    let mut a = VirtualAtlas::new(1024, 1024, 64, 2);
    let _ = a.request_tiles(&[tile(0, 0, 0), tile(1, 0, 0)]);
    a.evict_lru(2);
    assert_eq!(a.resident_count(), 0);
    assert!(a.page_of(tile(0, 0, 0)).is_none());
    assert_eq!(a.free_pages.len(), 2);
    assert_eq!(ratio(&a), 0.0);
    assert_eq!(a.request_tiles(&[tile(0, 0, 0)]), vec![tile(0, 0, 0)]);
}

#[test]
fn evict_is_true_lru_recency_order() {
    let mut a = VirtualAtlas::new(1024, 1024, 64, 4);
    let _ = a.request_tiles(&[tile(0, 0, 0), tile(1, 0, 0), tile(0, 0, 1), tile(5, 5, 1)]);
    assert_eq!(a.page_of(tile(0, 0, 0)), Some(3));
    assert_eq!(a.page_of(tile(5, 5, 1)), Some(0));
    assert_eq!(a.last_access_of(tile(0, 0, 0)), Some(1));
    assert_eq!(a.last_access_of(tile(5, 5, 1)), Some(4));
    assert_eq!(a.access_clock, 4);
    a.evict_lru(2);
    assert!(!a.is_resident(tile(0, 0, 0)));
    assert!(!a.is_resident(tile(1, 0, 0)));
    assert!(a.is_resident(tile(0, 0, 1)));
    assert!(a.is_resident(tile(5, 5, 1)));
    assert!(a.last_access_of(tile(0, 0, 0)).is_none());
    assert_eq!(ratio(&a), 0.5);
    let s = a.request_tiles(&[tile(9, 9, 1)]);
    assert_eq!(s, vec![tile(9, 9, 1)]);
    assert_eq!(a.page_of(tile(9, 9, 1)), Some(2), "last returned page is handed out again");
    assert_eq!(a.last_access_of(tile(9, 9, 1)), Some(5));
    a.evict_lru(100);
    assert_eq!(a.resident_count(), 0);
    assert_eq!(a.free_pages.len(), 4);
}

#[test]
fn recent_touch_protects_from_eviction() {
    let mut a = VirtualAtlas::new(1024, 1024, 64, 3);
    let _ = a.request_tiles(&[tile(0, 0, 0), tile(1, 0, 0), tile(2, 0, 0)]);
    let s = a.request_tiles(&[tile(0, 0, 0)]);
    assert!(s.is_empty());
    assert_eq!(a.last_access_of(tile(0, 0, 0)), Some(4));
    assert_eq!(a.access_clock, 4);
    a.evict_lru(2);
    assert!(a.is_resident(tile(0, 0, 0)), "touched tile survives");
    assert!(!a.is_resident(tile(1, 0, 0)));
    assert!(!a.is_resident(tile(2, 0, 0)));
    assert_eq!(a.resident_count(), 1);
}

#[test]
fn eviction_is_deterministic_for_identical_history() {
    let hist: [&[TileCoord]; 4] = [&[tile(1, 1, 0), tile(2, 2, 1)], &[tile(3, 3, 2)], &[tile(1, 1, 0)], &[tile(4, 4, 0)]];
    let mut a = VirtualAtlas::new(1024, 1024, 64, 8);
    let mut b = VirtualAtlas::new(1024, 1024, 64, 8);
    for h in hist {
        let _ = a.request_tiles(h);
    }
    for h in hist {
        let _ = b.request_tiles(h);
    }
    a.evict_lru(2);
    b.evict_lru(2);
    for t in [tile(1, 1, 0), tile(2, 2, 1), tile(3, 3, 2), tile(4, 4, 0)] {
        assert_eq!(a.is_resident(t), b.is_resident(t));
        assert_eq!(a.last_access_of(t), b.last_access_of(t));
    }
    assert_eq!(a.free_pages, b.free_pages);
    assert!(a.is_resident(tile(1, 1, 0)));
    assert!(a.is_resident(tile(4, 4, 0)));
    assert!(!a.is_resident(tile(2, 2, 1)));
    assert!(!a.is_resident(tile(3, 3, 2)));
    assert_eq!(a.free_pages, vec![0, 1, 2, 3, 6, 5]);
}

#[test]
fn evict_selection_is_recency_dependent() {
    let fwd = [tile(1, 1, 0), tile(2, 2, 1), tile(3, 3, 2), tile(4, 4, 0)];
    let mut rev = fwd;
    rev.reverse();
    let mut a = VirtualAtlas::new(1024, 1024, 64, 8);
    let mut b = VirtualAtlas::new(1024, 1024, 64, 8);
    let _ = a.request_tiles(&fwd);
    let _ = b.request_tiles(&rev);
    a.evict_lru(2);
    b.evict_lru(2);
    assert!(a.is_resident(tile(3, 3, 2)));
    assert!(a.is_resident(tile(4, 4, 0)));
    assert!(b.is_resident(tile(1, 1, 0)));
    assert!(b.is_resident(tile(2, 2, 1)));
    assert!(!a.is_resident(tile(1, 1, 0)));
    assert_eq!(a.last_access_of(tile(3, 3, 2)), Some(3));
    assert_eq!(b.last_access_of(tile(2, 2, 1)), Some(3));
}

#[test]
fn lru_invariant_keys_match_resident_across_ops() {
    let mut a = VirtualAtlas::new(1024, 1024, 64, 2);
    let s = a.request_tiles(&[tile(0, 0, 0), tile(1, 0, 0), tile(2, 0, 0)]);
    assert_eq!(s.len(), 2);
    assert!(a.last_access_of(tile(2, 0, 0)).is_none());
    assert_eq!(a.access_clock, 2);
    a.evict_lru(1);
    assert!(a.last_access_of(tile(0, 0, 0)).is_none());
    let s = a.request_tiles(&[tile(2, 0, 0)]);
    assert_eq!(s, vec![tile(2, 0, 0)]);
    assert_eq!(a.page_of(tile(2, 0, 0)), Some(1));
    assert_eq!(a.last_access_of(tile(2, 0, 0)), Some(3));
    assert_eq!(a.resident_count(), 2);
}
