use rsift_opt_gfx::sparse_texture::{translate_with_fallback, SparsePageTable};

#[test]
fn request_allocates_and_resident() {
    let mut t = SparsePageTable::new(4);
    let s = t.request(1, 0);
    assert!(t.is_resident(1, 0));
    assert_eq!(s, 0);
    assert_eq!(t.resident_count(), 1);
}

#[test]
fn evicts_lru_when_full() {
    let mut t = SparsePageTable::new(2);
    t.request(1, 0);
    t.request(2, 0);
    let s = t.request(3, 0);
    assert_eq!(s, 0);
    assert!(!t.is_resident(1, 0));
    assert!(t.is_resident(2, 0));
    assert!(t.is_resident(3, 0));
    assert_eq!(t.resident_count(), 2);
}

#[test]
fn touch_promotes_mru() {
    let mut t = SparsePageTable::new(2);
    t.request(1, 0);
    t.request(2, 0);
    t.request(1, 0);
    t.request(3, 0);
    assert!(t.is_resident(1, 0));
    assert!(!t.is_resident(2, 0));
    assert!(t.is_resident(3, 0));
}

#[test]
fn lru_exact_slot_sequence_pinned() {
    let mut t = SparsePageTable::new(3);
    assert_eq!(t.request_with_eviction(10, 0), (0, None));
    assert_eq!(t.request_with_eviction(11, 0), (1, None));
    assert_eq!(t.request_with_eviction(12, 0), (2, None));
    assert_eq!(t.request_with_eviction(11, 0), (1, None));
    assert_eq!(t.request_with_eviction(13, 0), (0, Some((10, 0))));
    assert!(!t.is_resident(10, 0));
    assert!(t.is_resident(11, 0));
    assert!(t.is_resident(12, 0));
    assert!(t.is_resident(13, 0));
    assert_eq!(t.request_with_eviction(14, 0), (2, Some((12, 0))));
    assert!(!t.is_resident(12, 0));
    assert_eq!(t.resident_count(), 3);
}

#[test]
fn request_with_eviction_reports_exact_key() {
    let mut t = SparsePageTable::new(2);
    assert_eq!(t.request_with_eviction(1, 0), (0, None));
    assert_eq!(t.request_with_eviction(2, 0), (1, None));
    assert_eq!(t.request_with_eviction(1, 0), (0, None));
    assert_eq!(t.request_with_eviction(3, 1), (1, Some((2, 0))));
    assert!(!t.is_resident(2, 0));
    assert!(t.is_resident(3, 1));
    assert!(!t.is_resident(3, 0));
}

#[test]
fn translate_with_fallback_exact_table() {
    let tbl = [5, u32::MAX, 7, u32::MAX, u32::MAX, u32::MAX];
    assert_eq!(translate_with_fallback(&tbl, 2, 2, 0, 0), 5);
    assert_eq!(translate_with_fallback(&tbl, 2, 2, 0, 1), 5);
    assert_eq!(translate_with_fallback(&tbl, 2, 2, 0, 2), 7);
    assert_eq!(translate_with_fallback(&tbl, 2, 2, 1, 0), u32::MAX);
    assert_eq!(translate_with_fallback(&tbl, 2, 2, 1, 2), u32::MAX);
    assert_eq!(translate_with_fallback(&tbl, 2, 2, 2, 0), u32::MAX);
    assert_eq!(translate_with_fallback(&tbl, 2, 2, 0, 3), u32::MAX);
}

#[test]
fn translate_fallback_is_finest_resident_ancestor_oracle() {
    let mut tbl = vec![u32::MAX; 8 * 5];
    let mut s: u64 = 0x9E3779B97F4A7C15;
    for v in tbl.iter_mut() {
        s = s
            .wrapping_mul(6364136223846793005)
            .wrapping_add(1442695040888963407);
        if s >> 61 == 0 {
            *v = (s >> 32) as u32 & 0x3FF;
        }
    }
    for page in 0..8u32 {
        for mip in 0..=4u32 {
            let got = translate_with_fallback(&tbl, 4, 8, page, mip);
            let want = (0..=mip)
                .rev()
                .map(|m| tbl[page as usize * 5 + m as usize])
                .find(|&v| v != u32::MAX)
                .unwrap_or(u32::MAX);
            assert_eq!(got, want, "page={page} mip={mip}");
        }
    }
}
