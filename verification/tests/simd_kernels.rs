use rsift_opt_gfx::simd_kernels::{
    merge_face_runs, merge_face_runs_batch, popcount_opaque_mask, popcount_opaque_mask_par, popcount_u64,
};

#[test]
fn runs_and_popcount() {
    assert_eq!(merge_face_runs(0b0000_0000_0011_1100), vec![(2, 4)]);
    assert_eq!(popcount_opaque_mask(&[0b1111]), 4);
    assert_eq!(popcount_u64(u64::MAX), 64);
    assert_eq!(popcount_u64(0), 0);
    assert_eq!(popcount_u64(0x8000_0000_0000_0001), 2);
}

#[test]
fn merge_runs_edge_cases_exact() {
    assert_eq!(merge_face_runs(0x0000), Vec::<(u8, u8)>::new(), "empty mask");
    assert_eq!(merge_face_runs(0xffff), vec![(0, 16)], "full row");
    assert_eq!(merge_face_runs(0x8000), vec![(15, 1)], "top bit only");
    assert_eq!(merge_face_runs(0x0001), vec![(0, 1)], "bottom bit only");
    assert_eq!(
        merge_face_runs(0b0101_0101_0101_0101),
        vec![(0, 1), (2, 1), (4, 1), (6, 1), (8, 1), (10, 1), (12, 1), (14, 1)],
        "alternating"
    );
    let rows: [u16; 16] = {
        let mut r = [0u16; 16];
        r[3] = 0b0000_0000_0111_1000;
        r[15] = 0x0001;
        r
    };
    assert_eq!(
        merge_face_runs_batch(&rows),
        vec![(3, 3, 4), (15, 0, 1)],
        "batch must preserve row index and order"
    );
}

#[test]
fn popcount_par_matches_seq_at_threshold() {
    for n in [0usize, 1, 63, 64, 65, 130] {
        let mask: Vec<u64> = (0..n as u64).map(|i| i.wrapping_mul(0x9E3779B97F4A7C15)).collect();
        assert_eq!(popcount_opaque_mask(&mask), popcount_opaque_mask_par(&mask), "n={n}");
        let want: u32 = mask.iter().map(|w| w.count_ones()).sum();
        assert_eq!(popcount_opaque_mask_par(&mask), want, "n={n} exact");
    }
}

#[test]
fn runs_split_at_clear_bits() {
    assert_eq!(merge_face_runs(0b1110_0000_0000_0111), vec![(0, 3), (13, 3)]);
    assert_eq!(merge_face_runs(0b0111_1111_1111_1110), vec![(1, 14)]);
    let all_full = [0xffffu16; 16];
    let b = merge_face_runs_batch(&all_full);
    assert_eq!(b.len(), 16);
    for (r, run) in b.iter().enumerate() {
        assert_eq!(*run, (r as u8, 0, 16));
    }
    assert!(merge_face_runs_batch(&[0u16; 16]).is_empty());
}
