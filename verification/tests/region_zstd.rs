use rsift_opt_gfx::region_zstd::{
    scan_file, CodecChoice, RegionCodec, RegionScanError, HEADER_BYTES, SECTOR,
};

fn sample_chunk(seed: u8) -> Vec<u8> {
    let mut v = vec![seed; 64 * 1024];
    for i in 0..1024 {
        v[i] = (i as u16 % 251) as u8;
    }
    v
}

fn stats_ratio(rc: &RegionCodec) -> (usize, f64) {
    let (n, raw, packed) = rc.stats_sizes();
    let ratio = if raw > 0 { packed as f64 / raw as f64 } else { 1.0 };
    (n, ratio)
}

#[test]
fn roundtrip_chunk() {
    let mut rc = RegionCodec::new(CodecChoice::ZstdBalanced);
    let data = sample_chunk(7);
    rc.put_chunk(3, 5, &data);
    let back = rc.get_chunk(3, 5).unwrap();
    assert_eq!(back, data);
    assert!(rc.get_chunk(0, 0).is_none());
}

#[test]
fn file_layout_is_sector_aligned() {
    let mut rc = RegionCodec::new(CodecChoice::ZstdFast);
    rc.put_chunk(0, 0, &sample_chunk(1));
    rc.put_chunk(1, 0, &sample_chunk(2));
    let file = rc.build_file();
    assert!(file.len() % SECTOR == 0);
    let scan = scan_file(&file).unwrap();
    assert_eq!(scan.chunks, 2);
    assert!(scan.file_bytes >= HEADER_BYTES + 2 * SECTOR);
}

#[test]
fn zstd_beats_raw_on_chunk_data() {
    let mut rc = RegionCodec::new(CodecChoice::ZstdBalanced);
    rc.put_chunk(0, 0, &sample_chunk(0));
    let (n, ratio) = stats_ratio(&rc);
    assert_eq!(n, 1);
    assert!(ratio < 0.2, "zstd should smash repetitive chunk data: {ratio}");
}

#[test]
fn auto_policy_low_spec() {
    assert_eq!(CodecChoice::auto(2, false), CodecChoice::ZstdFast);
    assert_eq!(CodecChoice::auto(8, false), CodecChoice::ZstdBalanced);
    assert_eq!(CodecChoice::auto(8, true), CodecChoice::ZstdFast);
}

#[test]
fn out_of_range_access_is_rejected_without_panic() {
    let mut rc = RegionCodec::new(CodecChoice::ZstdFast);
    let data = sample_chunk(3);
    assert!(!rc.put_chunk(32, 0, &data));
    assert!(!rc.put_chunk(0, 32, &data));
    assert!(!rc.put_chunk(32, 32, &data));
    assert!(!rc.put_chunk(usize::MAX, usize::MAX, &data));
    assert!(rc.get_chunk(32, 0).is_none());
    assert!(rc.get_chunk(0, 32).is_none());
    assert!(rc.get_chunk(usize::MAX, 1).is_none());
    assert!(rc.put_chunk(31, 31, &data));
    assert_eq!(rc.get_chunk(31, 31).unwrap(), data);
    let (n, _) = stats_ratio(&rc);
    assert_eq!(n, 1, "refused chunks are not stored");
}

#[test]
fn stored_stats_ratio_counts_both_sides() {
    let mut rc = RegionCodec::new(CodecChoice::Stored);
    let d1 = sample_chunk(11);
    let d2 = sample_chunk(12);
    rc.put_chunk(0, 0, &d1);
    rc.put_chunk(1, 0, &d2);
    let (n, ratio) = stats_ratio(&rc);
    assert_eq!(n, 2);
    assert_eq!(ratio.to_bits(), 1.0f64.to_bits(), "stored chunks give exactly 1.0");
}

#[test]
fn sector_255_boundary_exact_ok() {
    let mut rc = RegionCodec::new(CodecChoice::Stored);
    let body = vec![0xABu8; 255 * SECTOR - 5];
    assert!(rc.put_chunk(0, 0, &body));
    let file = rc.build_file();
    let entry = u32::from_be_bytes(file[0..4].try_into().unwrap());
    assert_eq!(entry >> 8, 2, "first offset is right after the two header sectors");
    assert_eq!(entry & 0xFF, 255, "exactly 255 sectors");
    let scan = scan_file(&file).unwrap();
    assert_eq!(scan.chunks, 1);
    assert_eq!(scan.used_sectors, 2 + 255);
}

#[test]
fn sector_256_is_err() {
    let mut rc = RegionCodec::new(CodecChoice::Stored);
    let body = vec![0xCDu8; 255 * SECTOR - 5 + 1];
    assert!(rc.put_chunk(0, 0, &body));
    let err = rc.build_file_checked().expect_err("256 sectors are refused");
    assert!(err.contains("255-sector"), "limit error expected: {err}");
    assert_eq!(err, "chunk 0 uses 256 sectors > 255-sector vanilla limit");
}

#[test]
fn scan_file_rejects_header_overlap_and_overspan() {
    let mut rc = RegionCodec::new(CodecChoice::ZstdFast);
    rc.put_chunk(0, 0, &sample_chunk(5));
    rc.put_chunk(1, 0, &sample_chunk(6));
    let good = rc.build_file();
    let scan = scan_file(&good).unwrap();
    assert_eq!(scan.chunks, 2, "a well-formed file is accepted");
    let mut bad_hdr = good.clone();
    bad_hdr[0..4].copy_from_slice(&((1u32 << 8) | 1).to_be_bytes());
    let e = scan_file(&bad_hdr).expect_err("header overlap is refused");
    assert!(matches!(e, RegionScanError::OffsetInHeader { chunk: 0, offset: 1 }));
    let mut bad_span = good.clone();
    bad_span[0..4].copy_from_slice(&((2u32 << 8) | 0xFF).to_be_bytes());
    let e = scan_file(&bad_span).expect_err("overspan is refused");
    assert!(matches!(e, RegionScanError::SpanPastEnd { chunk: 0, end: 1_052_672, .. }));
    assert_eq!((2 + 255) * SECTOR, 1_052_672);
}

#[test]
fn scan_file_refuses_short_file() {
    assert_eq!(scan_file(&[0u8; 100]), Err(RegionScanError::TooSmall));
    let empty = vec![0u8; HEADER_BYTES];
    let scan = scan_file(&empty).unwrap();
    assert_eq!((scan.chunks, scan.used_sectors, scan.file_bytes), (0, 2, HEADER_BYTES));
}

#[test]
fn stored_policy_keeps_raw_bytes_and_layout() {
    let mut rc = RegionCodec::new(CodecChoice::Stored);
    assert!(rc.put_chunk(1, 0, &[9, 8, 7]));
    let file = rc.build_file();
    assert_eq!(file.len(), HEADER_BYTES + SECTOR);
    assert_eq!(&file[0..4], &[0, 0, 0, 0]);
    assert_eq!(&file[4..8], &[0, 0, 2, 1]);
    assert_eq!(&file[HEADER_BYTES..HEADER_BYTES + 8], &[0, 0, 0, 4, 1, 9, 8, 7]);
    assert!(file[HEADER_BYTES + 8..].iter().all(|&b| b == 0));
    let (n, raw, packed) = rc.stats_sizes();
    assert_eq!((n, raw, packed), (1, 3, 3));
}
