use rsift_opt_gfx::section_compress::{palette_from_words, CompactSection};
use rsift_opt_gfx::section_rle::{idx, RleSection, VOLUME};

const VOL: usize = VOLUME;

#[test]
fn hot_rle_roundtrip() {
    let mut p = [0u16; VOL];
    p[idx(1, 2, 3)] = 9;
    let c = CompactSection::encode_hot(&p);
    assert_eq!(c.decode()[idx(1, 2, 3)], 9);
    assert!(c.stored_bytes() < VOL * 2);
}

#[test]
fn cold_lz4_roundtrip() {
    let mut p = [0u16; VOL];
    for i in 0..VOL {
        p[i] = (i % 40) as u16;
    }
    let c = CompactSection::encode_cold(&p);
    assert_eq!(c.decode(), p);
}

#[test]
fn fw_encode_variant_selection_exact() {
    let single = CompactSection::encode_hot(&[7u16; VOL]);
    assert!(matches!(single, CompactSection::Single(7)));
    assert_eq!(single.stored_bytes(), 2);
    let mut p = [0u16; VOL];
    p[idx(1, 2, 3)] = 9;
    let c = CompactSection::encode_hot(&p);
    let r = match &c {
        CompactSection::Rle(r) => r,
        _ => panic!("expect Rle"),
    };
    assert_eq!(r.runs.len(), 3);
    assert_eq!((r.runs[0].block, r.runs[0].count), (0, 801));
    assert_eq!((r.runs[1].block, r.runs[1].count), (9, 1));
    assert_eq!((r.runs[2].block, r.runs[2].count), (0, (VOL - 802) as u16));
    assert_eq!(c.stored_bytes(), 2 + 3 * 4);
    assert_eq!(c.decode(), p);
    let mut near = [0u16; VOL];
    for (i, v) in near.iter_mut().enumerate() {
        *v = if i < 1022 { (i % 2) as u16 } else { 1 };
    }
    assert!(matches!(CompactSection::encode_hot(&near), CompactSection::Rle(_)), "1022 runs stay RLE");
    let mut at = [0u16; VOL];
    for (i, v) in at.iter_mut().enumerate() {
        *v = if i < 1024 { (i % 2) as u16 } else { 1 };
    }
    let c3 = CompactSection::encode_hot(&at);
    assert!(matches!(c3, CompactSection::Lz4(_)), "1024 runs fall back to LZ4");
    assert_eq!(c3.decode(), at);
}

#[test]
fn fw_is_air_truth_lemma() {
    assert!(CompactSection::Single(0).is_air());
    assert_eq!(CompactSection::Single(0).decode(), [0u16; VOL]);
    assert!(!CompactSection::Single(7).is_air());
    let air = CompactSection::Rle(RleSection::encode(&[0u16; VOL]));
    assert!(air.is_air());
    assert_eq!(air.decode(), [0u16; VOL]);
    let mut p = [0u16; VOL];
    p[idx(1, 2, 3)] = 9;
    assert!(!CompactSection::Rle(RleSection::encode(&p)).is_air());
    let mut hi = [0u16; VOL];
    for (i, v) in hi.iter_mut().enumerate() {
        *v = (i % 40) as u16;
    }
    let lz = CompactSection::encode_cold(&hi);
    assert!(matches!(lz, CompactSection::Lz4(_)));
    assert!(!lz.is_air());
    assert_eq!(lz.decode(), hi);
}

#[test]
fn fw_lz4_decode_corrupt_contract() {
    let empty = CompactSection::Lz4(vec![]);
    assert_eq!(empty.decode(), [0u16; VOL]);
    let mut lying = Vec::new();
    lying.extend_from_slice(&(1u32 << 30).to_le_bytes());
    lying.extend_from_slice(&[0xAA; 16]);
    let c = CompactSection::Lz4(lying);
    assert_eq!(c.decode(), [0u16; VOL]);
    let mut hi = [0u16; VOL];
    for (i, v) in hi.iter_mut().enumerate() {
        *v = (i % 40) as u16;
    }
    let good = match CompactSection::encode_cold(&hi) {
        CompactSection::Lz4(b) => b,
        _ => unreachable!(),
    };
    let cut = CompactSection::Lz4(good[..good.len().saturating_sub(8)].to_vec());
    assert_eq!(cut.decode(), [0u16; VOL]);
}

#[test]
fn fw_to_cold_forms() {
    assert!(matches!(CompactSection::Single(3).to_cold(), CompactSection::Single(3)));
    let mut hi = [0u16; VOL];
    for (i, v) in hi.iter_mut().enumerate() {
        *v = (i % 40) as u16;
    }
    let cold = CompactSection::encode_cold(&hi).to_cold();
    assert!(matches!(cold, CompactSection::Lz4(_)));
    assert_eq!(cold.decode(), hi);
    let mut p = [0u16; VOL];
    p[idx(1, 2, 3)] = 9;
    let rle = CompactSection::encode_hot(&p);
    assert!(matches!(rle, CompactSection::Rle(_)));
    let cold2 = rle.to_cold();
    assert!(matches!(cold2, CompactSection::Lz4(_)));
    assert_eq!(cold2.decode(), p);
    assert!(matches!(CompactSection::encode_hot(&[0u16; VOL]).to_cold(), CompactSection::Single(0)));
}

#[test]
fn encode_hot_goes_cold_only_at_a_quarter_volume_of_runs() {
    // 1023 runs stay run-length encoded, 1024 go to LZ4
    let mut p = [0u16; VOL];
    for i in 0..1022 {
        p[i] = (i % 2) as u16 + 1;
    }
    assert!(matches!(CompactSection::encode_hot(&p), CompactSection::Rle(_)));
    p[1022] = 9;
    assert!(matches!(CompactSection::encode_hot(&p), CompactSection::Lz4(_)));
    assert!(!CompactSection::encode_hot(&p).is_air());
    assert!(CompactSection::encode_hot(&[0u16; VOL]).is_air());
}

#[test]
fn decode_of_garbage_lz4_is_all_air() {
    let c = CompactSection::Lz4(vec![4, 0, 0, 0, 0xF0]);
    assert_eq!(c.decode(), [0u16; VOL]);
}

#[test]
fn palette_from_words_pads_and_truncates() {
    let p = palette_from_words(&[5, 6, 7]);
    assert_eq!(&p[..3], &[5, 6, 7]);
    assert!(p[3..].iter().all(|&w| w == 0));
    let long: Vec<u16> = (0..5000u32).map(|i| (i % 65536) as u16).collect();
    let q = palette_from_words(&long);
    assert_eq!(q[4095], 4095);
    assert_eq!(q[0], 0);
}
