use rsift_opt_gfx::section_rle::{
    idx, layer_masks_from_palette, layer_masks_from_rle, occupied_section_indices, RleRun,
    RleSection, SectionPalette, SECTION_SIZE, VOLUME,
};

#[test]
fn roundtrip_palette() {
    let mut p = [0u16; VOLUME];
    for z in 0..SECTION_SIZE {
        for x in 0..SECTION_SIZE {
            p[idx(x, 4, z)] = 1;
        }
    }
    let rle = RleSection::encode(&p);
    let back = rle.decode();
    assert_eq!(p, back);
}

#[test]
fn air_column_single_run() {
    let p = [0u16; VOLUME];
    let rle = RleSection::encode(&p);
    assert_eq!(rle.runs.len(), 1);
    assert!(rle.is_empty());
}

#[test]
fn bytes_roundtrip() {
    let mut p = [0u16; VOLUME];
    p[0] = 7;
    p[1] = 7;
    let rle = RleSection::encode(&p);
    let bytes = rle.to_bytes();
    let back = RleSection::from_bytes(&bytes).unwrap();
    assert_eq!(rle.decode(), back.decode());
}

#[test]
fn uniform_palette_single_max_run() {
    let p = [5u16; VOLUME];
    let rle = RleSection::encode(&p);
    assert_eq!(rle.runs.len(), 1);
    assert_eq!((rle.runs[0].block, rle.runs[0].count), (5, VOLUME as u16));
    let total: usize = rle.runs.iter().map(|r| r.count as usize).sum();
    assert_eq!(total, VOLUME);
}

#[test]
fn occupied_section_indices_vocabulary() {
    let air = RleSection::encode(&[0u16; VOLUME]);
    let mut solid = [0u16; VOLUME];
    solid[0] = 1;
    let solid = RleSection::encode(&solid);
    assert_eq!(
        occupied_section_indices(&[solid.clone(), air.clone(), solid]),
        vec![0, 16]
    );
    assert!(occupied_section_indices(&[air]).is_empty());
}

#[test]
fn from_bytes_rejects_truncation() {
    let sec: SectionPalette = [0u16; VOLUME];
    let rle = RleSection::encode(&sec);
    let bytes = rle.to_bytes();
    assert!(RleSection::from_bytes(&bytes).is_some());
    assert!(RleSection::from_bytes(&[]).is_none());
    assert!(RleSection::from_bytes(&bytes[..1]).is_none());
    let mut lying = bytes[..2].to_vec();
    lying.extend_from_slice(&[0u8; 2]);
    let mut lying2 = Vec::new();
    lying2.extend_from_slice(&1u16.to_le_bytes());
    lying2.extend_from_slice(&[7u8, 7u8]);
    assert!(RleSection::from_bytes(&lying2).is_none());
}

#[test]
fn from_bytes_rejects_trailing_garbage_and_bad_sum() {
    let sec: SectionPalette = [3u16; VOLUME];
    let bytes = RleSection::encode(&sec).to_bytes();
    let mut padded = bytes.clone();
    padded.push(0);
    assert!(RleSection::from_bytes(&padded).is_none());
    let mut tampered = bytes.clone();
    tampered[4] = 0xFF;
    tampered[5] = 0x0F;
    assert!(RleSection::from_bytes(&tampered).is_none());
    let mut over = Vec::new();
    over.extend_from_slice(&2u16.to_le_bytes());
    over.extend_from_slice(&3u16.to_le_bytes());
    over.extend_from_slice(&(VOLUME as u16).to_le_bytes());
    over.extend_from_slice(&3u16.to_le_bytes());
    over.extend_from_slice(&1u16.to_le_bytes());
    assert!(RleSection::from_bytes(&over).is_none());
}

#[test]
fn is_solid_requires_uniform_single_run() {
    let mut p: SectionPalette = [1u16; VOLUME];
    let rle = RleSection::encode(&p);
    assert!(rle.is_solid(1));
    assert!(!rle.is_solid(2));
    p[idx(0, 0, 0)] = 2;
    let rle2 = RleSection::encode(&p);
    assert!(!rle2.is_solid(1));
    assert!(!rle2.is_empty());
    let air = RleSection::encode(&[0u16; VOLUME]);
    assert!(air.is_empty());
    assert!(!air.is_solid(0));
}

#[test]
fn layer_masks_combined_is_or_over_z_rows() {
    let mut p: SectionPalette = [0u16; VOLUME];
    p[idx(3, 0, 0)] = 5;
    p[idx(9, 0, 7)] = 5;
    p[idx(3, 4, 15)] = 5;
    let masks = layer_masks_from_palette(&p);
    assert_eq!(masks[0], (1 << 3) | (1 << 9));
    assert_eq!(masks[4], 1 << 3);
    for y in [1usize, 2, 3, 5, 15] {
        assert_eq!(masks[y], 0, "empty layer y={y} must be zero mask");
    }
}

#[test]
fn rle_wire_layout_and_solid_count_exact() {
    let mut p = [0u16; VOLUME];
    p[idx(1, 2, 3)] = 9;
    let rle = RleSection::encode(&p);
    assert_eq!(
        rle.runs,
        vec![
            RleRun { block: 0, count: 801 },
            RleRun { block: 9, count: 1 },
            RleRun { block: 0, count: 3294 }
        ]
    );
    assert_eq!(rle.solid_voxel_count(), 1);
    assert_eq!(
        rle.to_bytes(),
        vec![3, 0, 0, 0, 0x21, 0x03, 9, 0, 1, 0, 0, 0, 0xDE, 0x0C]
    );
    let masks = layer_masks_from_rle(&rle);
    assert_eq!(masks[2], 1 << 1);
    assert_eq!(RleSection::encode(&[4u16; VOLUME]).solid_voxel_count(), 4096);
}
