use rsift_opt_gfx::texture_atlas::{generate_mip_chain, TextureArrayBuilder, TextureAtlasPacker};

fn uv(p: &TextureAtlasPacker, x: u32, y: u32, w: u32, h: u32) -> [f32; 4] {
    [
        x as f32 / p.width as f32,
        y as f32 / p.height as f32,
        (x + w) as f32 / p.width as f32,
        (y + h) as f32 / p.height as f32,
    ]
}

#[test]
fn pack_and_mip() {
    let mut atlas = TextureAtlasPacker::new(128, 128);
    assert!(atlas.pack(1, 16, 16).is_some());
    assert!(atlas.pack(2, 32, 16).is_some());
    let rgba = vec![128u8; 16 * 16 * 4];
    let mips = generate_mip_chain(16, 16, &rgba);
    assert!(mips.len() >= 5);
    assert_eq!(mips.last().unwrap().len(), 4);
}

#[test]
fn shelf_layout_matches_hand_derived_geometry() {
    let mut a = TextureAtlasPacker::new(128, 128);
    let pa = a.pack(1, 16, 16).unwrap();
    let pb = a.pack(2, 32, 8).unwrap();
    let pc = a.pack(3, 96, 16).unwrap();
    let pd = a.pack(4, 40, 8).unwrap();
    assert!(a.pack(5, 200, 8).is_none(), "oversize must fail");
    assert!(a.pack(6, 128, 128).is_none(), "no room after D + advance");
    let pg = a.pack(7, 88, 8).unwrap();
    assert_eq!(a.failed_count(), 2);

    let packed = [pa, pb, pc, pd, pg];
    let rects: Vec<(u32, u32, u32, u32)> = packed
        .iter()
        .map(|p| (p.rect.x, p.rect.y, p.rect.w, p.rect.h))
        .collect();
    assert_eq!(
        rects,
        vec![(0, 0, 16, 16), (16, 0, 32, 8), (0, 16, 96, 16), (0, 32, 40, 8), (0, 40, 88, 8)]
    );
    let want_uv: [[f32; 4]; 5] = [
        [0.0, 0.0, 16.0 / 128.0, 16.0 / 128.0],
        [0.125, 0.0, 48.0 / 128.0, 8.0 / 128.0],
        [0.0, 0.125, 96.0 / 128.0, 32.0 / 128.0],
        [0.0, 0.25, 40.0 / 128.0, 40.0 / 128.0],
        [0.0, 40.0 / 128.0, 88.0 / 128.0, 48.0 / 128.0],
    ];
    for (i, p) in packed.iter().enumerate() {
        let got = uv(&a, p.rect.x, p.rect.y, p.rect.w, p.rect.h);
        for c in 0..4 {
            assert_eq!(got[c].to_bits(), want_uv[i][c].to_bits(), "uv[{i}][{c}]");
        }
    }
    for i in 0..rects.len() {
        for j in i + 1..rects.len() {
            let (ax, ay, aw, ah) = rects[i];
            let (bx, by, bw, bh) = rects[j];
            let overlap = ax < bx + bw && bx < ax + aw && ay < by + bh && by < ay + ah;
            assert!(!overlap, "rects {i} and {j} overlap");
        }
    }
    assert_eq!(a.sprites.len(), 5);
    assert_eq!(a.sprites[4].name_hash, 7);
}

#[test]
fn mip_chain_exact_bytes() {
    let mut rgba = Vec::new();
    for y in 0u8..4 {
        for x in 0u8..4 {
            rgba.extend_from_slice(&[x * 60 + y, y * 70 + x, 255 - x * 10 - y * 5, 100 + x + y]);
        }
    }
    let chain = generate_mip_chain(4, 4, &rgba);
    assert_eq!(chain.len(), 3);
    assert_eq!(
        chain[1],
        vec![30, 35, 247, 101, 150, 37, 227, 103, 32, 175, 237, 103, 152, 177, 217, 105],
        "2x2 level"
    );
    assert_eq!(chain[2], vec![91, 106, 232, 103], "1x1 level");
    let col = vec![10, 20, 30, 40, 50, 60, 70, 80, 90, 100, 110, 120];
    let chain = generate_mip_chain(1, 3, &col);
    assert_eq!(chain.len(), 2, "1x3 -> 1x1 direct");
    assert_eq!(chain[1], vec![30, 40, 50, 60], "clamped column average");
}

#[test]
fn packer_sizes_round_up_to_powers_of_two() {
    let a = TextureAtlasPacker::new(100, 10);
    assert_eq!((a.width, a.height), (128, 64));
    let b = TextureAtlasPacker::new(1 << 31, 0);
    assert_eq!((b.width, b.height), (1 << 31, 64));
    assert_eq!(TextureAtlasPacker::new(64, 64).vram_bytes_rgba8(), 16384 + 5461);
}

#[test]
fn array_builder_layers_and_vram() {
    let mut b = TextureArrayBuilder::new(2, 2);
    assert_eq!(b.push_layer_rgba(vec![0; 16]), Ok(0));
    assert_eq!(b.push_layer_rgba(vec![1; 16]), Ok(1));
    assert_eq!(b.push_layer_rgba(vec![1; 15]), Err("layer size 15 != 16".to_string()));
    assert_eq!(b.layers.len(), 2);
    assert_eq!(b.vram_bytes(), (16 + 5) * 2);
}
