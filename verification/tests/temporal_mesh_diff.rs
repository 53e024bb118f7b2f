use rsift_opt_gfx::temporal_mesh_diff::{SectionKey, TemporalDiff};

fn key(cx: i32, cz: i32, sy: i32) -> SectionKey {
    SectionKey { cx, cz, sy }
}

#[test]
fn diff_section_reports_exact_changed_indices() {
    let a = [7u16; 4096];
    let mut b = a;
    assert!(TemporalDiff::diff_section(&a, &b).is_empty());
    b[100] = 8;
    b[2000] = 9;
    assert_eq!(TemporalDiff::diff_section(&a, &b), vec![100, 2000]);
}

#[test]
fn patch_for_block_shape() {
    let p = TemporalDiff::patch_for_block(7);
    assert_eq!(p.removed_quads, vec![7u32]);
    assert!(p.added_quads.is_empty());
}

#[test]
fn patch_for_block_boundary_acceptance() {
    let p = TemporalDiff::patch_for_block(4095);
    assert_eq!(p.removed_quads, vec![4095u32]);
}

#[test]
fn wiring_packed_key_bit_layout_exact() {
    let packed = |cx: i32, cz: i32, sy: i32| -> u32 {
        (((cx as u32) & 0x3FF) << 20) | (((cz as u32) & 0x3FF) << 10) | ((sy as u32) & 0x3FF)
    };
    assert_eq!(packed(0, 3, 4095), 4095u32);
    assert_eq!(packed(0, 3, 4095) & 0xFFF, 4095u32);
    assert_eq!(packed(5, 1, 5), 5_243_909u32);
    assert_eq!(packed(5, 1, 5) & 0xFFF, 1029u32);
    assert_eq!(packed(-1, 0, 0), 0x3FF0_0000u32);
    assert_eq!(packed(1024, 0, 0), packed(0, 0, 0));
    assert_eq!(packed(0, 0, -1) & 0xFFF, 1023u32);
    assert_eq!(packed(0, -1, 0) & 0xFFF, 3072u32);
    for cz in 0i32..4 {
        for sy in 0i32..4 {
            assert!(packed(7, cz, sy) & 0xFFF < 4096);
        }
    }
}

#[test]
fn diff_section_full_enumeration_is_identity_order() {
    let a = [1u16; 4096];
    let b = [2u16; 4096];
    let diff = TemporalDiff::diff_section(&a, &b);
    assert_eq!(diff.len(), 4096);
    assert_eq!(diff[0], 0);
    assert_eq!(diff[4095], 4095);
    let a2 = [9u16; 4096];
    let mut b2 = a2;
    b2[0] = 10;
    b2[4095] = 10;
    assert_eq!(TemporalDiff::diff_section(&a2, &b2), vec![0usize, 4095]);
}

#[test]
fn take_dirty_clears_queue() {
    let mut d = TemporalDiff::new();
    d.mark_dirty(key(0, 0, 1));
    assert_eq!(d.take_dirty().len(), 1);
    assert!(d.take_dirty().is_empty());
    d.mark_dirty(key(0, 0, 1));
    assert_eq!(d.take_dirty().len(), 1);
}

#[test]
fn take_dirty_returns_sorted_deterministic_order() {
    let mut d = TemporalDiff::new();
    let entries = [
        key(3, -1, 2),
        key(-2, 7, 0),
        key(3, -1, 0),
        key(0, 0, 0),
        key(-2, 7, 3),
        key(3, -1, 1),
    ];
    for &k in &entries {
        d.mark_dirty(k);
    }
    let got = d.take_dirty();
    let mut sorted = entries.to_vec();
    sorted.sort();
    assert_eq!(got, sorted);
    for &k in entries.iter().rev() {
        d.mark_dirty(k);
    }
    assert_eq!(d.take_dirty(), sorted);
}

#[test]
fn duplicate_marks_are_kept_once() {
    let mut d = TemporalDiff::new();
    d.mark_dirty(key(0, 0, 0));
    d.mark_dirty(key(1, 0, 0));
    d.mark_dirty(key(0, 0, 0));
    assert_eq!(d.take_dirty(), vec![key(0, 0, 0), key(1, 0, 0)]);
}

#[test]
fn take_dirty_is_set_semantics_with_generation_counter() {
    let mut d = TemporalDiff::new();
    assert!(d.take_dirty().is_empty());
    assert_eq!(d.generation_count(), 0);
    d.mark_dirty(key(0, 0, 0));
    d.mark_dirty(key(1, 0, 0));
    d.mark_dirty(key(0, 0, 0));
    assert_eq!(d.generation_count(), 3);
    let mut keys = d.take_dirty();
    keys.sort_by(|a, b| (a.cx, a.cz, a.sy).cmp(&(b.cx, b.cz, b.sy)));
    assert_eq!(keys, vec![key(0, 0, 0), key(1, 0, 0)]);
}

#[test]
fn wiring_shape_always_all_dirty_soak() {
    let mut d = TemporalDiff::new();
    let chunk_keys = [(3i32, 5i32), (7, -2), (100, 40)];
    for _frame in 0..3 {
        let mut dirty_sections = 0u32;
        for (i, k) in chunk_keys.iter().enumerate() {
            d.mark_dirty(key(k.0, k.1, i as i32 % 4));
            dirty_sections += 1;
        }
        assert_eq!(dirty_sections, 3);
        let taken = d.take_dirty();
        assert_eq!(taken.len(), 3);
        let mut sorted = vec![key(3, 5, 0), key(7, -2, 1), key(100, 40, 2)];
        sorted.sort();
        assert_eq!(taken, sorted, "the drain is sorted");
        for tkey in &taken {
            let pk = (((tkey.cx as u32) & 0x3FF) << 20) | (((tkey.cz as u32) & 0x3FF) << 10) | ((tkey.sy as u32) & 0x3FF);
            let drive = (pk & 0xFFF) as usize;
            assert!(drive < 4096);
        }
    }
    let sy_series: Vec<i32> = (0i32..8).map(|i| i % 4).collect();
    assert_eq!(sy_series, vec![0, 1, 2, 3, 0, 1, 2, 3]);
}
