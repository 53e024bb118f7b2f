use rsift_opt_gfx::static_be::{pos_pack, StaticPromoteKind};
use rsift_opt_gfx::subgroup::subgroup_ballot;
use rsift_opt_gfx::tbdr_hints::{AttachmentUsage, TbdrPass};
use rsift_opt_gfx::vrs::ShadingRate;

#[test]
fn pos_pack_distinct() {
    assert_ne!(pos_pack(1, 64, 2), pos_pack(2, 64, 1));
    assert_ne!(pos_pack(-1, 0, 0), pos_pack(1, 0, 0));
}

#[test]
fn pos_pack_exact_layout_and_fold_collisions() {
    assert_eq!(pos_pack(1, 64, 2), 274_877_915_200u64, "0x0000004000002040");
    assert_eq!(pos_pack(-1, 0, 0), 0xFFFF_FFC0_0000_0000u64);
    assert_eq!(pos_pack(0, -1, 0), 4095u64);
    assert_eq!(pos_pack(7, 100, 9), 1_924_145_385_572u64);
    let v = pos_pack(7, 100, 9);
    assert_eq!(((v >> 38) & 0x3FF_FFFF) as i32, 7);
    assert_eq!(((v >> 12) & 0x3FF_FFFF) as i32, 9);
    assert_eq!((v & 0xFFF) as i32, 100);
    assert_eq!(pos_pack(1 << 25, 0, 0), 0x8000_0000_0000_0000u64);
    assert_eq!(pos_pack(1 << 26, 0, 0), pos_pack(0, 0, 0));
    assert_eq!(pos_pack(0, 2048, 0), 2048u64);
    assert_eq!(pos_pack(0, 2048, 0), pos_pack(0, -2048, 0));
}

#[test]
fn closed_model_id_full_table_and_fallback() {
    assert_eq!(StaticPromoteKind::Chest.closed_model_id(), "minecraft:block/chest");
    assert_eq!(
        StaticPromoteKind::TrappedChest.closed_model_id(),
        "minecraft:block/chest_trapped"
    );
    assert_eq!(
        StaticPromoteKind::EnderChest.closed_model_id(),
        "minecraft:block/ender_chest"
    );
    assert_eq!(StaticPromoteKind::Barrel.closed_model_id(), "minecraft:block/barrel");
    assert_eq!(
        StaticPromoteKind::ShulkerBox.closed_model_id(),
        "minecraft:block/shulker_box"
    );
    assert_eq!(StaticPromoteKind::Other.closed_model_id(), "minecraft:block/chest");
}

#[test]
fn transient_when_pass_local() {
    let p = TbdrPass { writes: true, reads_outside_pass: false };
    assert_eq!(p.recommended_usage(), AttachmentUsage::Transient);
    assert!(p.lazy_allocated());
}

#[test]
fn persistent_when_read_later() {
    let p = TbdrPass { writes: true, reads_outside_pass: true };
    assert_eq!(p.recommended_usage(), AttachmentUsage::Persistent);
    assert!(!p.lazy_allocated());
}

#[test]
fn not_written_is_persistent() {
    let p = TbdrPass { writes: false, reads_outside_pass: false };
    assert_eq!(p.recommended_usage(), AttachmentUsage::Persistent);
    assert!(!p.lazy_allocated());
}

#[test]
fn truth_table_exhaustive() {
    for writes in [false, true] {
        for reads in [false, true] {
            let p = TbdrPass { writes, reads_outside_pass: reads };
            let expect = if writes && !reads {
                AttachmentUsage::Transient
            } else {
                AttachmentUsage::Persistent
            };
            assert_eq!(p.recommended_usage(), expect, "writes={writes} reads={reads}");
            assert_eq!(p.lazy_allocated(), expect == AttachmentUsage::Transient);
        }
    }
}

#[test]
fn ballot_sets_true_lanes() {
    let cond = [true, false, true, false];
    assert_eq!(subgroup_ballot(&cond), 0b0101);
}

#[test]
fn ballot_empty_is_zero() {
    let cond = [false; 8];
    assert_eq!(subgroup_ballot(&cond), 0);
}

#[test]
fn ballot_truncates_above_64_lanes() {
    let t64 = [true; 64];
    assert_eq!(subgroup_ballot(&t64), u64::MAX);
    let t65 = [true; 65];
    assert_eq!(subgroup_ballot(&t65), u64::MAX);
    let f65 = [false; 65];
    assert_eq!(subgroup_ballot(&f65), 0);
    let mut lane63 = [false; 64];
    lane63[63] = true;
    assert_eq!(subgroup_ballot(&lane63), 1u64 << 63);
}

#[test]
fn shading_rate_code_and_area_table() {
    let all = [
        ShadingRate::Rate1x1,
        ShadingRate::Rate1x2,
        ShadingRate::Rate2x2,
        ShadingRate::Rate2x4,
        ShadingRate::Rate4x4,
    ];
    let codes: Vec<u32> = all.iter().map(|r| r.as_code()).collect();
    let areas: Vec<u32> = all.iter().map(|r| r.pixel_area()).collect();
    assert_eq!(codes, vec![0, 1, 2, 3, 4]);
    assert_eq!(areas, vec![1, 2, 4, 8, 16]);
}
