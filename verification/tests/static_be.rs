use rsift_opt_gfx::static_be::{BePromotionEntry, BePromotionRules, BeRenderMode, StaticPromoteKind};

/// The default interaction distance of the policy is 3.5 (inclusive).
fn near(camera_distance: f32) -> bool {
    camera_distance <= 3.5
}

fn entry(kind: StaticPromoteKind) -> BePromotionEntry {
    BePromotionEntry {
        kind,
        last_anim_tick: 0,
        last_interact_tick: 0,
        mode: BeRenderMode::DynamicBlockEntity,
        anim_burst_score: 0,
    }
}

#[test]
fn idle_chest_promotes_to_static() {
    let p = BePromotionRules::default();
    let mut e = entry(StaticPromoteKind::Chest);
    let m = p.tick(&mut e, 1000, false, false, near(8.0), true);
    assert_eq!(m, BeRenderMode::StaticChunkMesh);
    assert_eq!(BePromotionRules::promoted_model(&e), "minecraft:block/chest");
}

#[test]
fn recent_anim_stays_dynamic() {
    let p = BePromotionRules::default();
    let mut e = entry(StaticPromoteKind::Chest);
    let m = p.tick(&mut e, 30, true, false, near(8.0), true);
    assert_eq!(m, BeRenderMode::DynamicBlockEntity);
    let m2 = p.tick(&mut e, 45, false, false, near(8.0), true);
    assert_eq!(m2, BeRenderMode::DynamicBlockEntity);
}

#[test]
fn burst_stays_dynamic_forever() {
    let p = BePromotionRules { burst_guard: 3, ..Default::default() };
    let mut e = entry(StaticPromoteKind::Chest);
    for t in [1u64, 10, 20, 30] {
        p.tick(&mut e, t, true, false, near(8.0), true);
    }
    let m = p.tick(&mut e, 10_000, false, false, near(8.0), true);
    assert_eq!(m, BeRenderMode::DynamicBlockEntity);
}

#[test]
fn promote_boundary_40_ticks_exact() {
    let p = BePromotionRules::default();
    let mut e39 = entry(StaticPromoteKind::Chest);
    assert_eq!(p.tick(&mut e39, 39, false, false, near(8.0), true), BeRenderMode::DynamicBlockEntity);
    let mut e40 = entry(StaticPromoteKind::Chest);
    assert_eq!(p.tick(&mut e40, 40, false, false, near(8.0), true), BeRenderMode::StaticChunkMesh);
}

#[test]
fn interact_freshness_boundary_160_exact() {
    let p = BePromotionRules::default();
    let mut e = entry(StaticPromoteKind::Chest);
    assert_eq!(p.tick(&mut e, 50, false, true, near(3.0), true), BeRenderMode::DynamicBlockEntity);
    assert_eq!(p.tick(&mut e, 209, false, false, near(3.0), true), BeRenderMode::DynamicBlockEntity);
    assert_eq!(p.tick(&mut e, 210, false, false, near(3.0), true), BeRenderMode::StaticChunkMesh);
}

#[test]
fn interact_demote_distance_inclusive_exact_bits() {
    let p = BePromotionRules::default();
    let mut e = entry(StaticPromoteKind::Chest);
    assert_eq!(p.tick(&mut e, 1000, false, true, near(8.0), true), BeRenderMode::StaticChunkMesh);
    assert_eq!(p.tick(&mut e, 1100, false, false, near(3.5), true), BeRenderMode::DynamicBlockEntity);
    assert_eq!(
        p.tick(&mut e, 1150, false, false, near(f32::from_bits(0x4060_0001)), true),
        BeRenderMode::StaticChunkMesh
    );
}

#[test]
fn burst_interval_boundary_and_guard_semantics() {
    let p = BePromotionRules { burst_guard: 3, ..Default::default() };
    let mut e = entry(StaticPromoteKind::Chest);
    for t in [0u64, 20, 40] {
        p.tick(&mut e, t, true, false, near(8.0), true);
    }
    assert_eq!(e.anim_burst_score, 3, "an interval of exactly 20 still counts");
    assert_eq!(p.tick(&mut e, 100_000, false, false, near(8.0), true), BeRenderMode::DynamicBlockEntity);
    let mut r = entry(StaticPromoteKind::Chest);
    let p6 = BePromotionRules { burst_guard: 6, ..Default::default() };
    p6.tick(&mut r, 0, true, false, near(8.0), true);
    assert_eq!(r.anim_burst_score, 1);
    p6.tick(&mut r, 21, true, false, near(8.0), true);
    assert_eq!(r.anim_burst_score, 0, "an interval of 21 resets");
    let mut k = entry(StaticPromoteKind::Chest);
    k.anim_burst_score = 2;
    k.last_anim_tick = 9_000;
    p6.tick(&mut k, 10_000, false, false, near(8.0), true);
    assert_eq!(k.anim_burst_score, 2, "no decay on ticks without open/close");
}

#[test]
fn clock_regression_and_nan_distance_failsafes() {
    let p = BePromotionRules::default();
    let mut e = entry(StaticPromoteKind::Chest);
    e.last_anim_tick = 500;
    assert_eq!(p.tick(&mut e, 100, false, false, near(8.0), true), BeRenderMode::DynamicBlockEntity);
    let mut n = entry(StaticPromoteKind::Chest);
    assert_eq!(p.tick(&mut n, 1000, false, false, near(f32::NAN), true), BeRenderMode::StaticChunkMesh);
}

#[test]
fn mesh_not_ready_preserves_current_mode_both_ways() {
    let p = BePromotionRules::default();
    let mut d = entry(StaticPromoteKind::Chest);
    assert_eq!(p.tick(&mut d, 1000, false, false, near(8.0), false), BeRenderMode::DynamicBlockEntity);
    let mut s = entry(StaticPromoteKind::Barrel);
    assert_eq!(p.tick(&mut s, 1000, false, false, near(8.0), true), BeRenderMode::StaticChunkMesh);
    assert_eq!(p.tick(&mut s, 2000, false, false, near(8.0), false), BeRenderMode::StaticChunkMesh);
}

#[test]
fn open_and_interact_stamp_the_tick() {
    let p = BePromotionRules::default();
    let mut e = entry(StaticPromoteKind::ShulkerBox);
    p.tick(&mut e, 77, true, true, near(1.0), true);
    assert_eq!(e.last_anim_tick, 77);
    assert_eq!(e.last_interact_tick, 77);
    assert_eq!(e.mode, BeRenderMode::DynamicBlockEntity);
    assert_eq!(BePromotionRules::promoted_model(&e), "minecraft:block/shulker_box");
}
