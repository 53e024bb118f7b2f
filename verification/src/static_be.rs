//! Static promotion of block entities (chests and the like) into chunk meshes:
//! the per-tick promotion rules, the closed-lid model vocabulary and the
//! 64-bit block position key.

use vstd::prelude::*;

verus! {

/// Kinds of block entity that can be baked into the chunk mesh.
#[derive(Debug, Clone, Copy, PartialEq, Eq, Hash)]
pub enum StaticPromoteKind {
    Chest,
    TrappedChest,
    EnderChest,
    Barrel,
    ShulkerBox,
    Other,
}

/// How a block entity is drawn this frame.
#[derive(Debug, Clone, Copy, PartialEq, Eq)]
pub enum BeRenderMode {
    /// Drawn every frame as a block entity.
    DynamicBlockEntity,
    /// Baked into the chunk mesh with its closed model.
    StaticChunkMesh,
}

/// Promotion state of one block entity.
#[derive(Debug, Clone)]
pub struct BePromotionEntry {
    pub kind: StaticPromoteKind,
    /// Tick of the last open/close animation.
    pub last_anim_tick: u64,
    /// Tick of the last interaction.
    pub last_interact_tick: u64,
    pub mode: BeRenderMode,
    /// Count of rapid successive open/close events.
    pub anim_burst_score: u32,
}

/// Resource-pack id of the closed model of a kind (`Other` falls back to the
/// chest model).
pub open spec fn spec_closed_model_id(kind: StaticPromoteKind) -> Seq<char> {
    match kind {
        StaticPromoteKind::Chest => "minecraft:block/chest"@,
        StaticPromoteKind::TrappedChest => "minecraft:block/chest_trapped"@,
        StaticPromoteKind::EnderChest => "minecraft:block/ender_chest"@,
        StaticPromoteKind::Barrel => "minecraft:block/barrel"@,
        StaticPromoteKind::ShulkerBox => "minecraft:block/shulker_box"@,
        StaticPromoteKind::Other => "minecraft:block/chest"@,
    }
}

impl StaticPromoteKind {
    /// Closed-lid static model id of this kind.
    pub fn closed_model_id(&self) -> (s: &'static str)
        ensures
            s@ == spec_closed_model_id(*self),
    {
        match self {
            Self::Chest => "minecraft:block/chest",
            Self::TrappedChest => "minecraft:block/chest_trapped",
            Self::EnderChest => "minecraft:block/ender_chest",
            Self::Barrel => "minecraft:block/barrel",
            Self::ShulkerBox => "minecraft:block/shulker_box",
            Self::Other => "minecraft:block/chest",
        }
    }
}

/// The packed key: x modulo 2^26 in bits 63..38, z modulo 2^26 in bits 37..12,
/// y modulo 2^12 in bits 11..0 (moduli taken on the mathematical value, so a
/// negative coordinate wraps).
pub open spec fn spec_pos_pack(x: int, y: int, z: int) -> int {
    (x % 0x400_0000) * 0x40_0000_0000 + (z % 0x400_0000) * 0x1000 + (y % 0x1000)
}

proof fn lemma_low_bits_i32(v: i32, m: u64, p: int)
    requires
        (m == 0x3FF_FFFFu64 && p == 0x400_0000) || (m == 0xFFFu64 && p == 0x1000),
    ensures
        ((v as u64) & m) as int == (v as int) % p,
{
    let u = v as u64;
    assert(u & 0x3FF_FFFFu64 == u % 0x400_0000u64) by (bit_vector);
    assert(u & 0xFFFu64 == u % 0x1000u64) by (bit_vector);
    if v < 0 {
        assert((v as u64) as int == v as int + 0x1_0000_0000_0000_0000int) by (bit_vector)
            requires
                v < 0i32,
        ;
        vstd::arithmetic::div_mod::lemma_mod_add_multiples_vanish(v as int, p);
        assert(0x1_0000_0000_0000_0000int == p * (0x1_0000_0000_0000_0000int / p));
        vstd::arithmetic::div_mod::lemma_mod_multiples_vanish(
            0x1_0000_0000_0000_0000int / p,
            v as int,
            p,
        );
    } else {
        assert((v as u64) as int == v as int);
    }
}

/// Packs a block position into one 64-bit key.
pub fn pos_pack(x: i32, y: i32, z: i32) -> (k: u64)
    ensures
        k as int == spec_pos_pack(x as int, y as int, z as int),
{
    let fx = (#[verifier::truncate] (x as u64)) & 0x3FF_FFFF;
    let fz = (#[verifier::truncate] (z as u64)) & 0x3FF_FFFF;
    let fy = (#[verifier::truncate] (y as u64)) & 0xFFF;
    proof {
        lemma_low_bits_i32(x, 0x3FF_FFFFu64, 0x400_0000);
        lemma_low_bits_i32(z, 0x3FF_FFFFu64, 0x400_0000);
        lemma_low_bits_i32(y, 0xFFFu64, 0x1000);
        assert(fx < 0x400_0000u64 && fz < 0x400_0000u64 && fy < 0x1000u64) by (bit_vector)
            requires
                fx == (x as u64) & 0x3FF_FFFFu64,
                fz == (z as u64) & 0x3FF_FFFFu64,
                fy == (y as u64) & 0xFFFu64,
        ;
        assert(((fx << 38u64) | (fz << 12u64) | fy) as int == fx as int * 0x40_0000_0000int
            + fz as int * 0x1000int + fy as int) by (bit_vector)
            requires
                fx < 0x400_0000u64,
                fz < 0x400_0000u64,
                fy < 0x1000u64,
        ;
    }
    (fx << 38) | (fz << 12) | fy
}

/// `a - b`, or 0 when `b > a`.
pub open spec fn sat_sub(a: u64, b: u64) -> u64 {
    if a >= b {
        (a - b) as u64
    } else {
        0
    }
}

/// The entry after this tick's events: an open/close within 20 ticks of the
/// last one raises the burst score (saturating), a later one resets it; an
/// interaction stamps its tick. The mode is left as it was.
pub open spec fn after_events(e: BePromotionEntry, now: u64, opened: bool, interacted: bool) -> BePromotionEntry {
    BePromotionEntry {
        kind: e.kind,
        last_anim_tick: if opened {
            now
        } else {
            e.last_anim_tick
        },
        last_interact_tick: if interacted {
            now
        } else {
            e.last_interact_tick
        },
        mode: e.mode,
        anim_burst_score: if !opened {
            e.anim_burst_score
        } else if sat_sub(now, e.last_anim_tick) <= 20 {
            if e.anim_burst_score < u32::MAX {
                (e.anim_burst_score + 1) as u32
            } else {
                u32::MAX
            }
        } else {
            0
        },
    }
}

/// Promotion rules: how long a block entity must sit still before it is
/// baked into the chunk mesh, and how many rapid open/close events keep it
/// dynamic for good.
#[derive(Debug, Clone, Copy)]
pub struct BePromotionRules {
    /// Ticks without animation before promotion (40 = 2 seconds).
    pub promote_after_ticks: u64,
    /// Burst score at which the entity stays dynamic.
    pub burst_guard: u32,
}

impl Default for BePromotionRules {
    fn default() -> (r: Self)
        ensures
            r.promote_after_ticks == 40,
            r.burst_guard == 6,
    {
        BePromotionRules { promote_after_ticks: 40, burst_guard: 6 }
    }
}

impl BePromotionRules {
    /// Mode of an entry (already updated by this tick's events) by the rules,
    /// in order: a burst keeps it dynamic; so does an animation within the
    /// promotion delay; so does the camera being near within four delays of
    /// the last interaction; otherwise it is promoted if its static mesh is
    /// ready, and keeps its mode if not.
    pub open spec fn decided_mode(self, e: BePromotionEntry, now: u64, camera_near: bool, static_mesh_ready: bool) -> BeRenderMode {
        if e.anim_burst_score >= self.burst_guard {
            BeRenderMode::DynamicBlockEntity
        } else if sat_sub(now, e.last_anim_tick) < self.promote_after_ticks {
            BeRenderMode::DynamicBlockEntity
        } else if camera_near && sat_sub(now, e.last_interact_tick) < self.promote_after_ticks * 4 {
            BeRenderMode::DynamicBlockEntity
        } else if static_mesh_ready {
            BeRenderMode::StaticChunkMesh
        } else {
            e.mode
        }
    }

    /// Registers this tick's events on the entry and decides its mode for
    /// the frame (`camera_near`: the camera is within the interaction
    /// distance).
    pub fn tick(
        &self,
        entry: &mut BePromotionEntry,
        now_tick: u64,
        opened_now: bool,
        interacted_now: bool,
        camera_near: bool,
        static_mesh_ready: bool,
    ) -> (m: BeRenderMode)
        requires
            ({
                let e = after_events(*old(entry), now_tick, opened_now, interacted_now);
                e.anim_burst_score < self.burst_guard && sat_sub(now_tick, e.last_anim_tick)
                    >= self.promote_after_ticks && camera_near ==> self.promote_after_ticks * 4 <= u64::MAX
            }),
        ensures
            ({
                let e = after_events(*old(entry), now_tick, opened_now, interacted_now);
                &&& m == self.decided_mode(e, now_tick, camera_near, static_mesh_ready)
                &&& *final(entry) == BePromotionEntry { mode: m, ..e }
            }),
    {
        if opened_now {
            if now_tick.saturating_sub(entry.last_anim_tick) <= 20 {
                entry.anim_burst_score = entry.anim_burst_score.saturating_add(1);
            } else {
                entry.anim_burst_score = 0;
            }
            entry.last_anim_tick = now_tick;
        }
        if interacted_now {
            entry.last_interact_tick = now_tick;
        }
        if entry.anim_burst_score >= self.burst_guard {
            entry.mode = BeRenderMode::DynamicBlockEntity;
            return entry.mode;
        }
        let since_anim = now_tick.saturating_sub(entry.last_anim_tick);
        let since_interact = now_tick.saturating_sub(entry.last_interact_tick);
        if since_anim < self.promote_after_ticks {
            entry.mode = BeRenderMode::DynamicBlockEntity;
            return entry.mode;
        }
        if camera_near && since_interact < self.promote_after_ticks * 4 {
            entry.mode = BeRenderMode::DynamicBlockEntity;
            return entry.mode;
        }
        if static_mesh_ready {
            entry.mode = BeRenderMode::StaticChunkMesh;
        }
        entry.mode
    }

    /// The closed model an entry is baked with.
    pub fn promoted_model(entry: &BePromotionEntry) -> (s: &'static str)
        ensures
            s@ == spec_closed_model_id(entry.kind),
    {
        entry.kind.closed_model_id()
    }
}

} // verus!
