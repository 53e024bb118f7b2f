//! Visibility buffer IDs: per-pixel `(primitive_id, instance_id)` packing and a
//! CPU-side histogram of the instances seen in a read-back ID buffer.

use std::collections::HashMap;
use vstd::prelude::*;
use crate::text::{decimal, format_number_between};

verus! {

broadcast use vstd::std_specs::hash::group_hash_axioms;

/// Packs `(primitive, instance)` into one `u32`: primitive in the low 16 bits,
/// instance in the high 16 bits. Both must be below 65536 (wider IDs would
/// alias; use [`pack_ids_64`]).
pub fn pack_ids(primitive: u32, instance: u32) -> (p: u32)
    requires
        primitive < 65536,
        instance < 65536,
    ensures
        p == primitive + instance * 65536,
{
    assert((primitive & 0xFFFFu32) | ((instance & 0xFFFFu32) << 16u32) == primitive + instance
        * 65536) by (bit_vector)
        requires
            primitive < 65536,
            instance < 65536,
    ;
    (primitive & 0xFFFF) | ((instance & 0xFFFF) << 16)
}

/// Inverse of [`pack_ids`]: `(low 16 bits, high 16 bits)`.
pub fn unpack_ids(packed: u32) -> (r: (u32, u32))
    ensures
        r.0 == packed % 65536,
        r.1 == packed / 65536,
{
    assert(packed & 0xFFFFu32 == packed % 65536 && (packed >> 16u32) & 0xFFFFu32 == packed / 65536)
        by (bit_vector);
    (packed & 0xFFFF, (packed >> 16) & 0xFFFF)
}

/// 64-bit packing: 32-bit primitive in the low half, 32-bit instance in the
/// high half.
pub fn pack_ids_64(primitive: u32, instance: u32) -> (p: u64)
    ensures
        p == primitive + instance * 0x1_0000_0000,
{
    assert((primitive as u64) | ((instance as u64) << 32u64) == primitive + instance
        * 0x1_0000_0000) by (bit_vector);
    (primitive as u64) | ((instance as u64) << 32)
}

/// Inverse of [`pack_ids_64`].
pub fn unpack_ids_64(packed: u64) -> (r: (u32, u32))
    ensures
        r.0 == packed % 0x1_0000_0000,
        r.1 == packed / 0x1_0000_0000,
{
    assert((packed as u32) as u64 == packed % 0x1_0000_0000 && (packed >> 32u64) as u32 as u64
        == packed / 0x1_0000_0000) by (bit_vector);
    (#[verifier::truncate] (packed as u32), (packed >> 32) as u32)
}

/// Unpacking a packed pair gives the pair back.
pub proof fn lemma_pack_roundtrip(primitive: u32, instance: u32)
    requires
        primitive < 65536,
        instance < 65536,
    ensures
        (primitive + instance * 65536) % 65536 == primitive,
        (primitive + instance * 65536) / 65536 == instance,
        (primitive + instance * 0x1_0000_0000) % 0x1_0000_0000 == primitive,
        (primitive + instance * 0x1_0000_0000) / 0x1_0000_0000 == instance,
{
}

/// Number of packed IDs in `s` whose instance (high 16 bits) is `inst`.
pub open spec fn instance_count(s: Seq<u32>, inst: u32) -> nat
    decreases s.len(),
{
    if s.len() == 0 {
        0
    } else {
        instance_count(s.drop_last(), inst) + if s.last() / 65536 == inst {
            1nat
        } else {
            0nat
        }
    }
}

proof fn lemma_instance_count_prefix(s: Seq<u32>, k: int, inst: u32)
    requires
        0 <= k <= s.len(),
    ensures
        instance_count(s.take(k), inst) <= instance_count(s, inst),
    decreases s.len() - k,
{
    if k < s.len() {
        assert(s.take(k + 1).drop_last() =~= s.take(k));
        lemma_instance_count_prefix(s, k + 1, inst);
    } else {
        assert(s.take(k) =~= s);
    }
}

/// Reads back a GPU visibility buffer of `width * height` packed IDs.
#[derive(Debug, Clone, Copy)]
pub struct VisibilityBufferResolver {
    pub width: u32,
    pub height: u32,
}

impl VisibilityBufferResolver {
    pub fn new(width: u32, height: u32) -> (r: Self)
        ensures
            r.width == width,
            r.height == height,
    {
        Self { width, height }
    }

    /// Pixel count per instance over the first `width * height` entries of
    /// `id_buffer` (fewer if the buffer is shorter).
    pub fn histogram_instances(&self, id_buffer: &[u32]) -> (hist: HashMap<u32, u32>)
        requires
            self.width * self.height <= usize::MAX,
            forall|inst: u32|
                #[trigger] instance_count(
                    id_buffer@.take(
                        vstd::math::min(id_buffer@.len() as int, self.width * self.height),
                    ),
                    inst,
                ) <= u32::MAX,
        ensures
            ({
                let s = id_buffer@.take(
                    vstd::math::min(id_buffer@.len() as int, self.width * self.height),
                );
                forall|inst: u32|
                    (#[trigger] hist@.contains_key(inst) <==> instance_count(s, inst) > 0) && (
                    hist@.contains_key(inst) ==> hist@[inst] == instance_count(s, inst))
            }),
    {
        let max = (self.width as usize) * (self.height as usize);
        let n = if id_buffer.len() < max {
            id_buffer.len()
        } else {
            max
        };
        assert(n as int == vstd::math::min(id_buffer@.len() as int, self.width * self.height));
        let ghost s = id_buffer@.take(n as int);
        let mut hist: HashMap<u32, u32> = HashMap::new();
        let mut i: usize = 0;
        while i < n
            invariant
                i <= n,
                n <= id_buffer@.len(),
                s == id_buffer@.take(n as int),
                forall|inst: u32|
                    (#[trigger] hist@.contains_key(inst) <==> instance_count(s.take(i as int), inst)
                        > 0) && (hist@.contains_key(inst) ==> hist@[inst] == instance_count(
                        s.take(i as int),
                        inst,
                    )),
                forall|inst: u32| #[trigger] instance_count(s, inst) <= u32::MAX,
            decreases n - i,
        {
            let (_primitive, instance) = unpack_ids(id_buffer[i]);
            assert(s.take(i + 1).drop_last() =~= s.take(i as int));
            assert(s.take(i + 1).last() == id_buffer@[i as int]);
            let cur = match hist.get(&instance) {
                Some(c) => *c,
                None => 0,
            };
            assert(cur == instance_count(s.take(i as int), instance));
            proof {
                lemma_instance_count_prefix(s, i + 1, instance);
            }
            hist.insert(instance, cur + 1);
            i += 1;
        }
        assert(s.take(n as int) =~= s);
        hist
    }
}

/// Text of the generated resolve shader before the instance limit.
pub const RESOLVE_WGSL_HEAD: &'static str = r#"// Rsift visibility-buffer resolve (GENERATED). Mirrors Quantized12ByteVertex
// as 3 words/vertex: w0 = pos_x|pos_y<<16, w1 = pos_z|(oct_x|oct_y<<8)<<16,
// w2 = uv_u|uv_v<<16. Divisors 1024.0 / 32767.0 / 127.5 match the CPU mirror.
const MAX_INSTANCES: u32 = "#;

/// Text of the generated resolve shader after the instance limit.
pub const RESOLVE_WGSL_TAIL: &'static str = r#"u;
const WORDS_PER_VERTEX: u32 = 3u;

struct PulledFragment {
    pos: vec3<f32>,
    normal: vec3<f32>,
    uv: vec2<f32>,
};

@group(0) @binding(0) var<storage, read> vertex_words: array<u32>;
@group(0) @binding(1) var<storage, read> index_pool: array<u32>;
@group(0) @binding(2) var visibility_tex: texture_2d<u32>;
@group(0) @binding(3) var bary_tex: texture_2d<f32>;

fn decode_vertex(word_off: u32) -> PulledFragment {
    let w0 = vertex_words[word_off];
    let w1 = vertex_words[word_off + 1u];
    let w2 = vertex_words[word_off + 2u];
    var f: PulledFragment;
    f.pos = vec3<f32>(
        f32(w0 & 0xFFFFu) / 1024.0,
        f32((w0 >> 16u) & 0xFFFFu) / 1024.0,
        f32(w1 & 0xFFFFu) / 1024.0,
    );
    let ox = f32((w1 >> 16u) & 0xFFu) / 127.5 - 1.0;
    let oy = f32((w1 >> 24u) & 0xFFu) / 127.5 - 1.0;
    var n = vec3<f32>(ox, oy, 1.0 - abs(ox) - abs(oy));
    if n.z < 0.0 {
        let sx = select(-1.0, 1.0, n.x >= 0.0);
        let sy = select(-1.0, 1.0, n.y >= 0.0);
        let tx = (1.0 - abs(n.y)) * sx;
        n = vec3<f32>(tx, (1.0 - abs(n.x)) * sy, n.z);
    }
    f.normal = n;
    f.uv = vec2<f32>(
        f32(w2 & 0xFFFFu) / 32767.0,
        f32((w2 >> 16u) & 0xFFFFu) / 32767.0,
    );
    return f;
}

fn pull_and_decode(prim_id: u32, bary: vec3<f32>) -> PulledFragment {
    let base_idx = prim_id * 3u;
    let v0 = decode_vertex(index_pool[base_idx] * WORDS_PER_VERTEX);
    let v1 = decode_vertex(index_pool[base_idx + 1u] * WORDS_PER_VERTEX);
    let v2 = decode_vertex(index_pool[base_idx + 2u] * WORDS_PER_VERTEX);
    var r: PulledFragment;
    r.pos = v0.pos * bary.x + v1.pos * bary.y + v2.pos * bary.z;
    r.normal = v0.normal * bary.x + v1.normal * bary.y + v2.normal * bary.z;
    r.uv = v0.uv * bary.x + v1.uv * bary.y + v2.uv * bary.z;
    return r;
}

@fragment
fn resolve_main(@builtin(position) fc: vec4<f32>) -> @location(0) vec4<f32> {
    let pix = vec2<i32>(i32(fc.x), i32(fc.y));
    let packed = textureLoad(visibility_tex, pix, 0).r;
    let prim = packed & 0xFFFFu;
    let inst = (packed >> 16u) & 0xFFFFu;
    if prim == 0xFFFFu || inst >= MAX_INSTANCES {
        discard;
    }
    let bary = textureLoad(bary_tex, pix, 0).rgb;
    let frag = pull_and_decode(prim, bary);
    return vec4<f32>(frag.uv, 0.0, 1.0);
}
"#;

/// Resolve shader of the visibility buffer that pulls the three 12-byte
/// vertices of each visible triangle and interpolates them; instances at or
/// above `max_instances` are discarded.
pub fn generate_bindless_pulling_wgsl(max_instances: usize) -> (s: String)
    ensures
        s@ == RESOLVE_WGSL_HEAD@ + decimal(max_instances as nat) + RESOLVE_WGSL_TAIL@,
{
    format_number_between(RESOLVE_WGSL_HEAD, max_instances, RESOLVE_WGSL_TAIL)
}

} // verus!
