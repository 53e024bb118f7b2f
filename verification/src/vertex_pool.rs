//! Vertex pool: one shared GPU buffer carved into per-chunk slots by a ring
//! cursor (no per-chunk vertex buffer allocation).

use std::collections::HashMap;
use vstd::prelude::*;

verus! {

broadcast use vstd::std_specs::hash::group_hash_axioms;

/// Bytes of one quantized vertex (position, octahedral normal, uv).
pub const VERTEX_BYTES: usize = 12;

/// A built chunk mesh: 12-byte quantized vertices (as three little-endian
/// words each) and a triangle index list.
#[derive(Debug, Clone)]
pub struct BuiltChunkMesh {
    pub chunk_x: i32,
    pub chunk_z: i32,
    pub vertices: Vec<[u32; 3]>,
    pub indices: Vec<u32>,
}

impl BuiltChunkMesh {
    /// A mesh without vertices or without indices draws nothing.
    pub fn is_empty(&self) -> (b: bool)
        ensures
            b == (self.vertices@.len() == 0 || self.indices@.len() == 0),
    {
        self.vertices.len() == 0 || self.indices.len() == 0
    }
}

/// Region of the shared buffers owned by one chunk.
#[derive(Debug, Clone, Copy, PartialEq, Eq, Structural)]
pub struct PoolSlot {
    pub vertex_offset: u32,
    pub vertex_count: u32,
    pub index_offset: u32,
    pub index_count: u32,
    pub generation: u32,
}

#[derive(Debug)]
pub struct VertexPool {
    pub capacity_vertices: usize,
    pub capacity_indices: usize,
    pub vertex_bytes: usize,
    /// Slots by chunk key (see [`chunk_key`]).
    pub slots: HashMap<u64, PoolSlot>,
    pub vertex_cursor: u32,
    pub index_cursor: u32,
    pub generation: u32,
    pub ring_uploads: u64,
    /// Uploads refused for exceeding the pool capacity.
    pub oversize_rejects: u64,
}

/// Map key of a chunk: x in the high 32 bits, z in the low 32 bits (two's
/// complement).
pub open spec fn spec_chunk_key(cx: i32, cz: i32) -> u64 {
    ((cx as u32) as int * 0x1_0000_0000 + (cz as u32) as int) as u64
}

/// Distinct chunks get distinct keys, so each chunk has a slot of its own.
pub proof fn lemma_chunk_key_injective(ax: i32, az: i32, bx: i32, bz: i32)
    ensures
        spec_chunk_key(ax, az) == spec_chunk_key(bx, bz) ==> ax == bx && az == bz,
{
    let a1 = (ax as u32) as int;
    let a2 = (az as u32) as int;
    let b1 = (bx as u32) as int;
    let b2 = (bz as u32) as int;
    if spec_chunk_key(ax, az) == spec_chunk_key(bx, bz) {
        assert(a1 * 0x1_0000_0000 + a2 < 0x1_0000_0000_0000_0000) by (nonlinear_arith)
            requires
                0 <= a1 < 0x1_0000_0000,
                0 <= a2 < 0x1_0000_0000,
        ;
        assert(b1 * 0x1_0000_0000 + b2 < 0x1_0000_0000_0000_0000) by (nonlinear_arith)
            requires
                0 <= b1 < 0x1_0000_0000,
                0 <= b2 < 0x1_0000_0000,
        ;
        assert(a1 == b1 && a2 == b2) by (nonlinear_arith)
            requires
                a1 * 0x1_0000_0000 + a2 == b1 * 0x1_0000_0000 + b2,
                0 <= a1 < 0x1_0000_0000,
                0 <= a2 < 0x1_0000_0000,
                0 <= b1 < 0x1_0000_0000,
                0 <= b2 < 0x1_0000_0000,
        ;
        assert((ax as u32) == (bx as u32) ==> ax == bx) by (bit_vector);
        assert((az as u32) == (bz as u32) ==> az == bz) by (bit_vector);
    }
}

/// Map key of a chunk.
pub fn chunk_key(cx: i32, cz: i32) -> (k: u64)
    ensures
        k == spec_chunk_key(cx, cz),
{
    ((#[verifier::truncate] (cx as u32)) as u64) * 0x1_0000_0000 + (#[verifier::truncate] (cz as u32)) as u64
}

/// The pool state after an accepted upload, given the state it starts from.
pub open spec fn accepted(
    p: VertexPool,
    key: u64,
    vc: u32,
    ic: u32,
    q: VertexPool,
    slot: PoolSlot,
) -> bool {
    let reset = p.vertex_cursor + vc > p.capacity_vertices || p.index_cursor + ic > p.capacity_indices;
    let vbase: u32 = if reset { 0 } else { p.vertex_cursor };
    let ibase: u32 = if reset { 0 } else { p.index_cursor };
    let generation: u32 = if reset { ((p.generation + 1) % 0x1_0000_0000) as u32 } else { p.generation };
    let before = if reset { Map::<u64, PoolSlot>::empty() } else { p.slots@ };
    &&& slot == PoolSlot { vertex_offset: vbase, vertex_count: vc, index_offset: ibase, index_count: ic, generation }
    &&& q.vertex_cursor == vbase + vc
    &&& q.index_cursor == ibase + ic
    &&& q.generation == generation
    &&& q.slots@ == before.insert(key, slot)
    &&& q.ring_uploads == p.ring_uploads + 1
    &&& q.oversize_rejects == p.oversize_rejects
}

impl VertexPool {
    /// Cursors stay within capacity, which fits the 32-bit offsets.
    pub open spec fn wf(&self) -> bool {
        &&& self.vertex_cursor <= self.capacity_vertices
        &&& self.index_cursor <= self.capacity_indices
        &&& self.capacity_vertices <= u32::MAX
        &&& self.capacity_indices <= u32::MAX
    }

    /// Index capacity is 1.5x the vertex capacity (rounded down).
    pub fn new(capacity_vertices: usize) -> (p: Self)
        requires
            capacity_vertices * 3 <= usize::MAX,
        ensures
            p.capacity_vertices == capacity_vertices,
            p.capacity_indices == capacity_vertices * 3 / 2,
            p.vertex_bytes == VERTEX_BYTES,
            p.slots@ == Map::<u64, PoolSlot>::empty(),
            p.vertex_cursor == 0,
            p.index_cursor == 0,
            p.generation == 0,
            p.ring_uploads == 0,
            p.oversize_rejects == 0,
    {
        Self {
            capacity_vertices,
            capacity_indices: capacity_vertices * 3 / 2,
            vertex_bytes: VERTEX_BYTES,
            slots: HashMap::new(),
            vertex_cursor: 0,
            index_cursor: 0,
            generation: 0,
            ring_uploads: 0,
            oversize_rejects: 0,
        }
    }

    /// Allocates or refreshes the slot of a chunk mesh. An empty mesh removes
    /// the chunk's slot; a mesh larger than the pool is refused (and counted)
    /// and also removes it; otherwise the mesh takes the region at the ring
    /// cursors, after a ring reset (cursors back to 0, generation + 1 with
    /// wrap-around, all slots dropped) when it would not fit behind them.
    pub fn upload_mesh(&mut self, mesh: &BuiltChunkMesh) -> (r: Option<PoolSlot>)
        requires
            old(self).wf(),
            mesh.vertices@.len() <= u32::MAX,
            mesh.indices@.len() <= u32::MAX,
            old(self).ring_uploads < u64::MAX,
            old(self).oversize_rejects < u64::MAX,
        ensures
            final(self).wf(),
            final(self).capacity_vertices == old(self).capacity_vertices,
            final(self).capacity_indices == old(self).capacity_indices,
            final(self).vertex_bytes == old(self).vertex_bytes,
            ({
                let key = spec_chunk_key(mesh.chunk_x, mesh.chunk_z);
                let vc = mesh.vertices@.len();
                let ic = mesh.indices@.len();
                if vc == 0 || ic == 0 {
                    &&& r is None
                    &&& final(self).slots@ == old(self).slots@.remove(key)
                    &&& final(self).vertex_cursor == old(self).vertex_cursor
                    &&& final(self).index_cursor == old(self).index_cursor
                    &&& final(self).generation == old(self).generation
                    &&& final(self).ring_uploads == old(self).ring_uploads
                    &&& final(self).oversize_rejects == old(self).oversize_rejects
                } else if vc > old(self).capacity_vertices || ic > old(self).capacity_indices {
                    &&& r is None
                    &&& final(self).slots@ == old(self).slots@.remove(key)
                    &&& final(self).vertex_cursor == old(self).vertex_cursor
                    &&& final(self).index_cursor == old(self).index_cursor
                    &&& final(self).generation == old(self).generation
                    &&& final(self).ring_uploads == old(self).ring_uploads
                    &&& final(self).oversize_rejects == old(self).oversize_rejects + 1
                } else {
                    r matches Some(slot) && accepted(*old(self), key, vc as u32, ic as u32, *final(self), slot)
                }
            }),
    {
        let key = chunk_key(mesh.chunk_x, mesh.chunk_z);
        if mesh.is_empty() {
            self.slots.remove(&key);
            return None;
        }
        let vcount = mesh.vertices.len() as u32;
        let icount = mesh.indices.len() as u32;
        if vcount as usize > self.capacity_vertices || icount as usize > self.capacity_indices {
            self.slots.remove(&key);
            self.oversize_rejects += 1;
            return None;
        }
        if self.vertex_cursor as u64 + vcount as u64 > self.capacity_vertices as u64
            || self.index_cursor as u64 + icount as u64 > self.capacity_indices as u64
        {
            self.reset_ring();
        }
        let slot = PoolSlot {
            vertex_offset: self.vertex_cursor,
            vertex_count: vcount,
            index_offset: self.index_cursor,
            index_count: icount,
            generation: self.generation,
        };
        self.vertex_cursor += vcount;
        self.index_cursor += icount;
        self.ring_uploads += 1;
        self.slots.insert(key, slot);
        Some(slot)
    }

    /// Rewinds the ring and drops every slot; the generation wraps at 2^32.
    fn reset_ring(&mut self)
        ensures
            final(self).vertex_cursor == 0,
            final(self).index_cursor == 0,
            final(self).generation == (old(self).generation + 1) % 0x1_0000_0000,
            final(self).slots@ == Map::<u64, PoolSlot>::empty(),
            final(self).capacity_vertices == old(self).capacity_vertices,
            final(self).capacity_indices == old(self).capacity_indices,
            final(self).vertex_bytes == old(self).vertex_bytes,
            final(self).ring_uploads == old(self).ring_uploads,
            final(self).oversize_rejects == old(self).oversize_rejects,
    {
        self.vertex_cursor = 0;
        self.index_cursor = 0;
        self.generation = self.generation.wrapping_add(1);
        self.slots.clear();
    }

    /// Number of chunks holding a slot.
    pub fn active_chunks(&self) -> (n: usize)
        ensures
            n == self.slots@.len(),
    {
        self.slots.len()
    }

    /// The slot of a chunk, if it has one.
    pub fn slot(&self, cx: i32, cz: i32) -> (s: Option<PoolSlot>)
        ensures
            s == (if self.slots@.contains_key(spec_chunk_key(cx, cz)) {
                Some(self.slots@[spec_chunk_key(cx, cz)])
            } else {
                None
            }),
    {
        match self.slots.get(&chunk_key(cx, cz)) {
            Some(s) => Some(*s),
            None => None,
        }
    }
}

} // verus!
