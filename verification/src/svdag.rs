//! Sparse voxel DAG: an octree over a 16^3 binary volume in which identical
//! subtrees are stored once (hash-consing), node ids given in insertion
//! order.

use std::collections::HashMap;
use vstd::prelude::*;

verus! {

broadcast use {vstd::std_specs::hash::group_hash_axioms, vstd::array::group_array_axioms};

/// "No child" link.
pub const NO_CHILD: u32 = 0xFFFF_FFFF;

/// One DAG node: an occupancy bit per octant and the child ids (leaves carry
/// their solidity in bit 0 and no children).
#[derive(Debug, Clone, Copy, PartialEq, Eq, Hash)]
pub struct SvdagNodeData {
    pub child_mask: u8,
    pub children: [u32; 8],
}

/// The empty leaf, always node 0.
pub open spec fn empty_leaf() -> SvdagNodeData {
    SvdagNodeData { child_mask: 0, children: [NO_CHILD, NO_CHILD, NO_CHILD, NO_CHILD, NO_CHILD, NO_CHILD, NO_CHILD, NO_CHILD] }
}

/// Bucket key of a node: the mask and children folded by shift-xor.
pub open spec fn key_fold(n: SvdagNodeData, k: nat) -> u64
    decreases k,
{
    if k == 0 {
        n.child_mask as u64
    } else {
        (key_fold(n, (k - 1) as nat) << 7u64) ^ (n.children[k - 1] as u64)
    }
}

pub open spec fn node_key(n: SvdagNodeData) -> u64 {
    key_fold(n, 8)
}

/// Result of hash-consing `n` into `nodes`: the index of an equal node if
/// there is one, else `n` appended.
pub open spec fn spec_insert(nodes: Seq<SvdagNodeData>, n: SvdagNodeData) -> (Seq<SvdagNodeData>, int) {
    if exists|i: int| 0 <= i < nodes.len() && nodes[i] == n {
        (nodes, choose|i: int| 0 <= i < nodes.len() && nodes[i] == n)
    } else {
        (nodes.push(n), nodes.len() as int)
    }
}

/// No node occurs twice.
pub open spec fn distinct_nodes(nodes: Seq<SvdagNodeData>) -> bool {
    forall|i: int, j: int| 0 <= i < j < nodes.len() ==> nodes[i] != nodes[j]
}


/// Bit `i` of an occupancy mask.
pub open spec fn has_bit(m: u8, i: int) -> bool {
    (m >> (i as u8)) & 1u8 == 1u8
}

/// Octant of local coordinates in a node of half-size `h`: bit 0 for x, bit 1
/// for y, bit 2 for z in the upper half.
pub open spec fn octant(lx: int, ly: int, lz: int, h: int) -> int {
    (if lx >= h { 1int } else { 0int }) + (if ly >= h { 2int } else { 0int }) + (if lz >= h {
        4int
    } else {
        0int
    })
}

/// Coordinate within the child half.
pub open spec fn in_half(l: int, h: int) -> int {
    if l >= h {
        l - h
    } else {
        l
    }
}

/// Whether node `id`, read as a node of side `size`, marks local voxel
/// `(lx, ly, lz)` solid.
pub open spec fn denote(nodes: Seq<SvdagNodeData>, id: int, size: nat, lx: int, ly: int, lz: int) -> bool
    decreases size,
{
    if size <= 1 {
        nodes[id].child_mask != 0
    } else {
        let h = size / 2;
        let o = octant(lx, ly, lz, h as int);
        if has_bit(nodes[id].child_mask, o) {
            denote(nodes, nodes[id].children[o] as int, h, in_half(lx, h as int), in_half(ly, h as int), in_half(lz, h as int))
        } else {
            false
        }
    }
}

/// Node `id` and every node reachable through its set bits exist.
pub open spec fn sound(nodes: Seq<SvdagNodeData>, id: int, size: nat) -> bool
    decreases size,
{
    &&& 0 <= id < nodes.len()
    &&& size > 1 ==> forall|o: int|
        0 <= o < 8 && #[trigger] has_bit(nodes[id].child_mask, o) ==> sound(
            nodes,
            nodes[id].children[o] as int,
            size / 2,
        )
}

/// Sides a volume node can have.
pub open spec fn valid_side(size: int) -> bool {
    size == 1 || size == 2 || size == 4 || size == 8 || size == 16
}

/// Nodes a subtree of side `size` can add at most.
pub open spec fn max_new_nodes(size: nat) -> nat
    decreases size,
{
    if size <= 1 {
        1
    } else {
        1 + 8 * max_new_nodes(size / 2)
    }
}

/// A 16^3 voxel volume indexed `[x][y][z]`.
pub type Volume = [[[bool; 16]; 16]; 16];

pub open spec fn voxel(vol: Volume, x: int, y: int, z: int) -> bool {
    vol[x][y][z]
}

/// The leaf for one voxel.
pub open spec fn leaf(solid: bool) -> SvdagNodeData {
    SvdagNodeData {
        child_mask: if solid {
            1
        } else {
            0
        },
        children: [NO_CHILD, NO_CHILD, NO_CHILD, NO_CHILD, NO_CHILD, NO_CHILD, NO_CHILD, NO_CHILD],
    }
}

/// Offset of octant `o`'s child along each axis.
pub open spec fn child_origin(x: int, y: int, z: int, h: int, o: int) -> (int, int, int) {
    (x + (o % 2) * h, y + ((o / 2) % 2) * h, z + (o / 4) * h)
}

/// Nodes and root after building the subtree of side `size` at `(x, y, z)`
/// depth first, octants in order, each node hash-consed after its children.
pub open spec fn built(nodes: Seq<SvdagNodeData>, vol: Volume, x: int, y: int, z: int, size: nat) -> (Seq<SvdagNodeData>, int)
    decreases size, 9nat,
{
    if size <= 1 {
        spec_insert(nodes, leaf(voxel(vol, x, y, z)))
    } else {
        let (n2, m, c) = built_children(nodes, vol, x, y, z, size, 8);
        spec_insert(n2, SvdagNodeData { child_mask: m, children: [c[0], c[1], c[2], c[3], c[4], c[5], c[6], c[7]] })
    }
}

/// Nodes, mask and child links after building octants `0..i` of the node of
/// side `size` at `(x, y, z)`; an octant whose node is empty gets no bit and
/// no link.
pub open spec fn built_children(nodes: Seq<SvdagNodeData>, vol: Volume, x: int, y: int, z: int, size: nat, i: nat) -> (Seq<SvdagNodeData>, u8, Seq<u32>)
    decreases size, i,
{
    if i == 0 || size <= 1 {
        (nodes, 0u8, seq![NO_CHILD, NO_CHILD, NO_CHILD, NO_CHILD, NO_CHILD, NO_CHILD, NO_CHILD, NO_CHILD])
    } else {
        let (n1, m1, c1) = built_children(nodes, vol, x, y, z, size, (i - 1) as nat);
        let o = i - 1;
        let h = size / 2;
        let (cx, cy, cz) = child_origin(x, y, z, h as int, o);
        let (n2, cid) = built(n1, vol, cx, cy, cz, h);
        if n2[cid].child_mask != 0 {
            (n2, m1 | (1u8 << (o as u8)), c1.update(o, cid as u32))
        } else {
            (n2, m1, c1)
        }
    }
}


pub proof fn lemma_spec_insert(nodes: Seq<SvdagNodeData>, n: SvdagNodeData)
    ensures
        ({
            let (n2, id) = spec_insert(nodes, n);
            &&& 0 <= id < n2.len()
            &&& n2[id] == n
            &&& nodes.len() <= n2.len() <= nodes.len() + 1
            &&& forall|j: int| 0 <= j < nodes.len() ==> n2[j] == nodes[j]
        }),
{
    if exists|i: int| 0 <= i < nodes.len() && nodes[i] == n {
        let c = choose|i: int| 0 <= i < nodes.len() && nodes[i] == n;
        assert(0 <= c < nodes.len() && nodes[c] == n);
    }
}


proof fn lemma_built_id(nodes: Seq<SvdagNodeData>, vol: Volume, x: int, y: int, z: int, size: nat)
    ensures
        ({
            let (n2, id) = built(nodes, vol, x, y, z, size);
            0 <= id < n2.len()
        }),
{
    if size <= 1 {
        lemma_spec_insert(nodes, leaf(voxel(vol, x, y, z)));
    } else {
        let (n2, m, c) = built_children(nodes, vol, x, y, z, size, 8);
        lemma_spec_insert(n2, SvdagNodeData { child_mask: m, children: [c[0], c[1], c[2], c[3], c[4], c[5], c[6], c[7]] });
    }
}

/// Setting bit `o` sets exactly that bit; the empty mask has none.
pub proof fn lemma_bit_or(m: u8, o: u8, j: u8)
    requires
        o < 8,
        j < 8,
    ensures
        ((m | (1u8 << o)) >> j) & 1u8 == 1u8 <==> (j == o || (m >> j) & 1u8 == 1u8),
        (0u8 >> j) & 1u8 != 1u8,
{
    assert(((m | (1u8 << o)) >> j) & 1u8 == 1u8 <==> (j == o || (m >> j) & 1u8 == 1u8)) by (bit_vector)
        requires
            o < 8,
            j < 8,
    ;
    assert((0u8 >> j) & 1u8 != 1u8) by (bit_vector);
}

/// `nodes2` keeps `nodes1` as a prefix.
pub open spec fn extends(nodes1: Seq<SvdagNodeData>, nodes2: Seq<SvdagNodeData>) -> bool {
    &&& nodes1.len() <= nodes2.len()
    &&& forall|j: int| 0 <= j < nodes1.len() ==> nodes2[j] == nodes1[j]
}

/// Node 0 stays the empty leaf: every operation after `new` extends the
/// node list, which keeps its first node.
pub proof fn lemma_first_node_kept(before: Seq<SvdagNodeData>, after: Seq<SvdagNodeData>)
    requires
        extends(before, after),
        before.len() > 0,
        before[0] == empty_leaf(),
    ensures
        after.len() > 0,
        after[0] == empty_leaf(),
{
}

proof fn lemma_denote_stable(n1: Seq<SvdagNodeData>, n2: Seq<SvdagNodeData>, id: int, size: nat)
    requires
        sound(n1, id, size),
        extends(n1, n2),
    ensures
        sound(n2, id, size),
        forall|lx: int, ly: int, lz: int| #[trigger] denote(n2, id, size, lx, ly, lz) == denote(n1, id, size, lx, ly, lz),
    decreases size,
{
    assert(n2[id] == n1[id]);
    if size > 1 {
        assert forall|o: int| 0 <= o < 8 && #[trigger] has_bit(n1[id].child_mask, o) implies sound(
            n2,
            n1[id].children[o] as int,
            size / 2,
        ) && forall|lx: int, ly: int, lz: int| #[trigger] denote(n2, n1[id].children[o] as int, size / 2, lx, ly, lz)
            == denote(n1, n1[id].children[o] as int, size / 2, lx, ly, lz) by {
            lemma_denote_stable(n1, n2, n1[id].children[o] as int, size / 2);
        }
        assert forall|lx: int, ly: int, lz: int| #[trigger] denote(n2, id, size, lx, ly, lz) == denote(n1, id, size, lx, ly, lz) by {
            let h = size / 2;
            let o = octant(lx, ly, lz, h as int);
            if has_bit(n1[id].child_mask, o) {
                assert(0 <= o < 8);
                assert(denote(n2, n1[id].children[o] as int, h, in_half(lx, h as int), in_half(ly, h as int), in_half(lz, h as int))
                    == denote(n1, n1[id].children[o] as int, h, in_half(lx, h as int), in_half(ly, h as int), in_half(lz, h as int)));
            }
        }
    }
}

/// A node with no bits set marks nothing solid.
proof fn lemma_empty_node(nodes: Seq<SvdagNodeData>, id: int, size: nat)
    requires
        0 <= id < nodes.len(),
        nodes[id].child_mask == 0,
    ensures
        forall|lx: int, ly: int, lz: int| !#[trigger] denote(nodes, id, size, lx, ly, lz),
{
    assert forall|lx: int, ly: int, lz: int| !#[trigger] denote(nodes, id, size, lx, ly, lz) by {
        if size > 1 {
            let o = octant(lx, ly, lz, (size / 2) as int);
            assert(0 <= o < 8);
            lemma_bit_or(0, 0, o as u8);
        }
    }
}

/// Octant arithmetic: the child of octant `octant(l, h)` starts where the
/// local coordinate falls.
proof fn lemma_octant_origin(lx: int, ly: int, lz: int, h: int)
    requires
        h > 0,
        0 <= lx < 2 * h,
        0 <= ly < 2 * h,
        0 <= lz < 2 * h,
    ensures
        ({
            let o = octant(lx, ly, lz, h);
            &&& 0 <= o < 8
            &&& (o % 2) * h + in_half(lx, h) == lx
            &&& ((o / 2) % 2) * h + in_half(ly, h) == ly
            &&& (o / 4) * h + in_half(lz, h) == lz
            &&& 0 <= in_half(lx, h) < h
            &&& 0 <= in_half(ly, h) < h
            &&& 0 <= in_half(lz, h) < h
        }),
{
    let a: int = if lx >= h { 1 } else { 0 };
    let b: int = if ly >= h { 1 } else { 0 };
    let c: int = if lz >= h { 1 } else { 0 };
    let o = octant(lx, ly, lz, h);
    assert(o == a + 2 * b + 4 * c);
    assert(o % 2 == a && (o / 2) % 2 == b && o / 4 == c);
    lemma_bit_times(a, h);
    lemma_bit_times(b, h);
    lemma_bit_times(c, h);
}

/// `a * h` for a bit `a`.
proof fn lemma_bit_times(a: int, h: int)
    requires
        a == 0 || a == 1,
    ensures
        a * h == if a == 1 { h } else { 0 },
{
}

/// The child origins of octant `o` lie within the parent.
proof fn lemma_child_origin_bounds(o: int, h: int)
    requires
        0 <= o < 8,
        h >= 0,
    ensures
        0 <= (o % 2) * h <= h,
        0 <= ((o / 2) % 2) * h <= h,
        0 <= (o / 4) * h <= h,
{
    lemma_bit_times(o % 2, h);
    lemma_bit_times((o / 2) % 2, h);
    lemma_bit_times(o / 4, h);
}

/// Building a subtree yields a sound node that marks exactly the solid voxels
/// of its part of the volume, and only appends nodes.
proof fn lemma_built_denotes(nodes: Seq<SvdagNodeData>, vol: Volume, x: int, y: int, z: int, size: nat)
    requires
        valid_side(size as int),
        0 <= x,
        0 <= y,
        0 <= z,
        x + size <= 16,
        y + size <= 16,
        z + size <= 16,
        nodes.len() + max_new_nodes(size) < NO_CHILD,
    ensures
        ({
            let (n2, id) = built(nodes, vol, x, y, z, size);
            &&& n2.len() <= nodes.len() + max_new_nodes(size)
            &&& extends(nodes, n2)
            &&& sound(n2, id, size)
            &&& forall|lx: int, ly: int, lz: int|
                0 <= lx < size && 0 <= ly < size && 0 <= lz < size ==> #[trigger] denote(n2, id, size, lx, ly, lz)
                    == voxel(vol, x + lx, y + ly, z + lz)
        }),
    decreases size, 9nat,
{
    if size <= 1 {
        lemma_spec_insert(nodes, leaf(voxel(vol, x, y, z)));
    } else {
        let h = size / 2;
        let (n2, m, c) = built_children(nodes, vol, x, y, z, size, 8);
        lemma_children_denote(nodes, vol, x, y, z, size, 8);
        let node = SvdagNodeData { child_mask: m, children: [c[0], c[1], c[2], c[3], c[4], c[5], c[6], c[7]] };
        lemma_spec_insert(n2, node);
        let (n3, p) = spec_insert(n2, node);
        assert(n3[p] == node);
        assert forall|o: int| 0 <= o < 8 implies node.children[o] == c[o] by {
            assert(node.children@ == seq![c[0], c[1], c[2], c[3], c[4], c[5], c[6], c[7]]);
        }
        assert forall|o: int| 0 <= o < 8 && #[trigger] has_bit(m, o) implies sound(n3, c[o] as int, h)
            && forall|lx: int, ly: int, lz: int| #[trigger] denote(n3, c[o] as int, h, lx, ly, lz)
                == denote(n2, c[o] as int, h, lx, ly, lz) by {
            lemma_denote_stable(n2, n3, c[o] as int, h);
        }
        assert(sound(n3, p, size));
        assert forall|lx: int, ly: int, lz: int|
            0 <= lx < size && 0 <= ly < size && 0 <= lz < size implies #[trigger] denote(n3, p, size, lx, ly, lz)
                == voxel(vol, x + lx, y + ly, z + lz) by {
            lemma_octant_origin(lx, ly, lz, h as int);
            let o = octant(lx, ly, lz, h as int);
            let (cx, cy, cz) = child_origin(x, y, z, h as int, o);
            let (ix, iy, iz) = (in_half(lx, h as int), in_half(ly, h as int), in_half(lz, h as int));
            assert(cx + ix == x + lx && cy + iy == y + ly && cz + iz == z + lz);
            if has_bit(m, o) {
                assert(denote(n3, c[o] as int, h, ix, iy, iz) == denote(n2, c[o] as int, h, ix, iy, iz));
            }
        }
    }
}

#[verifier::spinoff_prover]
#[verifier::rlimit(40)]
proof fn lemma_children_denote(nodes: Seq<SvdagNodeData>, vol: Volume, x: int, y: int, z: int, size: nat, i: nat)
    requires
        valid_side(size as int),
        size > 1,
        i <= 8,
        0 <= x,
        0 <= y,
        0 <= z,
        x + size <= 16,
        y + size <= 16,
        z + size <= 16,
        nodes.len() + max_new_nodes(size) < NO_CHILD,
    ensures
        ({
            let (n, m, c) = built_children(nodes, vol, x, y, z, size, i);
            let h = size / 2;
            &&& n.len() <= nodes.len() + i * max_new_nodes(h)
            &&& extends(nodes, n)
            &&& c.len() == 8
            &&& forall|o: int| i <= o < 8 ==> !#[trigger] has_bit(m, o) && c[o] == NO_CHILD
            &&& forall|o: int|
                0 <= o < i && #[trigger] has_bit(m, o) ==> {
                    let (cx, cy, cz) = child_origin(x, y, z, h as int, o);
                    &&& sound(n, c[o] as int, h)
                    &&& forall|lx: int, ly: int, lz: int|
                        0 <= lx < h && 0 <= ly < h && 0 <= lz < h ==> #[trigger] denote(n, c[o] as int, h, lx, ly, lz)
                            == voxel(vol, cx + lx, cy + ly, cz + lz)
                }
            &&& forall|o: int|
                0 <= o < i && !#[trigger] has_bit(m, o) ==> {
                    let (cx, cy, cz) = child_origin(x, y, z, h as int, o);
                    forall|lx: int, ly: int, lz: int|
                        0 <= lx < h && 0 <= ly < h && 0 <= lz < h ==> !#[trigger] voxel(vol, cx + lx, cy + ly, cz + lz)
                }
        }),
    decreases size, i,
{
    let h = size / 2;
    if i == 0 {
        assert forall|o: int| 0 <= o < 8 implies !#[trigger] has_bit(0u8, o) by {
            lemma_bit_or(0, 0, o as u8);
        }
    } else {
        let (n1, m1, c1) = built_children(nodes, vol, x, y, z, size, (i - 1) as nat);
        lemma_children_denote(nodes, vol, x, y, z, size, (i - 1) as nat);
        let o = i - 1;
        let mh = max_new_nodes(h);
        assert(max_new_nodes(size) == 1 + 8 * mh);
        assert(o * mh + mh <= 8 * mh && (o + 1) * mh == o * mh + mh) by (nonlinear_arith)
            requires
                o < 8,
        ;
        let (cx, cy, cz) = child_origin(x, y, z, h as int, o);
        assert(0 <= cx && cx + h <= 16 && 0 <= cy && cy + h <= 16 && 0 <= cz && cz + h <= 16) by {
            assert(h + h == size);
            lemma_child_origin_bounds(o as int, h as int);
        }
        lemma_built_denotes(n1, vol, cx, cy, cz, h);
        lemma_built_id(n1, vol, cx, cy, cz, h);
        let (n2, cid) = built(n1, vol, cx, cy, cz, h);
        assert forall|q: int| 0 <= q < o && #[trigger] has_bit(m1, q) implies sound(n2, c1[q] as int, h)
            && forall|lx: int, ly: int, lz: int| #[trigger] denote(n2, c1[q] as int, h, lx, ly, lz)
                == denote(n1, c1[q] as int, h, lx, ly, lz) by {
            lemma_denote_stable(n1, n2, c1[q] as int, h);
        }
        if n2[cid].child_mask != 0 {
            let m = m1 | (1u8 << (o as u8));
            assert forall|q: int| 0 <= q < 8 implies #[trigger] has_bit(m, q) == (q == o || has_bit(m1, q)) by {
                lemma_bit_or(m1, o as u8, q as u8);
            }
        } else {
            lemma_empty_node(n2, cid, h);
            assert forall|lx: int, ly: int, lz: int|
                0 <= lx < h && 0 <= ly < h && 0 <= lz < h implies !#[trigger] voxel(vol, cx + lx, cy + ly, cz + lz) by {
                assert(!denote(n2, cid, h, lx, ly, lz));
            }
        }
    }
}

/// Sparse voxel DAG over a 16^3 volume.
#[derive(Debug, Clone)]
pub struct SparseVoxelDag {
    pub nodes: Vec<SvdagNodeData>,
    node_pool: HashMap<u64, Vec<u32>>,
    pub root_id: u32,
}

impl Default for SparseVoxelDag {
    fn default() -> (d: Self)
        ensures
            d.wf(),
            d.node_seq() == seq![empty_leaf()],
            d.root() == 0,
    {
        Self::new()
    }
}

pub(crate) fn node_eq(a: &SvdagNodeData, b: &SvdagNodeData) -> (r: bool)
    ensures
        r == (*a == *b),
{
    if a.child_mask != b.child_mask {
        return false;
    }
    let mut i: usize = 0;
    while i < 8
        invariant
            i <= 8,
            forall|j: int| 0 <= j < i ==> a.children[j] == b.children[j],
        decreases 8 - i,
    {
        if a.children[i] != b.children[i] {
            return false;
        }
        i += 1;
    }
    assert(a.children =~= b.children);
    true
}

pub(crate) fn compute_key(n: &SvdagNodeData) -> (k: u64)
    ensures
        k == node_key(*n),
{
    let mut k: u64 = n.child_mask as u64;
    let mut i: usize = 0;
    while i < 8
        invariant
            i <= 8,
            k == key_fold(*n, i as nat),
        decreases 8 - i,
    {
        k = (k << 7u64) ^ (n.children[i] as u64);
        i += 1;
    }
    k
}

/// Index in `bucket` of a node equal to `n`, if any.
fn find_in_bucket(nodes: &Vec<SvdagNodeData>, bucket: &Vec<u32>, n: &SvdagNodeData) -> (r: Option<u32>)
    ensures
        r matches Some(i) ==> i < nodes@.len() && nodes@[i as int] == *n,
        r is None ==> forall|j: int|
            0 <= j < bucket@.len() && (bucket@[j] as int) < nodes@.len() ==> nodes@[bucket@[j] as int]
                != *n,
{
    let mut j: usize = 0;
    while j < bucket.len()
        invariant
            j <= bucket@.len(),
            forall|t: int|
                0 <= t < j && (bucket@[t] as int) < nodes@.len() ==> nodes@[bucket@[t] as int] != *n,
        decreases bucket@.len() - j,
    {
        let id = bucket[j];
        if (id as usize) < nodes.len() && node_eq(&nodes[id as usize], n) {
            return Some(id);
        }
        j += 1;
    }
    None
}

impl SparseVoxelDag {
    /// The nodes, by id.
    pub closed spec fn node_seq(self) -> Seq<SvdagNodeData> {
        self.nodes@
    }

    /// Current root.
    pub closed spec fn root(self) -> u32 {
        self.root_id
    }

    /// Nodes are distinct, ids fit below the no-child marker, and every node
    /// is filed in the bucket of its key (buckets hold only matching ids).
    pub closed spec fn wf(self) -> bool {
        &&& self.nodes@.len() < NO_CHILD
        &&& distinct_nodes(self.nodes@)
        &&& forall|i: int|
            0 <= i < self.nodes@.len() ==> {
                &&& #[trigger] self.node_pool@.contains_key(node_key(self.nodes@[i]))
                &&& self.node_pool@[node_key(self.nodes@[i])]@.contains(i as u32)
            }
        &&& forall|k: u64, t: int|
            #![trigger self.node_pool@[k]@[t]]
            self.node_pool@.contains_key(k) && 0 <= t < self.node_pool@[k]@.len() ==> {
                &&& (self.node_pool@[k]@[t] as int) < self.nodes@.len()
                &&& node_key(self.nodes@[self.node_pool@[k]@[t] as int]) == k
            }
    }

    /// A DAG holding only the empty leaf, which is also the root.
    pub fn new() -> (d: Self)
        ensures
            d.wf(),
            d.node_seq() == seq![empty_leaf()],
            d.root() == 0,
    {
        let mut dag = SparseVoxelDag { nodes: Vec::new(), node_pool: HashMap::new(), root_id: NO_CHILD };
        let empty = SvdagNodeData { child_mask: 0, children: [NO_CHILD, NO_CHILD, NO_CHILD, NO_CHILD, NO_CHILD, NO_CHILD, NO_CHILD, NO_CHILD] };
        let id = dag.insert_node(empty);
        dag.root_id = id;
        proof {
            assert(dag.nodes@ =~= seq![empty_leaf()]);
        }
        dag
    }

    /// Returns the id of the node equal to `node`, appending it first when
    /// there is none.
    pub fn insert_node(&mut self, node: SvdagNodeData) -> (id: u32)
        requires
            old(self).wf(),
            old(self).node_seq().len() + 1 < NO_CHILD,
        ensures
            final(self).wf(),
            final(self).root() == old(self).root(),
            (final(self).node_seq(), id as int) == spec_insert(old(self).node_seq(), node),
            distinct_nodes(final(self).node_seq()),
            extends(old(self).node_seq(), final(self).node_seq()),
            old(self).node_seq().len() > 0 && old(self).node_seq()[0] == empty_leaf() ==> final(self).node_seq()[0]
                == empty_leaf(),
    {
        let k = compute_key(&node);
        let found = match self.node_pool.get(&k) {
            Some(bucket) => find_in_bucket(&self.nodes, bucket, &node),
            None => None,
        };
        match found {
            Some(id) => {
                proof {
                    let i = id as int;
                    let c = choose|j: int| 0 <= j < self.nodes@.len() && self.nodes@[j] == node;
                    assert(self.nodes@[c] == self.nodes@[i]);
                    if c != i {
                        if c < i {
                            assert(self.nodes@[c] != self.nodes@[i]);
                        } else {
                            assert(self.nodes@[i] != self.nodes@[c]);
                        }
                    }
                }
                return id;
            },
            None => {},
        }
        proof {
            assert forall|i: int| 0 <= i < self.nodes@.len() implies self.nodes@[i] != node by {
                if self.nodes@[i] == node {
                    assert(self.node_pool@.contains_key(node_key(self.nodes@[i])));
                    let b = self.node_pool@[k]@;
                    assert(b.contains(i as u32));
                    let t = choose|t: int| 0 <= t < b.len() && b[t] == i as u32;
                    assert(self.node_pool@[k]@[t] == i as u32);
                }
            }
        }
        let id = self.nodes.len() as u32;
        let ghost old_pool = self.node_pool@;
        let mut bucket = match self.node_pool.remove(&k) {
            Some(b) => b,
            None => Vec::new(),
        };
        let ghost old_bucket = bucket@;
        assert(old_pool.contains_key(k) ==> old_bucket == old_pool[k]@);
        assert(!old_pool.contains_key(k) ==> old_bucket.len() == 0);
        bucket.push(id);
        self.node_pool.insert(k, bucket);
        let ghost old_nodes = self.nodes@;
        self.nodes.push(node);
        proof {
            assert forall|i: int|
                0 <= i < self.nodes@.len() implies {
                &&& #[trigger] self.node_pool@.contains_key(node_key(self.nodes@[i]))
                &&& self.node_pool@[node_key(self.nodes@[i])]@.contains(i as u32)
            } by {
                if i < old_nodes.len() {
                    assert(self.nodes@[i] == old_nodes[i]);
                    if node_key(old_nodes[i]) == k {
                        assert(self.node_pool@[k]@ == old_bucket.push(id));
                        let t = choose|t: int| 0 <= t < old_bucket.len() && old_bucket[t] == i as u32;
                        assert(self.node_pool@[k]@[t] == i as u32);
                    } else {
                        assert(self.node_pool@[node_key(old_nodes[i])] == old_pool[node_key(old_nodes[i])]);
                    }
                } else {
                    assert(self.node_pool@[k]@[old_bucket.len() as int] == id);
                }
            }
            assert forall|kk: u64, t: int|
                #![trigger self.node_pool@[kk]@[t]]
                self.node_pool@.contains_key(kk) && 0 <= t < self.node_pool@[kk]@.len() implies {
                &&& (self.node_pool@[kk]@[t] as int) < self.nodes@.len()
                &&& node_key(self.nodes@[self.node_pool@[kk]@[t] as int]) == kk
            } by {
                if kk == k {
                    if t < old_bucket.len() {
                        assert(self.node_pool@[kk]@[t] == old_bucket[t]);
                    }
                } else {
                    assert(self.node_pool@[kk] == old_pool[kk]);
                }
            }
            assert(distinct_nodes(self.nodes@));
        }
        id
    }


    /// Builds the DAG of `volume` (indexed `[x][y][z]`) into the node pool,
    /// makes its root the current root and returns it.
    pub fn build_from_volume(&mut self, volume: &Volume) -> (root: u32)
        requires
            old(self).wf(),
            old(self).node_seq().len() + max_new_nodes(16) < NO_CHILD,
        ensures
            final(self).wf(),
            final(self).root() == root,
            (final(self).node_seq(), root as int) == built(old(self).node_seq(), *volume, 0, 0, 0, 16),
            extends(old(self).node_seq(), final(self).node_seq()),
            distinct_nodes(final(self).node_seq()),
            old(self).node_seq().len() > 0 && old(self).node_seq()[0] == empty_leaf() ==> final(self).node_seq()[0]
                == empty_leaf(),
            sound(final(self).node_seq(), root as int, 16),
            forall|x: int, y: int, z: int|
                0 <= x < 16 && 0 <= y < 16 && 0 <= z < 16 ==> #[trigger] denote(final(self).node_seq(), root as int, 16, x, y, z)
                    == voxel(*volume, x, y, z),
    {
        proof {
            lemma_built_denotes(self.nodes@, *volume, 0, 0, 0, 16);
        }
        let r = self.build_octree_recursive(volume, 0, 0, 0, 16);
        self.root_id = r;
        r
    }

    fn build_octree_recursive(&mut self, volume: &Volume, x: usize, y: usize, z: usize, size: usize) -> (id: u32)
        requires
            old(self).wf(),
            valid_side(size as int),
            x + size <= 16,
            y + size <= 16,
            z + size <= 16,
            old(self).node_seq().len() + max_new_nodes(size as nat) < NO_CHILD,
        ensures
            final(self).wf(),
            final(self).root() == old(self).root(),
            (final(self).node_seq(), id as int) == built(old(self).node_seq(), *volume, x as int, y as int, z as int, size as nat),
            final(self).node_seq().len() <= old(self).node_seq().len() + max_new_nodes(size as nat),
        decreases size,
    {
        if size == 1 {
            let solid = volume[x][y][z];
            let leaf_node = SvdagNodeData {
                child_mask: if solid {
                    1
                } else {
                    0
                },
                children: [NO_CHILD, NO_CHILD, NO_CHILD, NO_CHILD, NO_CHILD, NO_CHILD, NO_CHILD, NO_CHILD],
            };
            assert(leaf_node == leaf(voxel(*volume, x as int, y as int, z as int)));
            return self.insert_node(leaf_node);
        }
        let half = size / 2;
        let ghost start = self.nodes@;
        let ghost m_half = max_new_nodes(half as nat);
        assert(max_new_nodes(size as nat) == 1 + 8 * m_half);
        let mut child_mask: u8 = 0;
        let mut children: Vec<u32> = vec![NO_CHILD, NO_CHILD, NO_CHILD, NO_CHILD, NO_CHILD, NO_CHILD, NO_CHILD, NO_CHILD];
        let mut i: usize = 0;
        while i < 8
            invariant
                self.wf(),
                self.root_id == old(self).root_id,
                i <= 8,
                1 < size <= 16,
                valid_side(size as int),
                half == size / 2,
                x + size <= 16,
                y + size <= 16,
                z + size <= 16,
                m_half == max_new_nodes(half as nat),
                start.len() + 1 + 8 * m_half < NO_CHILD,
                children@.len() == 8,
                (self.nodes@, child_mask, children@) == built_children(start, *volume, x as int, y as int, z as int, size as nat, i as nat),
                self.nodes@.len() <= start.len() + i * m_half,
            decreases 8 - i,
        {
            proof {
                assert(half + half == size);
                assert((i % 2) * half <= half) by (nonlinear_arith)
                    requires
                        i % 2 <= 1,
                ;
                assert(((i / 2) % 2) * half <= half) by (nonlinear_arith)
                    requires
                        (i / 2) % 2 <= 1,
                ;
                assert((i / 4) * half <= half) by (nonlinear_arith)
                    requires
                        i / 4 <= 1,
                        i < 8,
                ;
            }
            let cx = x + (i % 2) * half;
            let cy = y + ((i / 2) % 2) * half;
            let cz = z + (i / 4) * half;
            proof {
                assert(i * m_half + m_half <= 8 * m_half) by (nonlinear_arith)
                    requires
                        i < 8,
                ;
                assert((i + 1) * m_half == i * m_half + m_half) by (nonlinear_arith);
            }
            let ghost before = self.nodes@;
            let child_id = self.build_octree_recursive(volume, cx, cy, cz, half);
            proof {
                lemma_built_id(before, *volume, cx as int, cy as int, cz as int, half as nat);
            }
            let child_node_mask = self.nodes[child_id as usize].child_mask;
            if child_node_mask != 0 {
                child_mask = child_mask | (1u8 << (i as u8));
                children.set(i, child_id);
            }
            i += 1;
        }
        let node = SvdagNodeData {
            child_mask,
            children: [children[0], children[1], children[2], children[3], children[4], children[5], children[6], children[7]],
        };
        self.insert_node(node)
    }

    /// No two nodes of a DAG are equal: identical subtrees are stored once.
    pub proof fn lemma_nodes_distinct(self)
        requires
            self.wf(),
        ensures
            distinct_nodes(self.node_seq()),
    {
    }

    pub fn node_count(&self) -> (n: usize)
        ensures
            n == self.node_seq().len(),
    {
        self.nodes.len()
    }
}

} // verus!
