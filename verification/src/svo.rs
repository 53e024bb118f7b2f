//! Sparse voxel octree over a section (16^3) or a column of 1 to 4 stacked
//! sections (16 x H x 16, H padded to a power of two): uniform boxes become
//! leaves, other boxes split in half along every axis longer than 1 (an axis
//! of length 1 is not split and its two child slots share one subtree).

use vstd::prelude::*;
use crate::section_rle::{palette_index, SectionPalette, SECTION_SIZE};

verus! {

/// Sections a column holds at most.
pub const SECTIONS_PER_COLUMN: usize = 4;

/// Depth of a section octree (2^4 = 16).
pub const MAX_DEPTH: u32 = 4;

/// `u32` words per node in the GPU layout: kind tag, 8 child ids, padding.
pub const GPU_NODE_STRIDE: usize = 10;

#[derive(Debug, Clone, Copy, PartialEq, Eq, Structural)]
pub enum NodeKind {
    Empty,
    Uniform(u16),
    Branch,
}

/// An octree node; a branch lists its children by `dx + 2 dy + 4 dz`.
#[derive(Debug, Clone, Copy, PartialEq, Eq)]
pub struct Node {
    pub kind: NodeKind,
    pub children: [u32; 8],
}

#[derive(Debug, Clone)]
pub struct SparseVoxelOctree {
    nodes: Vec<Node>,
    pub root: u32,
    pub bounds: [usize; 3],
    pub node_count: u32,
    pub leaf_count: u32,
    pub max_depth: u32,
}

/// Index of voxel `(x, y, z)` in a column of height `h` (x fastest, then y,
/// then z); for `h == 16` this is the section palette index.
pub open spec fn col_index(x: int, y: int, z: int, h: int) -> int {
    x + y * 16 + z * 16 * h
}

pub open spec fn cell(col: Seq<u16>, h: int, x: int, y: int, z: int) -> u16 {
    col[col_index(x, y, z, h)]
}

/// All voxels of the box hold the block of its first corner.
pub open spec fn box_uniform(col: Seq<u16>, h: int, ox: int, oy: int, oz: int, sx: int, sy: int, sz: int) -> bool {
    forall|x: int, y: int, z: int|
        ox <= x < ox + sx && oy <= y < oy + sy && oz <= z < oz + sz ==> #[trigger] cell(col, h, x, y, z) == cell(
            col,
            h,
            ox,
            oy,
            oz,
        )
}

/// `max(s / 2, 1)`.
pub open spec fn half_side(s: int) -> int {
    if s / 2 > 1 {
        s / 2
    } else {
        1
    }
}

/// Origin and side of the child half `d` along an axis of side `s` at `o`
/// (an axis of side 1 is not split).
pub open spec fn child_axis(o: int, s: int, d: int) -> (int, int) {
    if s > 1 {
        (o + d * half_side(s), half_side(s))
    } else {
        (o, s)
    }
}

/// Slot of the subtree child slot `j` uses: split bits of unsplit axes
/// cleared.
pub open spec fn shared_slot(j: int, sx: int, sy: int, sz: int) -> int {
    (if sx > 1 { j % 2 } else { 0 }) + (if sy > 1 { (j / 2) % 2 } else { 0 }) * 2 + (if sz > 1 { j / 4 } else { 0 }) * 4
}

/// Child slot `j` is built (rather than shared).
pub open spec fn built_slot(j: int, sx: int, sy: int, sz: int) -> bool {
    shared_slot(j, sx, sy, sz) == j
}

pub open spec fn zero8() -> Seq<u32> {
    seq![0u32, 0u32, 0u32, 0u32, 0u32, 0u32, 0u32, 0u32]
}

pub open spec fn leaf_node(b: u16) -> Node {
    Node {
        kind: if b == 0 {
            NodeKind::Empty
        } else {
            NodeKind::Uniform(b)
        },
        children: [0u32, 0u32, 0u32, 0u32, 0u32, 0u32, 0u32, 0u32],
    }
}

/// Nodes, leaf count and root after building the box `(o, s)` of `col`:
/// children first (slots in index order), then the node itself.
pub open spec fn built(
    nodes: Seq<Node>,
    leaves: nat,
    col: Seq<u16>,
    h: int,
    ox: int,
    oy: int,
    oz: int,
    sx: int,
    sy: int,
    sz: int,
) -> (Seq<Node>, nat, int)
    decreases (if sx > 0 { sx } else { 0 }) + (if sy > 0 { sy } else { 0 }) + (if sz > 0 { sz } else { 0 }), 9int,
{
    if sx <= 0 || sy <= 0 || sz <= 0 {
        (nodes.push(leaf_node(0)), leaves, nodes.len() as int)
    } else if box_uniform(col, h, ox, oy, oz, sx, sy, sz) {
        let b = cell(col, h, ox, oy, oz);
        (nodes.push(leaf_node(b)), if b != 0 { leaves + 1 } else { leaves }, nodes.len() as int)
    } else {
        let (n2, l2, made) = built_children(nodes, leaves, col, h, ox, oy, oz, sx, sy, sz, 8);
        let c = Seq::new(8, |j: int| made[shared_slot(j, sx, sy, sz)]);
        (
            n2.push(Node { kind: NodeKind::Branch, children: [c[0], c[1], c[2], c[3], c[4], c[5], c[6], c[7]] }),
            l2,
            n2.len() as int,
        )
    }
}

/// Builds the children in slots `0..j` (built slots only).
pub open spec fn built_children(
    nodes: Seq<Node>,
    leaves: nat,
    col: Seq<u16>,
    h: int,
    ox: int,
    oy: int,
    oz: int,
    sx: int,
    sy: int,
    sz: int,
    j: int,
) -> (Seq<Node>, nat, Seq<u32>)
    decreases (if sx > 0 { sx } else { 0 }) + (if sy > 0 { sy } else { 0 }) + (if sz > 0 { sz } else { 0 }), j,
{
    if j <= 0 || sx <= 0 || sy <= 0 || sz <= 0 || (sx <= 1 && sy <= 1 && sz <= 1) {
        (nodes, leaves, zero8())
    } else {
        let (n1, l1, r1) = built_children(nodes, leaves, col, h, ox, oy, oz, sx, sy, sz, j - 1);
        let t = j - 1;
        if !built_slot(t, sx, sy, sz) {
            (n1, l1, r1)
        } else {
            let (cx, csx) = child_axis(ox, sx, t % 2);
            let (cy, csy) = child_axis(oy, sy, (t / 2) % 2);
            let (cz, csz) = child_axis(oz, sz, t / 4);
            let (n2, l2, id) = built(n1, l1, col, h, cx, cy, cz, csx, csy, csz);
            (n2, l2, r1.update(t, id as u32))
        }
    }
}

/// Sides a box can have: powers of two up to 64.
pub open spec fn pow2_side(s: int) -> bool {
    s == 1 || s == 2 || s == 4 || s == 8 || s == 16 || s == 32 || s == 64
}

/// Most nodes a build of a box with these sides adds.
pub open spec fn max_nodes(sx: int, sy: int, sz: int) -> nat
    decreases (if sx > 0 { sx } else { 0 }) + (if sy > 0 { sy } else { 0 }) + (if sz > 0 { sz } else { 0 }),
{
    if sx <= 0 || sy <= 0 || sz <= 0 || (sx <= 1 && sy <= 1 && sz <= 1) {
        1
    } else {
        1 + 8 * max_nodes(
            if sx > 1 { half_side(sx) } else { sx },
            if sy > 1 { half_side(sy) } else { sy },
            if sz > 1 { half_side(sz) } else { sz },
        )
    }
}

/// A box of a column of height `h` (16 x h x 16) with power-of-two sides.
pub open spec fn valid_box(h: int, ox: int, oy: int, oz: int, sx: int, sy: int, sz: int) -> bool {
    &&& pow2_side(sx) && pow2_side(sy) && pow2_side(sz)
    &&& 0 <= ox && ox + sx <= 16
    &&& 0 <= oy && oy + sy <= h
    &&& 0 <= oz && oz + sz <= 16
}

/// Half (0 or 1) of an axis of side `s` at `o` that holds coordinate `p`;
/// an axis that is not split always reads half 0.
pub open spec fn pick_half(p: int, o: int, s: int) -> int {
    if s > 1 && p >= o + half_side(s) {
        1
    } else {
        0
    }
}

/// Block the subtree at `id`, read as the box `(o, s)`, holds at `(x, y, z)`
/// (0 for air): a leaf answers for its whole box, a branch hands the point to
/// the child of the halves it falls in.
pub open spec fn lookup(
    nodes: Seq<Node>,
    id: int,
    ox: int,
    oy: int,
    oz: int,
    sx: int,
    sy: int,
    sz: int,
    x: int,
    y: int,
    z: int,
) -> u16
    decreases (if sx > 0 { sx } else { 0 }) + (if sy > 0 { sy } else { 0 }) + (if sz > 0 { sz } else { 0 }),
{
    if !(0 <= id < nodes.len()) || sx <= 0 || sy <= 0 || sz <= 0 {
        0
    } else {
        match nodes[id].kind {
            NodeKind::Empty => 0,
            NodeKind::Uniform(b) => b,
            NodeKind::Branch => {
                if sx <= 1 && sy <= 1 && sz <= 1 {
                    0
                } else {
                    let dx = pick_half(x, ox, sx);
                    let dy = pick_half(y, oy, sy);
                    let dz = pick_half(z, oz, sz);
                    let (cx, csx) = child_axis(ox, sx, dx);
                    let (cy, csy) = child_axis(oy, sy, dy);
                    let (cz, csz) = child_axis(oz, sz, dz);
                    lookup(nodes, nodes[id].children[dx + 2 * dy + 4 * dz] as int, cx, cy, cz, csx, csy, csz, x, y, z)
                }
            },
        }
    }
}

/// Node `i` links only to nodes built before it.
pub open spec fn links_below(nodes: Seq<Node>, i: int) -> bool {
    nodes[i].kind is Branch ==> forall|k: int| 0 <= k < 8 ==> (#[trigger] nodes[i].children[k] as int) < i
}

/// Every node links only to earlier nodes (children are built first).
pub open spec fn all_links_below(nodes: Seq<Node>) -> bool {
    forall|i: int| 0 <= i < nodes.len() ==> #[trigger] links_below(nodes, i)
}

pub open spec fn is_prefix(n1: Seq<Node>, n2: Seq<Node>) -> bool {
    &&& n1.len() <= n2.len()
    &&& forall|i: int| 0 <= i < n1.len() ==> n2[i] == n1[i]
}

/// Reading a subtree does not change when nodes are appended.
proof fn lemma_lookup_stable(
    n1: Seq<Node>,
    n2: Seq<Node>,
    id: int,
    ox: int,
    oy: int,
    oz: int,
    sx: int,
    sy: int,
    sz: int,
    x: int,
    y: int,
    z: int,
)
    requires
        is_prefix(n1, n2),
        all_links_below(n1),
        0 <= id < n1.len(),
    ensures
        lookup(n2, id, ox, oy, oz, sx, sy, sz, x, y, z) == lookup(n1, id, ox, oy, oz, sx, sy, sz, x, y, z),
    decreases (if sx > 0 { sx } else { 0 }) + (if sy > 0 { sy } else { 0 }) + (if sz > 0 { sz } else { 0 }),
{
    assert(n2[id] == n1[id]);
    if sx > 0 && sy > 0 && sz > 0 && n1[id].kind is Branch && !(sx <= 1 && sy <= 1 && sz <= 1) {
        let dx = pick_half(x, ox, sx);
        let dy = pick_half(y, oy, sy);
        let dz = pick_half(z, oz, sz);
        let (cx, csx) = child_axis(ox, sx, dx);
        let (cy, csy) = child_axis(oy, sy, dy);
        let (cz, csz) = child_axis(oz, sz, dz);
        let k = dx + 2 * dy + 4 * dz;
        assert(links_below(n1, id));
        assert((n1[id].children[k] as int) < id);
        lemma_lookup_stable(n1, n2, n1[id].children[k] as int, cx, cy, cz, csx, csy, csz, x, y, z);
    }
}

/// Descents that may go at least this deep reach a leaf: `ceil_log2` of the
/// longest side.
pub open spec fn levels(sx: int, sy: int, sz: int) -> nat {
    ceil_log2(if sx >= sy && sx >= sz { sx } else if sy >= sz { sy } else { sz })
}

/// What a leaf descent reports for a voxel holding block `b`.
pub open spec fn occupancy(b: u16) -> Option<u32> {
    if b == 0 {
        None
    } else {
        Some(8u32)
    }
}

/// The subtree `id`, read as the box `(o, s)`, gives back every voxel of the
/// box: `lookup` returns its block, and a descent with enough depth left
/// reports it as full or air.
pub open spec fn box_reads(
    nodes: Seq<Node>,
    id: int,
    col: Seq<u16>,
    h: int,
    ox: int,
    oy: int,
    oz: int,
    sx: int,
    sy: int,
    sz: int,
) -> bool {
    &&& forall|x: int, y: int, z: int|
        ox <= x < ox + sx && oy <= y < oy + sy && oz <= z < oz + sz ==> #[trigger] lookup(
            nodes,
            id,
            ox,
            oy,
            oz,
            sx,
            sy,
            sz,
            x,
            y,
            z,
        ) == cell(col, h, x, y, z)
    &&& forall|x: int, y: int, z: int, d: int, b: int|
        ox <= x < ox + sx && oy <= y < oy + sy && oz <= z < oz + sz && b - d >= levels(sx, sy, sz)
            ==> #[trigger] sampled(nodes, id, ox, oy, oz, sx, sy, sz, x, y, z, d, b) == occupancy(
            cell(col, h, x, y, z),
        )
}

/// The child box of slot `t` reads back through subtree `id`.
pub open spec fn child_reads(
    nodes: Seq<Node>,
    id: int,
    col: Seq<u16>,
    h: int,
    ox: int,
    oy: int,
    oz: int,
    sx: int,
    sy: int,
    sz: int,
    t: int,
) -> bool {
    let (cx, csx) = child_axis(ox, sx, t % 2);
    let (cy, csy) = child_axis(oy, sy, (t / 2) % 2);
    let (cz, csz) = child_axis(oz, sz, t / 4);
    box_reads(nodes, id, col, h, cx, cy, cz, csx, csy, csz)
}

/// Counting solid children does not change when nodes are appended.
proof fn lemma_solid_children_stable(n1: Seq<Node>, n2: Seq<Node>, id: int, k: int)
    requires
        is_prefix(n1, n2),
        all_links_below(n1),
        0 <= id < n1.len(),
        n1[id].kind is Branch,
        k <= 8,
    ensures
        solid_children(n2, n1[id], k) == solid_children(n1, n1[id], k),
    decreases k,
{
    if k > 0 {
        lemma_solid_children_stable(n1, n2, id, k - 1);
        assert(links_below(n1, id));
        assert((n1[id].children[k - 1] as int) < id);
    }
}

/// A descent does not change when nodes are appended.
proof fn lemma_sampled_stable(
    n1: Seq<Node>,
    n2: Seq<Node>,
    id: int,
    ox: int,
    oy: int,
    oz: int,
    sx: int,
    sy: int,
    sz: int,
    x: int,
    y: int,
    z: int,
    d: int,
    b: int,
)
    requires
        is_prefix(n1, n2),
        all_links_below(n1),
        0 <= id < n1.len(),
    ensures
        sampled(n2, id, ox, oy, oz, sx, sy, sz, x, y, z, d, b) == sampled(n1, id, ox, oy, oz, sx, sy, sz, x, y, z, d, b),
    decreases b - d,
{
    assert(n2[id] == n1[id]);
    if n1[id].kind is Branch {
        if d >= b {
            lemma_solid_children_stable(n1, n2, id, 8);
        } else {
            let dx = pick_half(x, ox, sx);
            let dy = pick_half(y, oy, sy);
            let dz = pick_half(z, oz, sz);
            let (cx, csx) = child_axis(ox, sx, dx);
            let (cy, csy) = child_axis(oy, sy, dy);
            let (cz, csz) = child_axis(oz, sz, dz);
            let k = dx + 2 * dy + 4 * dz;
            assert(links_below(n1, id));
            assert((n1[id].children[k] as int) < id);
            lemma_sampled_stable(n1, n2, n1[id].children[k] as int, cx, cy, cz, csx, csy, csz, x, y, z, d + 1, b);
        }
    }
}

/// `ceil_log2` of the powers of two up to 64.
proof fn lemma_ceil_log2_pow2()
    ensures
        ceil_log2(1) == 0,
        ceil_log2(2) == 1,
        ceil_log2(4) == 2,
        ceil_log2(8) == 3,
        ceil_log2(16) == 4,
        ceil_log2(32) == 5,
        ceil_log2(64) == 6,
{
    assert(ceil_log2(1) == 0);
    assert(ceil_log2(2) == 1);
    assert(ceil_log2(4) == 2);
    assert(ceil_log2(8) == 3);
    assert(ceil_log2(16) == 4);
    assert(ceil_log2(32) == 5);
    assert(ceil_log2(64) == 6);
}

/// Splitting a box that is not a single voxel takes one level off.
proof fn lemma_levels_split(sx: int, sy: int, sz: int)
    requires
        pow2_side(sx) && pow2_side(sy) && pow2_side(sz),
        sx > 1 || sy > 1 || sz > 1,
    ensures
        levels(sx, sy, sz) >= 1,
        levels(
            if sx > 1 { half_side(sx) } else { sx },
            if sy > 1 { half_side(sy) } else { sy },
            if sz > 1 { half_side(sz) } else { sz },
        ) + 1 == levels(sx, sy, sz),
{
    lemma_ceil_log2_pow2();
}

/// Slot arithmetic: the slot a point falls in is a built slot, its halves
/// are the slot's bits, and a shared slot points at a built one.
proof fn lemma_slots(k: int, dx: int, dy: int, dz: int, sx: int, sy: int, sz: int)
    requires
        dx == 0 || dx == 1,
        dy == 0 || dy == 1,
        dz == 0 || dz == 1,
        sx <= 1 ==> dx == 0,
        sy <= 1 ==> dy == 0,
        sz <= 1 ==> dz == 0,
        k == dx + 2 * dy + 4 * dz,
    ensures
        0 <= k < 8,
        built_slot(k, sx, sy, sz),
        k % 2 == dx,
        (k / 2) % 2 == dy,
        k / 4 == dz,
        forall|q: int|
            0 <= q < 8 ==> 0 <= #[trigger] shared_slot(q, sx, sy, sz) < 8 && built_slot(shared_slot(q, sx, sy, sz), sx, sy, sz),
{
    assert forall|q: int| 0 <= q < 8 implies 0 <= #[trigger] shared_slot(q, sx, sy, sz) < 8 && built_slot(
        shared_slot(q, sx, sy, sz),
        sx,
        sy,
        sz,
    ) by {
        assert(q == 0 || q == 1 || q == 2 || q == 3 || q == 4 || q == 5 || q == 6 || q == 7);
    }
}

/// Building a box appends its subtree, whose root is the last node, links
/// only backwards, and reads back every voxel of the box.
#[verifier::spinoff_prover]
#[verifier::rlimit(60)]
proof fn lemma_built_reads(
    nodes: Seq<Node>,
    leaves: nat,
    col: Seq<u16>,
    h: int,
    ox: int,
    oy: int,
    oz: int,
    sx: int,
    sy: int,
    sz: int,
)
    requires
        valid_box(h, ox, oy, oz, sx, sy, sz),
        all_links_below(nodes),
        nodes.len() + max_nodes(sx, sy, sz) <= u32::MAX,
    ensures
        ({
            let (n2, l2, id) = built(nodes, leaves, col, h, ox, oy, oz, sx, sy, sz);
            &&& is_prefix(nodes, n2)
            &&& all_links_below(n2)
            &&& n2.len() <= nodes.len() + max_nodes(sx, sy, sz)
            &&& nodes.len() <= id && id + 1 == n2.len()
            &&& box_reads(n2, id, col, h, ox, oy, oz, sx, sy, sz)
        }),
    decreases sx + sy + sz, 9int,
{
    if box_uniform(col, h, ox, oy, oz, sx, sy, sz) {
        let b = cell(col, h, ox, oy, oz);
        let n2 = nodes.push(leaf_node(b));
        assert(links_below(n2, nodes.len() as int));
        assert forall|i: int| 0 <= i < n2.len() implies #[trigger] links_below(n2, i) by {
            if i < nodes.len() {
                assert(links_below(nodes, i));
            }
        }
    } else {
        assert(sx > 1 || sy > 1 || sz > 1);
        let (n2, l2, made) = built_children(nodes, leaves, col, h, ox, oy, oz, sx, sy, sz, 8);
        lemma_built_children_read(nodes, leaves, col, h, ox, oy, oz, sx, sy, sz, 8);
        lemma_slots(0, 0, 0, 0, sx, sy, sz);
        let c = Seq::new(8, |j: int| made[shared_slot(j, sx, sy, sz)]);
        let node = Node { kind: NodeKind::Branch, children: [c[0], c[1], c[2], c[3], c[4], c[5], c[6], c[7]] };
        let n3 = n2.push(node);
        let id = n2.len() as int;
        assert(node.children@ == c);
        assert forall|k: int| 0 <= k < 8 implies (#[trigger] n3[id].children[k] as int) < id by {
            let s = shared_slot(k, sx, sy, sz);
            assert(node.children[k] == made[s]);
        }
        assert(links_below(n3, id));
        assert forall|i: int| 0 <= i < n3.len() implies #[trigger] links_below(n3, i) by {
            if i < n2.len() {
                assert(links_below(n2, i));
                assert(n3[i] == n2[i]);
            }
        }
        assert forall|x: int, y: int, z: int|
            ox <= x < ox + sx && oy <= y < oy + sy && oz <= z < oz + sz implies #[trigger] lookup(
                n3,
                id,
                ox,
                oy,
                oz,
                sx,
                sy,
                sz,
                x,
                y,
                z,
            ) == cell(col, h, x, y, z) by {
            let dx = pick_half(x, ox, sx);
            let dy = pick_half(y, oy, sy);
            let dz = pick_half(z, oz, sz);
            let k = dx + 2 * dy + 4 * dz;
            lemma_slots(k, dx, dy, dz, sx, sy, sz);
            assert(node.children[k] == made[k]);
            let (cx, csx) = child_axis(ox, sx, dx);
            let (cy, csy) = child_axis(oy, sy, dy);
            let (cz, csz) = child_axis(oz, sz, dz);
            assert(child_reads(n2, made[k] as int, col, h, ox, oy, oz, sx, sy, sz, k));
            assert(cx <= x < cx + csx && cy <= y < cy + csy && cz <= z < cz + csz);
            assert(lookup(n2, made[k] as int, cx, cy, cz, csx, csy, csz, x, y, z) == cell(col, h, x, y, z));
            lemma_lookup_stable(n2, n3, made[k] as int, cx, cy, cz, csx, csy, csz, x, y, z);
        }
        lemma_levels_split(sx, sy, sz);
        assert forall|x: int, y: int, z: int, d: int, bnd: int|
            ox <= x < ox + sx && oy <= y < oy + sy && oz <= z < oz + sz && bnd - d >= levels(sx, sy, sz)
                implies #[trigger] sampled(n3, id, ox, oy, oz, sx, sy, sz, x, y, z, d, bnd) == occupancy(
                cell(col, h, x, y, z),
            ) by {
            let dx = pick_half(x, ox, sx);
            let dy = pick_half(y, oy, sy);
            let dz = pick_half(z, oz, sz);
            let k = dx + 2 * dy + 4 * dz;
            lemma_slots(k, dx, dy, dz, sx, sy, sz);
            assert(node.children[k] == made[k]);
            let (cx, csx) = child_axis(ox, sx, dx);
            let (cy, csy) = child_axis(oy, sy, dy);
            let (cz, csz) = child_axis(oz, sz, dz);
            assert(child_reads(n2, made[k] as int, col, h, ox, oy, oz, sx, sy, sz, k));
            assert(cx <= x < cx + csx && cy <= y < cy + csy && cz <= z < cz + csz);
            assert(bnd - (d + 1) >= levels(csx, csy, csz));
            assert(sampled(n2, made[k] as int, cx, cy, cz, csx, csy, csz, x, y, z, d + 1, bnd) == occupancy(cell(col, h, x, y, z)));
            lemma_sampled_stable(n2, n3, made[k] as int, cx, cy, cz, csx, csy, csz, x, y, z, d + 1, bnd);
        }
    }
}

/// A subtree that reads back its box still does after nodes are appended.
proof fn lemma_box_reads_stable(
    n1: Seq<Node>,
    n2: Seq<Node>,
    id: int,
    col: Seq<u16>,
    h: int,
    ox: int,
    oy: int,
    oz: int,
    sx: int,
    sy: int,
    sz: int,
)
    requires
        is_prefix(n1, n2),
        all_links_below(n1),
        0 <= id < n1.len(),
        box_reads(n1, id, col, h, ox, oy, oz, sx, sy, sz),
    ensures
        box_reads(n2, id, col, h, ox, oy, oz, sx, sy, sz),
{
    assert forall|x: int, y: int, z: int|
        ox <= x < ox + sx && oy <= y < oy + sy && oz <= z < oz + sz implies #[trigger] lookup(
            n2,
            id,
            ox,
            oy,
            oz,
            sx,
            sy,
            sz,
            x,
            y,
            z,
        ) == cell(col, h, x, y, z) by {
        lemma_lookup_stable(n1, n2, id, ox, oy, oz, sx, sy, sz, x, y, z);
    }
    assert forall|x: int, y: int, z: int, d: int, b: int|
        ox <= x < ox + sx && oy <= y < oy + sy && oz <= z < oz + sz && b - d >= levels(sx, sy, sz)
            implies #[trigger] sampled(n2, id, ox, oy, oz, sx, sy, sz, x, y, z, d, b) == occupancy(
            cell(col, h, x, y, z),
        ) by {
        lemma_sampled_stable(n1, n2, id, ox, oy, oz, sx, sy, sz, x, y, z, d, b);
    }
}

/// Building the children in slots `0..j` appends their subtrees; each built
/// slot's subtree reads back its child box.
#[verifier::spinoff_prover]
#[verifier::rlimit(40)]
proof fn lemma_built_children_read(
    nodes: Seq<Node>,
    leaves: nat,
    col: Seq<u16>,
    h: int,
    ox: int,
    oy: int,
    oz: int,
    sx: int,
    sy: int,
    sz: int,
    j: int,
)
    requires
        valid_box(h, ox, oy, oz, sx, sy, sz),
        sx > 1 || sy > 1 || sz > 1,
        0 <= j <= 8,
        all_links_below(nodes),
        nodes.len() + max_nodes(sx, sy, sz) <= u32::MAX,
    ensures
        ({
            let (n, l, made) = built_children(nodes, leaves, col, h, ox, oy, oz, sx, sy, sz, j);
            let m = max_nodes(
                if sx > 1 { half_side(sx) } else { sx },
                if sy > 1 { half_side(sy) } else { sy },
                if sz > 1 { half_side(sz) } else { sz },
            );
            &&& is_prefix(nodes, n)
            &&& all_links_below(n)
            &&& n.len() <= nodes.len() + j * m
            &&& made.len() == 8
            &&& forall|t: int|
                0 <= t < j && built_slot(t, sx, sy, sz) ==> (#[trigger] made[t] as int) < n.len() && child_reads(
                    n,
                    made[t] as int,
                    col,
                    h,
                    ox,
                    oy,
                    oz,
                    sx,
                    sy,
                    sz,
                    t,
                )
        }),
    decreases sx + sy + sz, j,
{
    let m = max_nodes(
        if sx > 1 { half_side(sx) } else { sx },
        if sy > 1 { half_side(sy) } else { sy },
        if sz > 1 { half_side(sz) } else { sz },
    );
    assert(max_nodes(sx, sy, sz) == 1 + 8 * m);
    if j > 0 {
        let (n1, l1, r1) = built_children(nodes, leaves, col, h, ox, oy, oz, sx, sy, sz, j - 1);
        lemma_built_children_read(nodes, leaves, col, h, ox, oy, oz, sx, sy, sz, j - 1);
        let t = j - 1;
        assert(t * m + m <= 8 * m && (t + 1) * m == t * m + m) by (nonlinear_arith)
            requires
                0 <= t < 8,
                m >= 0,
        ;
        if !built_slot(t, sx, sy, sz) {
            assert(built_children(nodes, leaves, col, h, ox, oy, oz, sx, sy, sz, j) == (n1, l1, r1));
        } else {
            lemma_child_box(h, ox, oy, oz, sx, sy, sz, t);
            let (cx, csx) = child_axis(ox, sx, t % 2);
            let (cy, csy) = child_axis(oy, sy, (t / 2) % 2);
            let (cz, csz) = child_axis(oz, sz, t / 4);
            lemma_built_reads(n1, l1, col, h, cx, cy, cz, csx, csy, csz);
            let (n2, l2, id) = built(n1, l1, col, h, cx, cy, cz, csx, csy, csz);
            let made = r1.update(t, id as u32);
            assert(built_children(nodes, leaves, col, h, ox, oy, oz, sx, sy, sz, j) == (n2, l2, made));
            assert(is_prefix(nodes, n2));
            assert(n2.len() <= nodes.len() + j * m);
            assert((id as u32) as int == id);
            assert(child_reads(n2, id, col, h, ox, oy, oz, sx, sy, sz, t));
            assert forall|q: int| 0 <= q < j && built_slot(q, sx, sy, sz) implies (#[trigger] made[q] as int) < n2.len()
                && child_reads(n2, made[q] as int, col, h, ox, oy, oz, sx, sy, sz, q) by {
                if q < t {
                    assert(child_reads(n1, r1[q] as int, col, h, ox, oy, oz, sx, sy, sz, q));
                    let (qx, qsx) = child_axis(ox, sx, q % 2);
                    let (qy, qsy) = child_axis(oy, sy, (q / 2) % 2);
                    let (qz, qsz) = child_axis(oz, sz, q / 4);
                    lemma_box_reads_stable(n1, n2, r1[q] as int, col, h, qx, qy, qz, qsx, qsy, qsz);
                }
            }
        }
    }
}

/// Padded height of a column of `n` sections: `16 n` rounded up to a power
/// of two.
pub open spec fn column_height(n: int) -> int {
    if n <= 1 {
        16
    } else if n == 2 {
        32
    } else {
        64
    }
}

/// Smallest `l` with `2^l >= v`.
pub open spec fn ceil_log2(v: int) -> nat
    decreases v,
{
    if v <= 1 {
        0
    } else {
        1 + ceil_log2((v + 1) / 2)
    }
}

/// Block at `(x, y, z)` of sections stacked bottom up; air above them.
pub open spec fn column_voxel(sections: Seq<SectionPalette>, x: int, y: int, z: int) -> u16 {
    if 0 <= y < 16 * sections.len() {
        sections[y / 16][palette_index(x, y % 16, z)]
    } else {
        0
    }
}

/// The stacked sections as a flat column of height `h` (x fastest, then y,
/// then z).
pub open spec fn stacked(sections: Seq<SectionPalette>, h: int) -> Seq<u16> {
    Seq::new((16 * h * 16) as nat, |i: int| column_voxel(sections, i % 16, (i / 16) % h, i / (16 * h)))
}

/// Word `w` (0 to 9) of a node in the upload layout.
pub open spec fn node_word(n: Node, w: int) -> u32 {
    if w == 0 {
        match n.kind {
            NodeKind::Empty => 0,
            NodeKind::Branch => 1,
            NodeKind::Uniform(b) => (2 + b) as u32,
        }
    } else if 1 <= w <= 8 {
        n.children[w - 1]
    } else {
        0
    }
}

/// Flat index and coordinates agree.
proof fn lemma_stacked_index(sections: Seq<SectionPalette>, h: int, x: int, y: int, z: int)
    requires
        h == 16 || h == 32 || h == 64,
        0 <= x < 16,
        0 <= y < h,
        0 <= z < 16,
    ensures
        0 <= col_index(x, y, z, h) < 16 * h * 16,
        stacked(sections, h)[col_index(x, y, z, h)] == column_voxel(sections, x, y, z),
{
    lemma_index_in_range(h, x, y, z);
    let i = col_index(x, y, z, h);
    let yz = y + h * z;
    assert(i == yz * 16 + x) by (nonlinear_arith)
        requires
            i == x + y * 16 + z * 16 * h,
            yz == y + h * z,
    ;
    vstd::arithmetic::div_mod::lemma_fundamental_div_mod_converse(i, 16, yz, x);
    assert(yz == z * h + y) by (nonlinear_arith)
        requires
            yz == y + h * z,
    ;
    vstd::arithmetic::div_mod::lemma_fundamental_div_mod_converse(yz, h, z, y);
    assert(i == z * (16 * h) + (x + 16 * y) && 0 <= x + 16 * y < 16 * h) by (nonlinear_arith)
        requires
            i == x + y * 16 + z * 16 * h,
            0 <= x < 16,
            0 <= y < h,
    ;
    vstd::arithmetic::div_mod::lemma_fundamental_div_mod_converse(i, 16 * h, z, x + 16 * y);
}

/// Node counts the three column shapes can reach.
proof fn lemma_column_node_bounds()
    ensures
        max_nodes(16, 16, 16) == 4681,
        max_nodes(16, 32, 16) == 37449,
        max_nodes(16, 64, 16) == 299593,
{
    assert(max_nodes(1, 1, 1) == 1);
    assert(max_nodes(1, 2, 1) == 9);
    assert(max_nodes(1, 4, 1) == 73);
    assert(max_nodes(2, 2, 2) == 9);
    assert(max_nodes(2, 4, 2) == 73);
    assert(max_nodes(2, 8, 2) == 585);
    assert(max_nodes(4, 4, 4) == 73);
    assert(max_nodes(4, 8, 4) == 585);
    assert(max_nodes(4, 16, 4) == 4681);
    assert(max_nodes(8, 8, 8) == 585);
    assert(max_nodes(8, 16, 8) == 4681);
    assert(max_nodes(8, 32, 8) == 37449);
    assert(max_nodes(16, 16, 16) == 4681);
    assert(max_nodes(16, 32, 16) == 37449);
    assert(max_nodes(16, 64, 16) == 299593);
}

/// `ceil_log2(v) <= k` where `v <= 2^k`.
proof fn lemma_ceil_log2_le(v: int, k: nat)
    requires
        1 <= v <= vstd::arithmetic::power2::pow2(k),
    ensures
        ceil_log2(v) <= k,
    decreases k,
{
    if v > 1 {
        if k == 0 {
            vstd::arithmetic::power2::lemma2_to64();
        } else {
            vstd::arithmetic::power2::lemma_pow2_unfold(k);
            lemma_ceil_log2_le((v + 1) / 2, (k - 1) as nat);
        }
    }
}

/// `ceil_log2` by halving, rounding up.
fn ceil_log2_usize(v: usize) -> (l: u32)
    ensures
        l == ceil_log2(v as int),
{
    proof {
        if v >= 1 {
            vstd::arithmetic::power2::lemma2_to64();
            lemma_ceil_log2_le(v as int, 64);
        }
    }
    let mut w = v;
    let mut l: u32 = 0;
    while w > 1
        invariant
            w <= v,
            l + ceil_log2(w as int) == ceil_log2(v as int),
            ceil_log2(v as int) <= 64,
        decreases w,
    {
        assert(w / 2 + w % 2 == (w + 1) / 2);
        w = w / 2 + w % 2;
        l += 1;
    }
    l
}

/// Children among the first `k` slots of `n` that are not empty nodes.
pub open spec fn solid_children(nodes: Seq<Node>, n: Node, k: int) -> nat
    decreases k,
{
    if k <= 0 {
        0
    } else {
        solid_children(nodes, n, k - 1) + if nodes[n.children[k - 1] as int].kind is Empty {
            0nat
        } else {
            1nat
        }
    }
}

/// Occupancy, in eighths, that a descent from node `id` (box `(o, s)`, at
/// `depth`) reports for voxel `(x, y, z)` when it may go down to depth
/// `budget`: a uniform node is full (8), an empty node is air (`None`), and
/// a branch reached at the budget reports how many of its 8 children are not
/// empty (`None` when none is).
pub open spec fn sampled(
    nodes: Seq<Node>,
    id: int,
    ox: int,
    oy: int,
    oz: int,
    sx: int,
    sy: int,
    sz: int,
    x: int,
    y: int,
    z: int,
    depth: int,
    budget: int,
) -> Option<u32>
    decreases budget - depth,
{
    if !(0 <= id < nodes.len()) {
        None
    } else {
        match nodes[id].kind {
            NodeKind::Empty => None,
            NodeKind::Uniform(_) => Some(8),
            NodeKind::Branch => {
                if depth >= budget {
                    let solid = solid_children(nodes, nodes[id], 8);
                    if solid > 0 {
                        Some(solid as u32)
                    } else {
                        None
                    }
                } else {
                    let dx = pick_half(x, ox, sx);
                    let dy = pick_half(y, oy, sy);
                    let dz = pick_half(z, oz, sz);
                    let (cx, csx) = child_axis(ox, sx, dx);
                    let (cy, csy) = child_axis(oy, sy, dy);
                    let (cz, csz) = child_axis(oz, sz, dz);
                    sampled(
                        nodes,
                        nodes[id].children[dx + 2 * dy + 4 * dz] as int,
                        cx,
                        cy,
                        cz,
                        csx,
                        csy,
                        csz,
                        x,
                        y,
                        z,
                        depth + 1,
                        budget,
                    )
                }
            },
        }
    }
}

/// `a * h` for a bit `a`.
proof fn lemma_bit_times(a: int, h: int)
    requires
        a == 0 || a == 1,
    ensures
        a * h == if a == 1 { h } else { 0 },
{
}

/// Whether the box of the column is uniform, and its block when it is.
fn region_uniform_column(column: &[u16], h: usize, ox: usize, oy: usize, oz: usize, sx: usize, sy: usize, sz: usize) -> (r: (bool, u16))
    requires
        valid_box(h as int, ox as int, oy as int, oz as int, sx as int, sy as int, sz as int),
        column@.len() == 16 * h * 16,
        h <= 64,
    ensures
        r.0 == box_uniform(column@, h as int, ox as int, oy as int, oz as int, sx as int, sy as int, sz as int),
        r.0 ==> r.1 == cell(column@, h as int, ox as int, oy as int, oz as int),
{
    proof {
        lemma_index_in_range(h as int, ox as int, oy as int, oz as int);
    }
    let first = column[ox + oy * 16 + oz * 16 * h];
    let mut z = oz;
    while z < oz + sz
        invariant
            valid_box(h as int, ox as int, oy as int, oz as int, sx as int, sy as int, sz as int),
            column@.len() == 16 * h * 16,
            h <= 64,
            oz <= z <= oz + sz,
            first == cell(column@, h as int, ox as int, oy as int, oz as int),
            forall|x: int, y: int, zz: int|
                ox <= x < ox + sx && oy <= y < oy + sy && oz <= zz < z ==> #[trigger] cell(column@, h as int, x, y, zz) == first,
        decreases oz + sz - z,
    {
        let mut y = oy;
        while y < oy + sy
            invariant
                valid_box(h as int, ox as int, oy as int, oz as int, sx as int, sy as int, sz as int),
                column@.len() == 16 * h * 16,
                h <= 64,
                oz <= z < oz + sz,
                oy <= y <= oy + sy,
                first == cell(column@, h as int, ox as int, oy as int, oz as int),
                forall|x: int, yy: int, zz: int|
                    ox <= x < ox + sx && oy <= yy < oy + sy && oz <= zz < z ==> #[trigger] cell(column@, h as int, x, yy, zz) == first,
                forall|x: int, yy: int| ox <= x < ox + sx && oy <= yy < y ==> #[trigger] cell(column@, h as int, x, yy, z as int) == first,
            decreases oy + sy - y,
        {
            let mut x = ox;
            while x < ox + sx
                invariant
                    valid_box(h as int, ox as int, oy as int, oz as int, sx as int, sy as int, sz as int),
                    column@.len() == 16 * h * 16,
                    h <= 64,
                    oz <= z < oz + sz,
                    oy <= y < oy + sy,
                    ox <= x <= ox + sx,
                    first == cell(column@, h as int, ox as int, oy as int, oz as int),
                    forall|xx: int, yy: int, zz: int|
                        ox <= xx < ox + sx && oy <= yy < oy + sy && oz <= zz < z ==> #[trigger] cell(column@, h as int, xx, yy, zz) == first,
                    forall|xx: int, yy: int| ox <= xx < ox + sx && oy <= yy < y ==> #[trigger] cell(column@, h as int, xx, yy, z as int) == first,
                    forall|xx: int| ox <= xx < x ==> #[trigger] cell(column@, h as int, xx, y as int, z as int) == first,
                decreases ox + sx - x,
            {
                proof {
                    lemma_index_in_range(h as int, x as int, y as int, z as int);
                }
                if column[x + y * 16 + z * 16 * h] != first {
                    assert(cell(column@, h as int, x as int, y as int, z as int) != cell(column@, h as int, ox as int, oy as int, oz as int));
                    return (false, 0);
                }
                x += 1;
            }
            y += 1;
        }
        z += 1;
    }
    (true, first)
}

/// The index of an in-range voxel lies in the column.
proof fn lemma_index_in_range(h: int, x: int, y: int, z: int)
    requires
        0 <= x < 16,
        0 <= y < h,
        0 <= z < 16,
        h <= 64,
    ensures
        0 <= col_index(x, y, z, h) < 16 * h * 16,
        col_index(x, y, z, h) == x + y * 16 + z * 16 * h,
{
    assert(z * 16 * h <= 15 * 16 * h) by (nonlinear_arith)
        requires
            0 <= z <= 15,
            h >= 0,
    ;
    assert(y * 16 <= (h - 1) * 16) by (nonlinear_arith)
        requires
            y <= h - 1,
    ;
    assert(15 * 16 * h + (h - 1) * 16 + 15 == 16 * h * 16 - 1) by (nonlinear_arith);
    assert(0 <= z * 16 * h) by (nonlinear_arith)
        requires
            0 <= z,
            0 <= h,
    ;
}

fn shared_slot_exec(j: usize, sx: usize, sy: usize, sz: usize) -> (r: usize)
    requires
        j < 8,
    ensures
        r == shared_slot(j as int, sx as int, sy as int, sz as int),
        r < 8,
{
    (if sx > 1 { j % 2 } else { 0 }) + (if sy > 1 { (j / 2) % 2 } else { 0 }) * 2 + (if sz > 1 { j / 4 } else { 0 }) * 4
}

fn half_exec(s: usize) -> (r: usize)
    ensures
        r == half_side(s as int),
{
    if s / 2 > 1 {
        s / 2
    } else {
        1
    }
}

proof fn lemma_child_box(h: int, ox: int, oy: int, oz: int, sx: int, sy: int, sz: int, t: int)
    requires
        valid_box(h, ox, oy, oz, sx, sy, sz),
        0 <= t < 8,
        built_slot(t, sx, sy, sz),
    ensures
        ({
            let (cx, csx) = child_axis(ox, sx, t % 2);
            let (cy, csy) = child_axis(oy, sy, (t / 2) % 2);
            let (cz, csz) = child_axis(oz, sz, t / 4);
            &&& valid_box(h, cx, cy, cz, csx, csy, csz)
            &&& csx <= sx && csy <= sy && csz <= sz
            &&& (sx > 1 || sy > 1 || sz > 1) ==> csx + csy + csz < sx + sy + sz
            &&& max_nodes(csx, csy, csz) == max_nodes(
                if sx > 1 { half_side(sx) } else { sx },
                if sy > 1 { half_side(sy) } else { sy },
                if sz > 1 { half_side(sz) } else { sz },
            )
        }),
{
    let dx = t % 2;
    let dy = (t / 2) % 2;
    let dz = t / 4;
    assert((dx == 0 || dx == 1) && (dy == 0 || dy == 1) && (dz == 0 || dz == 1) && t == dx + 2 * dy + 4 * dz);
    assert(sx <= 1 ==> dx == 0);
    assert(sy <= 1 ==> dy == 0);
    assert(sz <= 1 ==> dz == 0);
    lemma_child_axis(ox, sx, dx, 16);
    lemma_child_axis(oy, sy, dy, h);
    lemma_child_axis(oz, sz, dz, 16);
}

/// One axis of a child box stays inside its parent and keeps a power-of-two
/// side, strictly smaller where the axis is split.
proof fn lemma_child_axis(o: int, s: int, d: int, bound: int)
    requires
        pow2_side(s),
        0 <= o,
        o + s <= bound,
        d == 0 || d == 1,
        s <= 1 ==> d == 0,
    ensures
        pow2_side(child_axis(o, s, d).1),
        0 <= child_axis(o, s, d).0,
        child_axis(o, s, d).0 + child_axis(o, s, d).1 <= bound,
        child_axis(o, s, d).1 <= s,
        s > 1 ==> child_axis(o, s, d).1 < s,
{
}

/// The whole state of an octree: its nodes by id and its public fields.
pub struct SvoModel {
    pub nodes: Seq<Node>,
    pub root: u32,
    pub bounds: [usize; 3],
    pub node_count: u32,
    pub leaf_count: u32,
    pub max_depth: u32,
}

impl View for SparseVoxelOctree {
    type V = SvoModel;

    closed spec fn view(&self) -> SvoModel {
        SvoModel {
            nodes: self.nodes@,
            root: self.root,
            bounds: self.bounds,
            node_count: self.node_count,
            leaf_count: self.leaf_count,
            max_depth: self.max_depth,
        }
    }
}

impl SparseVoxelOctree {

    /// An empty tree sized for a full column (16 x 16 x 64 bounds), depth 4.
    pub fn empty() -> (t: Self)
        ensures
            t@.nodes == Seq::<Node>::empty(),
            t@.root == 0,
            t@.bounds == [16usize, 16usize, 64usize],
            t@.node_count == 0,
            t@.leaf_count == 0,
            t@.max_depth == MAX_DEPTH,
            t.linked(),
    {
        SparseVoxelOctree {
            nodes: Vec::new(),
            root: 0,
            bounds: [SECTION_SIZE, SECTION_SIZE, SECTION_SIZE * SECTIONS_PER_COLUMN],
            node_count: 0,
            leaf_count: 0,
            max_depth: MAX_DEPTH,
        }
    }

    /// The tree of one 16^3 section: bounds 16^3, depth 4, and every voxel
    /// reads back as the palette holds it.
    pub fn from_section(palette: &SectionPalette) -> (t: Self)
        ensures
            (t@.nodes, t@.leaf_count as nat, t@.root as int) == built(
                Seq::<Node>::empty(),
                0,
                palette@,
                16,
                0,
                0,
                0,
                16,
                16,
                16,
            ),
            t@.bounds == [16usize, 16usize, 16usize],
            t@.max_depth == MAX_DEPTH,
            t@.node_count == t@.nodes.len(),
            forall|x: int, y: int, z: int|
                0 <= x < 16 && 0 <= y < 16 && 0 <= z < 16 ==> #[trigger] lookup(
                    t@.nodes,
                    t@.root as int,
                    0,
                    0,
                    0,
                    16,
                    16,
                    16,
                    x,
                    y,
                    z,
                ) == palette[palette_index(x, y, z)],
            t.linked(),
            forall|x: int, y: int, z: int|
                0 <= x < 16 && 0 <= y < 16 && 0 <= z < 16 ==> #[trigger] sampled(
                    t@.nodes,
                    t@.root as int,
                    0,
                    0,
                    0,
                    16,
                    16,
                    16,
                    x,
                    y,
                    z,
                    0,
                    t@.max_depth as int,
                ) == occupancy(palette[palette_index(x, y, z)]),
    {
        let mut tree = Self::empty();
        tree.bounds = [SECTION_SIZE, SECTION_SIZE, SECTION_SIZE];
        proof {
            lemma_column_node_bounds();
            lemma_ceil_log2_pow2();
            lemma_built_reads(tree.nodes@, 0, palette@, 16, 0, 0, 0, 16, 16, 16);
            assert forall|x: int, y: int, z: int| 0 <= x < 16 && 0 <= y < 16 && 0 <= z < 16 implies cell(
                palette@,
                16,
                x,
                y,
                z,
            ) == palette[palette_index(x, y, z)] by {
                assert(col_index(x, y, z, 16) == palette_index(x, y, z));
            }
        }
        let column = palette.as_slice();
        tree.root = tree.build_node_column(column, SECTION_SIZE, 0, 0, 0, SECTION_SIZE, SECTION_SIZE, SECTION_SIZE);
        tree.node_count = tree.nodes.len() as u32;
        tree
    }

    /// The tree of 1 to 4 sections stacked bottom up into a 16 x H x 16
    /// column, H the height padded to a power of two (16, 32, 64, 64); the
    /// padding is air. Depth is `ceil_log2(H)`, and every voxel of the padded
    /// column reads back as the sections (or the padding) hold it.
    pub fn from_column(sections: &[SectionPalette]) -> (t: Self)
        requires
            1 <= sections.len() <= SECTIONS_PER_COLUMN,
        ensures
            ({
                let h = column_height(sections@.len() as int);
                &&& (t@.nodes, t@.leaf_count as nat, t@.root as int) == built(
                    Seq::<Node>::empty(),
                    0,
                    stacked(sections@, h),
                    h,
                    0,
                    0,
                    0,
                    16,
                    h,
                    16,
                )
                &&& t@.bounds == [16usize, h as usize, 16usize]
                &&& t@.max_depth == ceil_log2(h)
                &&& t@.node_count == t@.nodes.len()
                &&& forall|x: int, y: int, z: int|
                    0 <= x < 16 && 0 <= y < h && 0 <= z < 16 ==> #[trigger] lookup(
                        t@.nodes,
                        t@.root as int,
                        0,
                        0,
                        0,
                        16,
                        h,
                        16,
                        x,
                        y,
                        z,
                    ) == column_voxel(sections@, x, y, z)
                &&& t.linked()
                &&& forall|x: int, y: int, z: int|
                    0 <= x < 16 && 0 <= y < h && 0 <= z < 16 ==> #[trigger] sampled(
                        t@.nodes,
                        t@.root as int,
                        0,
                        0,
                        0,
                        16,
                        h,
                        16,
                        x,
                        y,
                        z,
                        0,
                        t@.max_depth as int,
                    ) == occupancy(column_voxel(sections@, x, y, z))
            }),
    {
        let n = sections.len();
        let height: usize = if n <= 1 {
            16
        } else if n == 2 {
            32
        } else {
            64
        };
        let ghost h = height as int;
        let total = SECTION_SIZE * height * SECTION_SIZE;
        let mut column: Vec<u16> = Vec::new();
        let mut i: usize = 0;
        while i < total
            invariant
                h == column_height(n as int),
                height == h,
                n == sections@.len(),
                1 <= n <= 4,
                total == 16 * h * 16,
                i <= total,
                column@ == stacked(sections@, h).take(i as int),
            decreases total - i,
        {
            let x = i % SECTION_SIZE;
            let y = (i / SECTION_SIZE) % height;
            let z = i / (SECTION_SIZE * height);
            proof {
                assert(z < 16) by (nonlinear_arith)
                    requires
                        z as int == i as int / (16 * height as int),
                        i < 16 * height * 16,
                        height > 0,
                ;
            }
            let v = if y < SECTION_SIZE * n {
                sections[y / SECTION_SIZE][x + (y % SECTION_SIZE) * SECTION_SIZE + z * 256]
            } else {
                0
            };
            column.push(v);
            proof {
                assert(column@ =~= stacked(sections@, h).take(i + 1));
            }
            i += 1;
        }
        proof {
            assert(column@ =~= stacked(sections@, h));
            lemma_column_node_bounds();
            lemma_ceil_log2_pow2();
            lemma_built_reads(Seq::<Node>::empty(), 0, column@, h, 0, 0, 0, 16, h, 16);
            assert forall|x: int, y: int, z: int| 0 <= x < 16 && 0 <= y < h && 0 <= z < 16 implies cell(
                column@,
                h,
                x,
                y,
                z,
            ) == column_voxel(sections@, x, y, z) by {
                lemma_stacked_index(sections@, h, x, y, z);
            }
        }
        let mut tree = Self::empty();
        tree.bounds = [SECTION_SIZE, height, SECTION_SIZE];
        tree.max_depth = ceil_log2_usize(if height > SECTION_SIZE { height } else { SECTION_SIZE });
        tree.root = tree.build_node_column(column.as_slice(), height, 0, 0, 0, SECTION_SIZE, height, SECTION_SIZE);
        tree.node_count = tree.nodes.len() as u32;
        tree
    }

    /// A tree whose nodes link only backwards from its root (every tree the
    /// constructors make; an empty tree trivially).
    pub open spec fn linked(&self) -> bool {
        self@.nodes.len() > 0 ==> self@.root < self@.nodes.len() && all_links_below(self@.nodes)
    }

    /// Occupancy in eighths at voxel `(x, y, z)` for a cone of level `lod`:
    /// the descent from the root stops at depth `max_depth - min(lod,
    /// max_depth)`; `None` for air, outside the bounds, or an empty tree.
    pub fn sample_voxel(&self, x: usize, y: usize, z: usize, lod: u32) -> (r: Option<u32>)
        requires
            self.linked(),
        ensures
            r == if self@.nodes.len() == 0 || !(x < self@.bounds[0] && y < self@.bounds[1] && z < self@.bounds[2]) {
                None
            } else {
                sampled(
                    self@.nodes,
                    self@.root as int,
                    0,
                    0,
                    0,
                    self@.bounds[0] as int,
                    self@.bounds[1] as int,
                    self@.bounds[2] as int,
                    x as int,
                    y as int,
                    z as int,
                    0,
                    self@.max_depth - (if lod < self@.max_depth { lod } else { self@.max_depth }),
                )
            },
    {
        if self.nodes.len() == 0 {
            return None;
        }
        if !(x < self.bounds[0] && y < self.bounds[1] && z < self.bounds[2]) {
            return None;
        }
        let budget: u32 = self.max_depth - if lod < self.max_depth { lod } else { self.max_depth };
        let ghost nodes = self.nodes@;
        let ghost full = sampled(
            nodes,
            self.root as int,
            0,
            0,
            0,
            self.bounds[0] as int,
            self.bounds[1] as int,
            self.bounds[2] as int,
            x as int,
            y as int,
            z as int,
            0,
            budget as int,
        );
        let mut id = self.root as usize;
        let (mut ox, mut oy, mut oz) = (0usize, 0usize, 0usize);
        let (mut sx, mut sy, mut sz) = (self.bounds[0], self.bounds[1], self.bounds[2]);
        let mut depth: u32 = 0;
        loop
            invariant
                self.linked(),
                nodes == self.nodes@,
                0 <= id < nodes.len(),
                depth <= budget,
                ox + sx <= self.bounds[0],
                oy + sy <= self.bounds[1],
                oz + sz <= self.bounds[2],
                full == sampled(nodes, id as int, ox as int, oy as int, oz as int, sx as int, sy as int, sz as int, x as int, y as int, z as int, depth as int, budget as int),
                full == sampled(
                    nodes,
                    self.root as int,
                    0,
                    0,
                    0,
                    self.bounds[0] as int,
                    self.bounds[1] as int,
                    self.bounds[2] as int,
                    x as int,
                    y as int,
                    z as int,
                    0,
                    budget as int,
                ),
                nodes.len() > 0,
                x < self.bounds[0] && y < self.bounds[1] && z < self.bounds[2],
                budget == self.max_depth - (if lod < self.max_depth { lod } else { self.max_depth }),
            decreases budget - depth,
        {
            let node = self.nodes[id];
            match node.kind {
                NodeKind::Empty => {
                    return None;
                },
                NodeKind::Uniform(_) => {
                    return Some(8);
                },
                NodeKind::Branch => {
                    proof {
                        assert(links_below(nodes, id as int));
                    }
                    if depth >= budget {
                        let mut solid: u32 = 0;
                        let mut k: usize = 0;
                        while k < 8
                            invariant
                                k <= 8,
                                0 <= id < nodes.len(),
                                nodes == self.nodes@,
                                node == nodes[id as int],
                                node.kind is Branch,
                                links_below(nodes, id as int),
                                solid == solid_children(nodes, node, k as int),
                                solid <= k,
                            decreases 8 - k,
                        {
                            let c = node.children[k] as usize;
                            assert((node.children[k as int] as int) < id);
                            if let NodeKind::Empty = self.nodes[c].kind {
                            } else {
                                solid += 1;
                            }
                            k += 1;
                        }
                        return if solid > 0 {
                            Some(solid)
                        } else {
                            None
                        };
                    }
                    let dx: usize = if sx > 1 && x >= ox + half_exec(sx) { 1 } else { 0 };
                    let dy: usize = if sy > 1 && y >= oy + half_exec(sy) { 1 } else { 0 };
                    let dz: usize = if sz > 1 && z >= oz + half_exec(sz) { 1 } else { 0 };
                    proof {
                        assert(dx + 2 * dy + 4 * dz < 8);
                        assert((node.children[dx + 2 * dy + 4 * dz] as int) < id);
                    }
                    let ghost (pid, pox, poy, poz, psx, psy, psz) = (id as int, ox as int, oy as int, oz as int, sx as int, sy as int, sz as int);
                    id = node.children[dx + 2 * dy + 4 * dz] as usize;
                    if sx > 1 {
                        let hx = half_exec(sx);
                        if dx == 1 {
                            ox = ox + hx;
                        }
                        sx = hx;
                    }
                    if sy > 1 {
                        let hy = half_exec(sy);
                        if dy == 1 {
                            oy = oy + hy;
                        }
                        sy = hy;
                    }
                    if sz > 1 {
                        let hz = half_exec(sz);
                        if dz == 1 {
                            oz = oz + hz;
                        }
                        sz = hz;
                    }
                    proof {
                        assert(pick_half(x as int, pox, psx) == dx && pick_half(y as int, poy, psy) == dy && pick_half(z as int, poz, psz) == dz);
                        assert(child_axis(pox, psx, dx as int) == (ox as int, sx as int)) by {
                            if psx > 1 {
                                lemma_bit_times(dx as int, half_side(psx));
                            }
                        }
                        assert(child_axis(poy, psy, dy as int) == (oy as int, sy as int)) by {
                            if psy > 1 {
                                lemma_bit_times(dy as int, half_side(psy));
                            }
                        }
                        assert(child_axis(poz, psz, dz as int) == (oz as int, sz as int)) by {
                            if psz > 1 {
                                lemma_bit_times(dz as int, half_side(psz));
                            }
                        }
                    }
                    depth += 1;
                },
            }
        }
    }

    /// Bytes the node array takes (saturating at `usize::MAX`).
    pub fn memory_bytes(&self) -> (r: usize)
        ensures
            r as int == if self@.nodes.len() * vstd::layout::size_of::<Node>() <= usize::MAX {
                (self@.nodes.len() * vstd::layout::size_of::<Node>()) as int
            } else {
                usize::MAX as int
            },
    {
        match self.nodes.len().checked_mul(core::mem::size_of::<Node>()) {
            Some(b) => b,
            None => usize::MAX,
        }
    }

    /// The nodes flattened for upload, `GPU_NODE_STRIDE` words each: kind tag
    /// (0 empty, 1 branch, 2 + b uniform block b), the 8 child ids, one pad.
    pub fn to_gpu_words(&self) -> (w: Vec<u32>)
        ensures
            w@.len() == self@.nodes.len() * 10,
            forall|i: int| 0 <= i < w@.len() ==> #[trigger] w@[i] == node_word(self@.nodes[i / 10], i % 10),
    {
        let mut w: Vec<u32> = Vec::new();
        let mut k: usize = 0;
        while k < self.nodes.len()
            invariant
                k <= self.nodes@.len(),
                w@.len() == k * 10,
                forall|i: int| 0 <= i < w@.len() ==> #[trigger] w@[i] == node_word(self.nodes@[i / 10], i % 10),
            decreases self.nodes@.len() - k,
        {
            let n = self.nodes[k];
            let tag: u32 = match n.kind {
                NodeKind::Empty => 0,
                NodeKind::Branch => 1,
                NodeKind::Uniform(b) => 2 + b as u32,
            };
            let ghost start = w@.len() as int;
            w.push(tag);
            let mut c: usize = 0;
            while c < 8
                invariant
                    c <= 8,
                    k < self.nodes@.len(),
                    n == self.nodes@[k as int],
                    start == k * 10,
                    w@.len() == start + 1 + c,
                    forall|i: int| 0 <= i < start ==> #[trigger] w@[i] == node_word(self.nodes@[i / 10], i % 10),
                    w@[start] == node_word(n, 0),
                    forall|q: int| 1 <= q <= c ==> #[trigger] w@[start + q] == node_word(n, q),
                decreases 8 - c,
            {
                w.push(n.children[c]);
                c += 1;
            }
            w.push(0);
            proof {
                assert forall|i: int| 0 <= i < w@.len() implies #[trigger] w@[i] == node_word(self.nodes@[i / 10], i % 10) by {
                    if i >= start {
                        let q = i - start;
                        vstd::arithmetic::div_mod::lemma_fundamental_div_mod_converse(i, 10, k as int, q);
                        if 1 <= q <= 8 {
                            assert(w@[start + q] == node_word(n, q));
                        }
                    }
                }
            }
            k += 1;
        }
        w
    }

    /// Number of nodes.
    pub fn node_len(&self) -> (r: usize)
        ensures
            r == self@.nodes.len(),
    {
        self.nodes.len()
    }

    /// Node `i`.
    pub fn node_at(&self, i: usize) -> (n: Node)
        requires
            i < self@.nodes.len(),
        ensures
            n == self@.nodes[i as int],
    {
        self.nodes[i]
    }

    fn alloc_node(&mut self, node: Node) -> (id: u32)
        requires
            old(self).nodes@.len() < u32::MAX,
            old(self).leaf_count <= old(self).nodes@.len(),
        ensures
            id == old(self).nodes@.len(),
            final(self).nodes@ == old(self).nodes@.push(node),
            final(self).leaf_count == old(self).leaf_count + if node.kind is Uniform { 1int } else { 0int },
            final(self).leaf_count <= final(self).nodes@.len(),
            final(self).root == old(self).root,
            final(self).bounds == old(self).bounds,
            final(self).node_count == old(self).node_count,
            final(self).max_depth == old(self).max_depth,
    {
        let id = self.nodes.len() as u32;
        if let NodeKind::Uniform(_) = node.kind {
            self.leaf_count = self.leaf_count + 1;
        }
        self.nodes.push(node);
        id
    }

    fn build_node_column(&mut self, column: &[u16], h: usize, ox: usize, oy: usize, oz: usize, sx: usize, sy: usize, sz: usize) -> (id: u32)
        requires
            valid_box(h as int, ox as int, oy as int, oz as int, sx as int, sy as int, sz as int),
            column@.len() == 16 * h * 16,
            h <= 64,
            old(self).nodes@.len() + max_nodes(sx as int, sy as int, sz as int) <= u32::MAX,
            old(self).leaf_count <= old(self).nodes@.len(),
        ensures
            (final(self).nodes@, final(self).leaf_count as nat, id as int) == built(
                old(self).nodes@,
                old(self).leaf_count as nat,
                column@,
                h as int,
                ox as int,
                oy as int,
                oz as int,
                sx as int,
                sy as int,
                sz as int,
            ),
            final(self).nodes@.len() <= old(self).nodes@.len() + max_nodes(sx as int, sy as int, sz as int),
            final(self).leaf_count <= final(self).nodes@.len(),
            final(self).root == old(self).root,
            final(self).bounds == old(self).bounds,
            final(self).node_count == old(self).node_count,
            final(self).max_depth == old(self).max_depth,
        decreases sx + sy + sz,
    {
        let (uniform, block) = region_uniform_column(column, h, ox, oy, oz, sx, sy, sz);
        if uniform {
            let node = Node {
                kind: if block == 0 {
                    NodeKind::Empty
                } else {
                    NodeKind::Uniform(block)
                },
                children: [0, 0, 0, 0, 0, 0, 0, 0],
            };
            assert(node == leaf_node(block));
            return self.alloc_node(node);
        }
        let hx = half_exec(sx);
        let hy = half_exec(sy);
        let hz = half_exec(sz);
        let ghost start = self.nodes@;
        let ghost start_leaves = self.leaf_count as nat;
        let ghost m_child = max_nodes(
            if sx > 1 { half_side(sx as int) } else { sx as int },
            if sy > 1 { half_side(sy as int) } else { sy as int },
            if sz > 1 { half_side(sz as int) } else { sz as int },
        );
        assert(sx > 1 || sy > 1 || sz > 1);
        assert(max_nodes(sx as int, sy as int, sz as int) == 1 + 8 * m_child);
        let mut made: Vec<u32> = vec![0, 0, 0, 0, 0, 0, 0, 0];
        assert(made@ =~= zero8());
        let mut j: usize = 0;
        while j < 8
            invariant
                j <= 8,
                valid_box(h as int, ox as int, oy as int, oz as int, sx as int, sy as int, sz as int),
                column@.len() == 16 * h * 16,
                h <= 64,
                sx > 1 || sy > 1 || sz > 1,
                hx == half_side(sx as int),
                hy == half_side(sy as int),
                hz == half_side(sz as int),
                m_child == max_nodes(
                    if sx > 1 { half_side(sx as int) } else { sx as int },
                    if sy > 1 { half_side(sy as int) } else { sy as int },
                    if sz > 1 { half_side(sz as int) } else { sz as int },
                ),
                start.len() + 1 + 8 * m_child <= u32::MAX,
                made@.len() == 8,
                (self.nodes@, self.leaf_count as nat, made@) == built_children(
                    start,
                    start_leaves,
                    column@,
                    h as int,
                    ox as int,
                    oy as int,
                    oz as int,
                    sx as int,
                    sy as int,
                    sz as int,
                    j as int,
                ),
                self.nodes@.len() <= start.len() + j * m_child,
                self.leaf_count <= self.nodes@.len(),
                self.root == old(self).root,
                self.bounds == old(self).bounds,
                self.node_count == old(self).node_count,
                self.max_depth == old(self).max_depth,
            decreases 8 - j,
        {
            let slot = shared_slot_exec(j, sx, sy, sz);
            if slot == j {
                proof {
                    lemma_child_box(h as int, ox as int, oy as int, oz as int, sx as int, sy as int, sz as int, j as int);
                    assert(j * m_child + m_child <= 8 * m_child && (j + 1) * m_child == j * m_child + m_child) by (nonlinear_arith)
                        requires
                            j < 8,
                    ;
                }
                let dx = j % 2;
                let dy = (j / 2) % 2;
                let dz = j / 4;
                let cx = if sx > 1 { ox + dx * hx } else { ox };
                let cy = if sy > 1 { oy + dy * hy } else { oy };
                let cz = if sz > 1 { oz + dz * hz } else { oz };
                let csx = if sx > 1 { hx } else { sx };
                let csy = if sy > 1 { hy } else { sy };
                let csz = if sz > 1 { hz } else { sz };
                let id = self.build_node_column(column, h, cx, cy, cz, csx, csy, csz);
                made.set(j, id);
            } else {
                proof {
                    assert((j + 1) * m_child == j * m_child + m_child) by (nonlinear_arith);
                }
            }
            j += 1;
        }
        let children = [
            made[shared_slot_exec(0, sx, sy, sz)],
            made[shared_slot_exec(1, sx, sy, sz)],
            made[shared_slot_exec(2, sx, sy, sz)],
            made[shared_slot_exec(3, sx, sy, sz)],
            made[shared_slot_exec(4, sx, sy, sz)],
            made[shared_slot_exec(5, sx, sy, sz)],
            made[shared_slot_exec(6, sx, sy, sz)],
            made[shared_slot_exec(7, sx, sy, sz)],
        ];
        let node = Node { kind: NodeKind::Branch, children };
        proof {
            let c = Seq::new(8, |q: int| made@[shared_slot(q, sx as int, sy as int, sz as int)]);
            assert(node == Node { kind: NodeKind::Branch, children: [c[0], c[1], c[2], c[3], c[4], c[5], c[6], c[7]] });
        }
        self.alloc_node(node)
    }
}

} // verus!
