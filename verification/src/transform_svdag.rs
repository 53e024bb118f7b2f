//! Transform-aware SVDAG: nodes equal up to a rotation about Y (quarter
//! turns) and mirrors in X and Z share one canonical node, reached through a
//! transform tag.

use std::collections::HashMap;
use vstd::prelude::*;
use crate::svdag::{
    distinct_nodes, has_bit, node_key, spec_insert, SparseVoxelDag, SvdagNodeData, NO_CHILD,
};

verus! {

broadcast use {vstd::std_specs::hash::group_hash_axioms, vstd::array::group_array_axioms};

/// Quarter turns about Y, then mirrors in X and Z.
#[derive(Debug, Clone, Copy, PartialEq, Eq, Hash, Structural)]
pub struct TransformTag {
    pub rotate_y_90_count: u8,
    pub mirror_x: bool,
    pub mirror_z: bool,
}

impl Default for TransformTag {
    fn default() -> (t: Self)
        ensures
            t == identity_tag(),
    {
        TransformTag { rotate_y_90_count: 0, mirror_x: false, mirror_z: false }
    }
}

/// The identity transform.
pub open spec fn identity_tag() -> TransformTag {
    TransformTag { rotate_y_90_count: 0, mirror_x: false, mirror_z: false }
}

/// `k` quarter turns of the XZ square: each maps `(x, z)` to `(z, !x)`.
pub open spec fn rotate_xz(x: bool, z: bool, k: int) -> (bool, bool) {
    if k == 0 {
        (x, z)
    } else if k == 1 {
        (z, !x)
    } else if k == 2 {
        (!x, !z)
    } else {
        (!z, x)
    }
}

/// Where a transform sends the XZ half-bits `(x, z)`.
pub open spec fn apply_tag(t: TransformTag, x: bool, z: bool) -> (bool, bool) {
    let (rx, rz) = rotate_xz(x, z, (t.rotate_y_90_count % 4) as int);
    (rx != t.mirror_x, rz != t.mirror_z)
}

/// Octant index of the half-bits.
pub open spec fn octant_of(x: bool, y: bool, z: bool) -> int {
    (if x { 1int } else { 0int }) + (if y { 2int } else { 0int }) + (if z { 4int } else { 0int })
}

/// Where a transform sends octant `i` (Y is kept).
pub open spec fn map_octant(t: TransformTag, i: int) -> int {
    let (x2, z2) = apply_tag(t, i % 2 == 1, i / 4 == 1);
    octant_of(x2, (i / 2) % 2 == 1, z2)
}

/// Octants `0..i` of `node` moved by `t`: occupancy bits and child links.
pub open spec fn permute_upto(node: SvdagNodeData, t: TransformTag, i: nat) -> (u8, Seq<u32>)
    decreases i,
{
    if i == 0 {
        (0u8, seq![NO_CHILD, NO_CHILD, NO_CHILD, NO_CHILD, NO_CHILD, NO_CHILD, NO_CHILD, NO_CHILD])
    } else {
        let (m, c) = permute_upto(node, t, (i - 1) as nat);
        let o = i - 1;
        if has_bit(node.child_mask, o) {
            let j = map_octant(t, o);
            (m | (1u8 << (j as u8)), c.update(j, node.children[o]))
        } else {
            (m, c)
        }
    }
}

/// `node` with every occupied octant moved by `t`; unoccupied octants get no
/// link.
pub open spec fn permute(node: SvdagNodeData, t: TransformTag) -> SvdagNodeData {
    let (m, c) = permute_upto(node, t, 8);
    SvdagNodeData { child_mask: m, children: [c[0], c[1], c[2], c[3], c[4], c[5], c[6], c[7]] }
}

/// Links exactly where bits are set: what [`permute`] yields.
pub open spec fn canonical(node: SvdagNodeData) -> bool {
    forall|o: int| 0 <= o < 8 && !has_bit(node.child_mask, o) ==> node.children[o] == NO_CHILD
}

/// The 16 tags with fewer than four turns, in search order: turns, then
/// mirror X, then mirror Z.
pub open spec fn tag_at(idx: int) -> TransformTag {
    TransformTag { rotate_y_90_count: (idx / 4) as u8, mirror_x: (idx / 2) % 2 == 1, mirror_z: idx % 2 == 1 }
}

/// Whether `c` acts on the four XZ points as `first` followed by `second`.
pub open spec fn composes(c: TransformTag, first: TransformTag, second: TransformTag) -> bool {
    forall|x: bool, z: bool| #[trigger] agrees_at(c, first, second, x, z)
}

/// [`agrees_at`] on point `j` of the square (bit 0 for X, bit 1 for Z).
pub open spec fn agrees_at_point(c: TransformTag, first: TransformTag, second: TransformTag, j: int) -> bool {
    agrees_at(c, first, second, j % 2 == 1, j / 2 == 1)
}

/// `c` sends `(x, z)` where `first` followed by `second` does.
pub open spec fn agrees_at(c: TransformTag, first: TransformTag, second: TransformTag, x: bool, z: bool) -> bool {
    apply_tag(c, x, z) == {
        let (x1, z1) = apply_tag(first, x, z);
        apply_tag(second, x1, z1)
    }
}

/// A transform as a swap flag and XOR constants on `(x, z)`.
pub open spec fn tag_triple(t: TransformTag) -> (bool, bool, bool) {
    let k = t.rotate_y_90_count % 4;
    if k == 0 {
        (false, t.mirror_x, t.mirror_z)
    } else if k == 1 {
        (true, t.mirror_x, !t.mirror_z)
    } else if k == 2 {
        (false, !t.mirror_x, !t.mirror_z)
    } else {
        (true, !t.mirror_x, t.mirror_z)
    }
}

pub open spec fn act_triple(s: bool, p: bool, q: bool, x: bool, z: bool) -> (bool, bool) {
    if s {
        (z != p, x != q)
    } else {
        (x != p, z != q)
    }
}

proof fn lemma_tag_triple(t: TransformTag, x: bool, z: bool)
    ensures
        ({
            let (s, p, q) = tag_triple(t);
            apply_tag(t, x, z) == act_triple(s, p, q, x, z)
        }),
{
}

/// The first tag in search order with the given swap flag and constants.
pub open spec fn tag_of_triple(s: bool, p: bool, q: bool) -> TransformTag {
    if s {
        TransformTag { rotate_y_90_count: 1, mirror_x: p, mirror_z: !q }
    } else {
        TransformTag { rotate_y_90_count: 0, mirror_x: p, mirror_z: q }
    }
}

/// Some tag in search order composes any two tags.
proof fn lemma_composite_exists(first: TransformTag, second: TransformTag)
    ensures
        exists|idx: int| 0 <= idx < 16 && #[trigger] composes(tag_at(idx), first, second),
{
    let (s1, p1, q1) = tag_triple(first);
    let (s2, p2, q2) = tag_triple(second);
    let s = s1 != s2;
    let (p, q) = if s2 {
        (q1 != p2, p1 != q2)
    } else {
        (p1 != p2, q1 != q2)
    };
    let w = tag_of_triple(s, p, q);
    let idx: int = (if s { 4int } else { 0int }) + (if p { 2int } else { 0int }) + (if s { if q { 0int } else { 1int } } else { if q { 1int } else { 0int } });
    assert(tag_at(idx) == w);
    assert forall|x: bool, z: bool| #[trigger] agrees_at(w, first, second, x, z) by {
        lemma_tag_triple(w, x, z);
        lemma_tag_triple(first, x, z);
        let (x1, z1) = apply_tag(first, x, z);
        lemma_tag_triple(second, x1, z1);
    }
    assert(composes(tag_at(idx), first, second));
}

proof fn lemma_octant_decode(x: bool, y: bool, z: bool)
    ensures
        ({
            let o = octant_of(x, y, z);
            &&& 0 <= o < 8
            &&& (o % 2 == 1) == x
            &&& ((o / 2) % 2 == 1) == y
            &&& (o / 4 == 1) == z
        }),
{
}

proof fn lemma_octant_encode(i: int)
    requires
        0 <= i < 8,
    ensures
        octant_of(i % 2 == 1, (i / 2) % 2 == 1, i / 4 == 1) == i,
{
}

/// The octant `t` sends to `j`.
pub open spec fn unmap_octant(t: TransformTag, j: int) -> int {
    let (s, p, q) = tag_triple(t);
    let xj = j % 2 == 1;
    let zj = j / 4 == 1;
    let (x, z) = if s {
        (zj != q, xj != p)
    } else {
        (xj != p, zj != q)
    };
    octant_of(x, (j / 2) % 2 == 1, z)
}

/// `map_octant(t, .)` is a bijection of `0..8`.
proof fn lemma_map_octant_bijective(t: TransformTag)
    ensures
        forall|i: int| 0 <= i < 8 ==> 0 <= #[trigger] map_octant(t, i) < 8,
        forall|i: int, j: int| 0 <= i < 8 && 0 <= j < 8 && #[trigger] map_octant(t, i) == #[trigger] map_octant(t, j) ==> i == j,
        forall|j: int| 0 <= j < 8 ==> 0 <= #[trigger] unmap_octant(t, j) < 8 && map_octant(t, unmap_octant(t, j)) == j,
{
    assert forall|i: int| 0 <= i < 8 implies 0 <= #[trigger] map_octant(t, i) < 8 by {
        let (x2, z2) = apply_tag(t, i % 2 == 1, i / 4 == 1);
        lemma_octant_decode(x2, (i / 2) % 2 == 1, z2);
    }
    assert forall|i: int, j: int| 0 <= i < 8 && 0 <= j < 8 && #[trigger] map_octant(t, i) == #[trigger] map_octant(t, j) implies i == j by {
        let (xi, zi) = apply_tag(t, i % 2 == 1, i / 4 == 1);
        let (xj, zj) = apply_tag(t, j % 2 == 1, j / 4 == 1);
        lemma_octant_decode(xi, (i / 2) % 2 == 1, zi);
        lemma_octant_decode(xj, (j / 2) % 2 == 1, zj);
        lemma_tag_triple(t, i % 2 == 1, i / 4 == 1);
        lemma_tag_triple(t, j % 2 == 1, j / 4 == 1);
        lemma_octant_encode(i);
        lemma_octant_encode(j);
    }
    assert forall|j: int| 0 <= j < 8 implies 0 <= #[trigger] unmap_octant(t, j) < 8 && map_octant(t, unmap_octant(t, j)) == j by {
        let (s, p, q) = tag_triple(t);
        let xj = j % 2 == 1;
        let yj = (j / 2) % 2 == 1;
        let zj = j / 4 == 1;
        let (x, z) = if s {
            (zj != q, xj != p)
        } else {
            (xj != p, zj != q)
        };
        lemma_octant_decode(x, yj, z);
        lemma_tag_triple(t, x, z);
        lemma_octant_encode(j);
    }
}

/// Composing tags composes their octant maps.
proof fn lemma_compose_octants(c: TransformTag, first: TransformTag, second: TransformTag, i: int)
    requires
        composes(c, first, second),
        0 <= i < 8,
    ensures
        map_octant(c, i) == map_octant(second, map_octant(first, i)),
{
    let x = i % 2 == 1;
    let y = (i / 2) % 2 == 1;
    let z = i / 4 == 1;
    let (x1, z1) = apply_tag(first, x, z);
    assert(agrees_at(c, first, second, x, z));
    lemma_octant_decode(x1, y, z1);
}

proof fn lemma_permute_upto(n: SvdagNodeData, t: TransformTag, i: nat)
    requires
        i <= 8,
    ensures
        ({
            let (m, c) = permute_upto(n, t, i);
            &&& c.len() == 8
            &&& forall|o: int| 0 <= o < 8 ==> #[trigger] has_bit(m, map_octant(t, o)) == (o < i && has_bit(n.child_mask, o))
            &&& forall|o: int| 0 <= o < 8 ==> #[trigger] c[map_octant(t, o)] == if o < i && has_bit(n.child_mask, o) {
                n.children[o]
            } else {
                NO_CHILD
            }
        }),
    decreases i,
{
    lemma_map_octant_bijective(t);
    if i == 0 {
        assert forall|o: int| 0 <= o < 8 implies !#[trigger] has_bit(0u8, map_octant(t, o)) by {
            crate::svdag::lemma_bit_or(0, 0, map_octant(t, o) as u8);
        }
    } else {
        lemma_permute_upto(n, t, (i - 1) as nat);
        let (m, c) = permute_upto(n, t, (i - 1) as nat);
        let o2 = i - 1;
        if has_bit(n.child_mask, o2) {
            let j = map_octant(t, o2);
            assert forall|o: int| 0 <= o < 8 implies #[trigger] has_bit(m | (1u8 << (j as u8)), map_octant(t, o)) == (o < i && has_bit(n.child_mask, o)) by {
                crate::svdag::lemma_bit_or(m, j as u8, map_octant(t, o) as u8);
                assert(has_bit(m, map_octant(t, o)) == (o < i - 1 && has_bit(n.child_mask, o)));
                assert(0 <= map_octant(t, o) < 8 && 0 <= map_octant(t, o2) < 8);
                assert((map_octant(t, o) == map_octant(t, o2)) == (o == o2));
            }
        }
    }
}

/// What [`permute`] does octant by octant.
pub proof fn lemma_permute_octants(n: SvdagNodeData, t: TransformTag)
    ensures
        forall|o: int| 0 <= o < 8 ==> #[trigger] has_bit(permute(n, t).child_mask, map_octant(t, o)) == has_bit(n.child_mask, o),
        forall|o: int| 0 <= o < 8 ==> #[trigger] permute(n, t).children[map_octant(t, o)] == if has_bit(n.child_mask, o) {
            n.children[o]
        } else {
            NO_CHILD
        },
{
    lemma_permute_upto(n, t, 8);
    lemma_map_octant_bijective(t);
    let (m, c) = permute_upto(n, t, 8);
    let p = permute(n, t);
    assert(p.children@ == seq![c[0], c[1], c[2], c[3], c[4], c[5], c[6], c[7]]);
    assert forall|o: int| 0 <= o < 8 implies #[trigger] p.children[map_octant(t, o)] == c[map_octant(t, o)] by {
        let j = map_octant(t, o);
        assert(p.children@[j] == c[j]);
    }
}

/// Masks with the same eight bits are equal.
proof fn lemma_mask_eq(a: u8, b: u8)
    requires
        forall|j: int| 0 <= j < 8 ==> #[trigger] has_bit(a, j) == has_bit(b, j),
    ensures
        a == b,
{
    assert(has_bit(a, 0) == has_bit(b, 0));
    assert(has_bit(a, 1) == has_bit(b, 1));
    assert(has_bit(a, 2) == has_bit(b, 2));
    assert(has_bit(a, 3) == has_bit(b, 3));
    assert(has_bit(a, 4) == has_bit(b, 4));
    assert(has_bit(a, 5) == has_bit(b, 5));
    assert(has_bit(a, 6) == has_bit(b, 6));
    assert(has_bit(a, 7) == has_bit(b, 7));
    assert(a == b) by (bit_vector)
        requires
            ((a >> 0u8) & 1u8 == 1u8) == ((b >> 0u8) & 1u8 == 1u8),
            ((a >> 1u8) & 1u8 == 1u8) == ((b >> 1u8) & 1u8 == 1u8),
            ((a >> 2u8) & 1u8 == 1u8) == ((b >> 2u8) & 1u8 == 1u8),
            ((a >> 3u8) & 1u8 == 1u8) == ((b >> 3u8) & 1u8 == 1u8),
            ((a >> 4u8) & 1u8 == 1u8) == ((b >> 4u8) & 1u8 == 1u8),
            ((a >> 5u8) & 1u8 == 1u8) == ((b >> 5u8) & 1u8 == 1u8),
            ((a >> 6u8) & 1u8 == 1u8) == ((b >> 6u8) & 1u8 == 1u8),
            ((a >> 7u8) & 1u8 == 1u8) == ((b >> 7u8) & 1u8 == 1u8),
    ;
}

/// Moving by `first`, then by `second`, is moving by their composite.
pub proof fn lemma_permute_compose(n: SvdagNodeData, first: TransformTag, second: TransformTag, c: TransformTag)
    requires
        composes(c, first, second),
    ensures
        permute(permute(n, first), second) == permute(n, c),
{
    let p = permute(n, first);
    let q = permute(p, second);
    let r = permute(n, c);
    lemma_permute_octants(n, first);
    lemma_permute_octants(p, second);
    lemma_permute_octants(n, c);
    lemma_map_octant_bijective(c);
    lemma_map_octant_bijective(first);
    assert forall|k: int| 0 <= k < 8 implies #[trigger] has_bit(q.child_mask, k) == has_bit(r.child_mask, k) && q.children[k] == r.children[k] by {
        let o = unmap_octant(c, k);
        lemma_compose_octants(c, first, second, o);
        let j = map_octant(first, o);
        assert(has_bit(q.child_mask, map_octant(second, j)) == has_bit(p.child_mask, j));
        assert(has_bit(p.child_mask, map_octant(first, o)) == has_bit(n.child_mask, o));
        assert(has_bit(r.child_mask, map_octant(c, o)) == has_bit(n.child_mask, o));
        assert(q.children[map_octant(second, j)] == if has_bit(p.child_mask, j) { p.children[j] } else { NO_CHILD });
        assert(p.children[map_octant(first, o)] == if has_bit(n.child_mask, o) { n.children[o] } else { NO_CHILD });
        assert(r.children[map_octant(c, o)] == if has_bit(n.child_mask, o) { n.children[o] } else { NO_CHILD });
    }
    lemma_mask_eq(q.child_mask, r.child_mask);
    assert forall|k: int| 0 <= k < 8 implies #[trigger] q.children[k] == r.children[k] by {
        assert(has_bit(q.child_mask, k) == has_bit(r.child_mask, k));
    }
    assert(q.children =~= r.children);
}

/// [`permute`] yields canonical nodes, and leaves canonical nodes unchanged
/// under the identity.
pub proof fn lemma_permute_canonical(n: SvdagNodeData, t: TransformTag)
    ensures
        canonical(permute(n, t)),
        canonical(n) ==> permute(n, identity_tag()) == n,
{
    let p = permute(n, t);
    lemma_permute_octants(n, t);
    lemma_map_octant_bijective(t);
    assert forall|j: int| 0 <= j < 8 && !has_bit(p.child_mask, j) implies p.children[j] == NO_CHILD by {
        let o = unmap_octant(t, j);
        assert(has_bit(p.child_mask, map_octant(t, o)) == has_bit(n.child_mask, o));
    }
    if canonical(n) {
        let e = permute(n, identity_tag());
        lemma_permute_octants(n, identity_tag());
        assert forall|o: int| 0 <= o < 8 implies #[trigger] map_octant(identity_tag(), o) == o by {
            lemma_octant_encode(o);
        }
        assert forall|o: int| 0 <= o < 8 implies #[trigger] has_bit(e.child_mask, o) == has_bit(n.child_mask, o) by {
            assert(map_octant(identity_tag(), o) == o);
        }
        lemma_mask_eq(e.child_mask, n.child_mask);
        assert forall|o: int| 0 <= o < 8 implies e.children[o] == n.children[o] by {
            assert(map_octant(identity_tag(), o) == o);
        }
        assert(e.children =~= n.children);
    }
}

/// Where `t` sends the XZ half-bits, by turning `t.rotate_y_90_count % 4`
/// times and then mirroring.
fn apply_xz(x: bool, z: bool, t: &TransformTag) -> (r: (bool, bool))
    ensures
        r == apply_tag(*t, x, z),
{
    let k = t.rotate_y_90_count % 4;
    let mut a = x;
    let mut b = z;
    let mut d: u8 = 0;
    while d < k
        invariant
            k < 4,
            d <= k,
            (a, b) == rotate_xz(x, z, d as int),
        decreases k - d,
    {
        let old_a = a;
        a = b;
        b = !old_a;
        d += 1;
    }
    if t.mirror_x {
        a = !a;
    }
    if t.mirror_z {
        b = !b;
    }
    (a, b)
}

proof fn lemma_mask_test(m: u8, i: u8)
    requires
        i < 8,
    ensures
        (m & (1u8 << i) != 0) == ((m >> i) & 1u8 == 1u8),
{
    assert((m & (1u8 << i) != 0) == ((m >> i) & 1u8 == 1u8)) by (bit_vector)
        requires
            i < 8,
    ;
}

/// First index from `idx` on whose tag composes `first` then `second`
/// (16 when there is none).
pub open spec fn first_composite(first: TransformTag, second: TransformTag, idx: nat) -> nat
    decreases 16 - idx,
{
    if idx >= 16 {
        16
    } else if composes(tag_at(idx as int), first, second) {
        idx
    } else {
        first_composite(first, second, idx + 1)
    }
}

/// The composite of two tags: the first tag in search order acting as
/// `first` followed by `second`.
pub open spec fn composite_tag(first: TransformTag, second: TransformTag) -> TransformTag {
    tag_at(first_composite(first, second, 0) as int)
}

proof fn lemma_first_composite(first: TransformTag, second: TransformTag, idx: nat)
    requires
        idx <= 16,
    ensures
        first_composite(first, second, idx) <= 16,
        first_composite(first, second, idx) >= idx,
        first_composite(first, second, idx) < 16 ==> composes(tag_at(first_composite(first, second, idx) as int), first, second),
        forall|j: int| idx <= j < first_composite(first, second, idx) ==> !composes(#[trigger] tag_at(j), first, second),
    decreases 16 - idx,
{
    if idx < 16 && !composes(tag_at(idx as int), first, second) {
        lemma_first_composite(first, second, idx + 1);
    }
}

/// `composites` of all tags: the composite always exists and composes.
pub proof fn lemma_composite_tag(first: TransformTag, second: TransformTag)
    ensures
        composes(composite_tag(first, second), first, second),
        composite_tag(first, second).rotate_y_90_count < 4,
{
    lemma_first_composite(first, second, 0);
    lemma_composite_exists(first, second);
    let w = choose|idx: int| 0 <= idx < 16 && #[trigger] composes(tag_at(idx), first, second);
    if first_composite(first, second, 0) >= 16 {
        assert(!composes(tag_at(w), first, second));
    }
}

/// Whether the candidate tag acts on all four XZ points as `first` then
/// `second`.
fn same_action(cand: &TransformTag, first: &TransformTag, second: &TransformTag) -> (r: bool)
    ensures
        r == composes(*cand, *first, *second),
{
    let mut k: u8 = 0;
    while k < 4
        invariant
            k <= 4,
            forall|j: int| 0 <= j < k ==> #[trigger] agrees_at_point(*cand, *first, *second, j),
        decreases 4 - k,
    {
        let x = k % 2 == 1;
        let z = k / 2 == 1;
        let (ax, az) = apply_xz(x, z, first);
        let (bx, bz) = apply_xz(ax, az, second);
        let (cx, cz) = apply_xz(x, z, cand);
        if bx != cx || bz != cz {
            assert(!agrees_at(*cand, *first, *second, x, z));
            return false;
        }
        assert(agrees_at_point(*cand, *first, *second, k as int));
        k += 1;
    }
    assert forall|x: bool, z: bool| #[trigger] agrees_at(*cand, *first, *second, x, z) by {
        let j: int = (if x { 1int } else { 0int }) + (if z { 2int } else { 0int });
        assert(j % 2 == 1 <==> x);
        assert(j / 2 == 1 <==> z);
        assert(agrees_at_point(*cand, *first, *second, j));
    }
    true
}

/// A pool entry: a node, its canonical id and the tag taking it there.
#[derive(Debug, Clone, Copy)]
pub struct PoolEntry {
    pub node: SvdagNodeData,
    pub id: u32,
    pub tag: TransformTag,
}

/// Map from nodes to `(canonical id, tag)`, kept as entries with a bucket
/// index by node key.
#[derive(Debug, Clone)]
pub struct CanonicalPool {
    entries: Vec<PoolEntry>,
    index: HashMap<u64, Vec<u32>>,
}

/// Index of the entry for `n`, if any.
pub open spec fn entry_index(es: Seq<PoolEntry>, n: SvdagNodeData) -> int {
    choose|i: int| 0 <= i < es.len() && es[i].node == n
}

impl CanonicalPool {
    pub closed spec fn entries_view(self) -> Seq<PoolEntry> {
        self.entries@
    }

    /// The pool as a map.
    pub closed spec fn as_map(self) -> Map<SvdagNodeData, (u32, TransformTag)> {
        Map::new(
            |n: SvdagNodeData| exists|i: int| 0 <= i < self.entries@.len() && self.entries@[i].node == n,
            |n: SvdagNodeData| {
                let e = self.entries@[entry_index(self.entries@, n)];
                (e.id, e.tag)
            },
        )
    }

    /// Entries are for distinct nodes and filed under their key.
    pub closed spec fn wf(self) -> bool {
        &&& self.entries@.len() < 0xFFFF_FFFF
        &&& forall|i: int, j: int| 0 <= i < j < self.entries@.len() ==> self.entries@[i].node != self.entries@[j].node
        &&& forall|i: int|
            0 <= i < self.entries@.len() ==> {
                &&& #[trigger] self.index@.contains_key(node_key(self.entries@[i].node))
                &&& self.index@[node_key(self.entries@[i].node)]@.contains(i as u32)
            }
        &&& forall|k: u64, t: int|
            #![trigger self.index@[k]@[t]]
            self.index@.contains_key(k) && 0 <= t < self.index@[k]@.len() ==> {
                &&& (self.index@[k]@[t] as int) < self.entries@.len()
                &&& node_key(self.entries@[self.index@[k]@[t] as int].node) == k
            }
    }

    pub fn new() -> (p: Self)
        ensures
            p.wf(),
            p.as_map() == Map::<SvdagNodeData, (u32, TransformTag)>::empty(),
    {
        let p = CanonicalPool { entries: Vec::new(), index: HashMap::new() };
        assert(p.as_map() =~= Map::<SvdagNodeData, (u32, TransformTag)>::empty());
        p
    }

    /// Position of the entry for `n`.
    fn find(&self, n: &SvdagNodeData) -> (r: Option<usize>)
        requires
            self.wf(),
        ensures
            r matches Some(i) ==> i < self.entries@.len() && self.entries@[i as int].node == *n,
            r is None ==> !self.as_map().contains_key(*n),
    {
        let k = crate::svdag::compute_key(n);
        match self.index.get(&k) {
            Some(bucket) => {
                let mut j: usize = 0;
                while j < bucket.len()
                    invariant
                        j <= bucket@.len(),
                        bucket@ == self.index@[k]@,
                        self.index@.contains_key(k),
                        forall|t: int| 0 <= t < j ==> self.entries@[bucket@[t] as int].node != *n,
                        self.wf(),
                    decreases bucket@.len() - j,
                {
                    let e = bucket[j] as usize;
                    assert((bucket@[j as int] as int) < self.entries@.len());
                    if crate::svdag::node_eq(&self.entries[e].node, n) {
                        return Some(e);
                    }
                    j += 1;
                }
                proof {
                    if self.as_map().contains_key(*n) {
                        let i = choose|i: int| 0 <= i < self.entries@.len() && self.entries@[i].node == *n;
                        assert(self.index@[node_key(self.entries@[i].node)]@.contains(i as u32));
                        let t = choose|t: int| 0 <= t < bucket@.len() && bucket@[t] == i as u32;
                        assert(self.entries@[bucket@[t] as int].node == *n);
                    }
                }
                None
            },
            None => {
                proof {
                    if self.as_map().contains_key(*n) {
                        let i = choose|i: int| 0 <= i < self.entries@.len() && self.entries@[i].node == *n;
                        assert(self.index@.contains_key(node_key(self.entries@[i].node)));
                    }
                }
                None
            },
        }
    }

    /// The value stored for `n`.
    pub fn get(&self, n: &SvdagNodeData) -> (r: Option<(u32, TransformTag)>)
        requires
            self.wf(),
        ensures
            r == (if self.as_map().contains_key(*n) {
                Some(self.as_map()[*n])
            } else {
                None
            }),
    {
        match self.find(n) {
            Some(i) => {
                proof {
                    let c = entry_index(self.entries@, *n);
                    assert(0 <= c < self.entries@.len() && self.entries@[c].node == *n);
                    if c != i {
                        if c < i {
                            assert(self.entries@[c].node != self.entries@[i as int].node);
                        } else {
                            assert(self.entries@[i as int].node != self.entries@[c].node);
                        }
                    }
                }
                Some((self.entries[i].id, self.entries[i].tag))
            },
            None => None,
        }
    }

    /// Stores `(id, tag)` for `n`, replacing any earlier value.
    pub fn put(&mut self, n: SvdagNodeData, id: u32, tag: TransformTag)
        requires
            old(self).wf(),
            old(self).entries_view().len() + 1 < 0xFFFF_FFFF,
        ensures
            final(self).wf(),
            final(self).as_map() == old(self).as_map().insert(n, (id, tag)),
            final(self).entries_view().len() <= old(self).entries_view().len() + 1,
    {
        let e = PoolEntry { node: n, id, tag };
        match self.find(&n) {
            Some(i) => {
                let ghost old_entries = self.entries@;
                self.entries.set(i, e);
                proof {
                    assert forall|j: int| 0 <= j < self.entries@.len() implies #[trigger] self.entries@[j].node == old_entries[j].node by {}
                    assert(self.wf());
                    assert forall|q: SvdagNodeData| #![auto] self.as_map().contains_key(q) <==> old(self).as_map().insert(n, (id, tag)).contains_key(q) by {
                        if old(self).as_map().contains_key(q) && q != n {
                            let j = choose|j: int| 0 <= j < old_entries.len() && old_entries[j].node == q;
                            assert(self.entries@[j].node == q);
                        }
                        if self.as_map().contains_key(q) && q != n {
                            let j = choose|j: int| 0 <= j < self.entries@.len() && self.entries@[j].node == q;
                            assert(old_entries[j].node == q);
                        }
                        if q == n {
                            assert(self.entries@[i as int].node == n);
                        }
                    }
                    assert forall|q: SvdagNodeData| #![auto] self.as_map().contains_key(q) implies self.as_map()[q] == old(self).as_map().insert(n, (id, tag))[q] by {
                        let c = entry_index(self.entries@, q);
                        let c0 = entry_index(old_entries, q);
                        assert(0 <= c < self.entries@.len() && self.entries@[c].node == q);
                        if q == n {
                            if c != i {
                                assert(self.entries@[c].node == old_entries[c].node);
                                if c < i {
                                    assert(old_entries[c].node != old_entries[i as int].node);
                                } else {
                                    assert(old_entries[i as int].node != old_entries[c].node);
                                }
                            }
                        } else {
                            assert(c != i);
                            assert(old_entries[c].node == q);
                            assert(0 <= c0 < old_entries.len() && old_entries[c0].node == q);
                            if c != c0 {
                                if c < c0 {
                                    assert(old_entries[c].node != old_entries[c0].node);
                                } else {
                                    assert(old_entries[c0].node != old_entries[c].node);
                                }
                            }
                        }
                    }
                    assert(self.as_map() =~= old(self).as_map().insert(n, (id, tag)));
                }
            },
            None => {
                let k = crate::svdag::compute_key(&n);
                let pos = self.entries.len() as u32;
                let ghost old_index = self.index@;
                let ghost old_entries = self.entries@;
                let mut bucket = match self.index.remove(&k) {
                    Some(b) => b,
                    None => Vec::new(),
                };
                let ghost old_bucket = bucket@;
                assert(old_index.contains_key(k) ==> old_bucket == old_index[k]@);
                assert(!old_index.contains_key(k) ==> old_bucket.len() == 0);
                bucket.push(pos);
                self.index.insert(k, bucket);
                self.entries.push(e);
                proof {
                    assert forall|j: int| 0 <= j < old_entries.len() implies old_entries[j].node != n by {
                        if old_entries[j].node == n {
                            assert(old(self).as_map().contains_key(n));
                        }
                    }
                    assert forall|a: int, b: int| 0 <= a < b < self.entries@.len() implies self.entries@[a].node != self.entries@[b].node by {
                        if b == old_entries.len() {
                            assert(self.entries@[a] == old_entries[a]);
                        } else {
                            assert(self.entries@[a] == old_entries[a]);
                            assert(self.entries@[b] == old_entries[b]);
                        }
                    }
                    assert forall|i: int|
                        0 <= i < self.entries@.len() implies {
                        &&& #[trigger] self.index@.contains_key(node_key(self.entries@[i].node))
                        &&& self.index@[node_key(self.entries@[i].node)]@.contains(i as u32)
                    } by {
                        if i < old_entries.len() {
                            assert(self.entries@[i] == old_entries[i]);
                            assert(old_index.contains_key(node_key(old_entries[i].node)));
                            assert(old_index[node_key(old_entries[i].node)]@.contains(i as u32));
                            if node_key(old_entries[i].node) == k {
                                assert(self.index@[k]@ == old_bucket.push(pos));
                                let t = choose|t: int| 0 <= t < old_bucket.len() && old_bucket[t] == i as u32;
                                assert(self.index@[k]@[t] == i as u32);
                            } else {
                                assert(self.index@[node_key(old_entries[i].node)] == old_index[node_key(old_entries[i].node)]);
                            }
                        } else {
                            assert(self.entries@[i] == e);
                            assert(self.index@[k]@ == old_bucket.push(pos));
                            assert(self.index@[k]@[old_bucket.len() as int] == pos);
                        }
                    }
                    assert forall|kk: u64, t: int|
                        #![trigger self.index@[kk]@[t]]
                        self.index@.contains_key(kk) && 0 <= t < self.index@[kk]@.len() implies {
                        &&& (self.index@[kk]@[t] as int) < self.entries@.len()
                        &&& node_key(self.entries@[self.index@[kk]@[t] as int].node) == kk
                    } by {
                        if kk == k {
                            if t < old_bucket.len() {
                                assert(self.index@[kk]@[t] == old_bucket[t]);
                            }
                        } else {
                            assert(self.index@[kk] == old_index[kk]);
                        }
                    }
                    assert forall|q: SvdagNodeData| #![auto] self.as_map().contains_key(q) <==> old(self).as_map().insert(n, (id, tag)).contains_key(q) by {
                        if old(self).as_map().contains_key(q) {
                            let j = choose|j: int| 0 <= j < old_entries.len() && old_entries[j].node == q;
                            assert(self.entries@[j].node == q);
                        }
                        if self.as_map().contains_key(q) && q != n {
                            let j = choose|j: int| 0 <= j < self.entries@.len() && self.entries@[j].node == q;
                            assert(j < old_entries.len());
                            assert(old_entries[j].node == q);
                        }
                        if q == n {
                            assert(self.entries@[old_entries.len() as int].node == n);
                        }
                    }
                    assert forall|q: SvdagNodeData| #![auto] self.as_map().contains_key(q) implies self.as_map()[q] == old(self).as_map().insert(n, (id, tag))[q] by {
                        let c = entry_index(self.entries@, q);
                        assert(0 <= c < self.entries@.len() && self.entries@[c].node == q);
                        if q == n {
                            if c < old_entries.len() {
                                assert(old_entries[c].node == n);
                            }
                        } else {
                            let c0 = entry_index(old_entries, q);
                            assert(c < old_entries.len());
                            assert(0 <= c0 < old_entries.len() && old_entries[c0].node == q);
                            if c != c0 {
                                if c < c0 {
                                    assert(old_entries[c].node != old_entries[c0].node);
                                } else {
                                    assert(old_entries[c0].node != old_entries[c].node);
                                }
                            }
                        }
                    }
                    assert(self.as_map() =~= old(self).as_map().insert(n, (id, tag)));
                }
            },
        }
    }
}

/// Index of the first tag from `idx` on whose move of `node` is in `pool`
/// (16 when there is none).
pub open spec fn first_pool_hit(pool: Map<SvdagNodeData, (u32, TransformTag)>, node: SvdagNodeData, idx: nat) -> nat
    decreases 16 - idx,
{
    if idx >= 16 {
        16
    } else if pool.contains_key(permute(node, tag_at(idx as int))) {
        idx
    } else {
        first_pool_hit(pool, node, idx + 1)
    }
}

/// Smallest-mask move of `node` over the first `i` tags in search order,
/// starting from `node` itself; ties keep the earlier one.
pub open spec fn best_upto(node: SvdagNodeData, i: nat) -> (SvdagNodeData, TransformTag)
    decreases i,
{
    if i == 0 {
        (node, identity_tag())
    } else {
        let (b, bt) = best_upto(node, (i - 1) as nat);
        let cand = permute(node, tag_at(i - 1));
        if cand.child_mask < b.child_mask {
            (cand, tag_at(i - 1))
        } else {
            (b, bt)
        }
    }
}

proof fn lemma_best_upto(node: SvdagNodeData, i: nat)
    ensures
        ({
            let (b, bt) = best_upto(node, i);
            (b == node && bt == identity_tag()) || b == permute(node, bt)
        }),
    decreases i,
{
    if i > 0 {
        lemma_best_upto(node, (i - 1) as nat);
    }
}

proof fn lemma_first_pool_hit(pool: Map<SvdagNodeData, (u32, TransformTag)>, node: SvdagNodeData, idx: nat)
    requires
        idx <= 16,
    ensures
        idx <= first_pool_hit(pool, node, idx) <= 16,
        first_pool_hit(pool, node, idx) < 16 ==> pool.contains_key(permute(node, tag_at(first_pool_hit(pool, node, idx) as int))),
    decreases 16 - idx,
{
    if idx < 16 && !pool.contains_key(permute(node, tag_at(idx as int))) {
        lemma_first_pool_hit(pool, node, idx + 1);
    }
}

/// Transform-aware DAG: a plain DAG of canonical nodes and the map from each
/// node met so far to its canonical node and tag.
#[derive(Debug, Clone)]
pub struct TransformAwareSvdag {
    pub base_dag: SparseVoxelDag,
    pub canonical_pool: CanonicalPool,
}

impl TransformAwareSvdag {
    /// Both parts well formed, and every canonical node in the pool maps to
    /// a DAG node equal to it moved by its tag.
    pub open spec fn wf(self) -> bool {
        &&& self.base_dag.wf()
        &&& self.canonical_pool.wf()
        &&& forall|n: SvdagNodeData|
            #[trigger] self.canonical_pool.as_map().contains_key(n) && canonical(n) ==> {
                let (id, tag) = self.canonical_pool.as_map()[n];
                &&& (id as int) < self.base_dag.node_seq().len()
                &&& self.base_dag.node_seq()[id as int] == permute(n, tag)
            }
    }

    pub fn new() -> (d: Self)
        ensures
            d.wf(),
            d.canonical_pool.as_map() == Map::<SvdagNodeData, (u32, TransformTag)>::empty(),
            d.base_dag.node_seq() == seq![crate::svdag::empty_leaf()],
    {
        TransformAwareSvdag { base_dag: SparseVoxelDag::new(), canonical_pool: CanonicalPool::new() }
    }

    /// `node` moved by `rot_y` quarter turns and the mirrors.
    pub fn permute_node(node: &SvdagNodeData, rot_y: u8, mx: bool, mz: bool) -> (r: SvdagNodeData)
        ensures
            r == permute(*node, TransformTag { rotate_y_90_count: rot_y, mirror_x: mx, mirror_z: mz }),
    {
        let t = TransformTag { rotate_y_90_count: rot_y, mirror_x: mx, mirror_z: mz };
        let mut m: u8 = 0;
        let mut c: Vec<u32> = vec![NO_CHILD, NO_CHILD, NO_CHILD, NO_CHILD, NO_CHILD, NO_CHILD, NO_CHILD, NO_CHILD];
        let mut i: usize = 0;
        while i < 8
            invariant
                i <= 8,
                c@.len() == 8,
                (m, c@) == permute_upto(*node, t, i as nat),
            decreases 8 - i,
        {
            proof {
                lemma_mask_test(node.child_mask, i as u8);
            }
            if node.child_mask & (1u8 << (i as u8)) != 0 {
                let (x, z) = apply_xz(i % 2 == 1, i / 4 == 1, &t);
                let y = (i / 2) % 2 == 1;
                let ni: usize = (if x { 1 } else { 0 }) + (if y { 2 } else { 0 }) + (if z { 4 } else { 0 });
                assert(ni == map_octant(t, i as int));
                m = m | (1u8 << (ni as u8));
                c.set(ni, node.children[i]);
            }
            i += 1;
        }
        SvdagNodeData { child_mask: m, children: [c[0], c[1], c[2], c[3], c[4], c[5], c[6], c[7]] }
    }

    /// The tag acting as `first` followed by `second`: the first in search
    /// order (turns, mirror X, mirror Z).
    pub fn compose_tags(first: TransformTag, second: TransformTag) -> (r: TransformTag)
        ensures
            r == composite_tag(first, second),
            composes(r, first, second),
    {
        proof {
            lemma_first_composite(first, second, 0);
            lemma_composite_tag(first, second);
        }
        let ghost fc = first_composite(first, second, 0);
        let mut idx: u8 = 0;
        while idx < 16
            invariant
                idx <= 16,
                fc == first_composite(first, second, 0),
                fc >= idx,
                composes(composite_tag(first, second), first, second),
                composite_tag(first, second).rotate_y_90_count < 4,
                forall|j: int| 0 <= j < fc ==> !composes(#[trigger] tag_at(j), first, second),
                fc < 16 ==> composes(tag_at(fc as int), first, second),
            decreases 16 - idx,
        {
            let cand = TransformTag { rotate_y_90_count: idx / 4, mirror_x: (idx / 2) % 2 == 1, mirror_z: idx % 2 == 1 };
            assert(cand == tag_at(idx as int));
            if same_action(&cand, &first, &second) {
                assert(fc == idx);
                return cand;
            }
            idx += 1;
        }
        proof {
            assert(fc < 16);
        }
        TransformTag { rotate_y_90_count: 0, mirror_x: false, mirror_z: false }
    }

    /// Finds the canonical node of `node` up to rotation and mirroring:
    /// a remembered node answers directly; otherwise the first of the 16
    /// moves (in search order) that is remembered gives its id, with the tags
    /// composed; otherwise the move with the smallest mask (first on ties,
    /// `node` itself when none is smaller) is inserted into the DAG. The
    /// answer is remembered for `node` (and the new canonical node for
    /// itself). For a node whose links are exactly its set bits, the DAG node
    /// at the returned id is `node` moved by the returned tag.
    pub fn insert_transform_aware(&mut self, node: SvdagNodeData) -> (r: (u32, TransformTag))
        requires
            old(self).wf(),
            old(self).base_dag.node_seq().len() + 1 < NO_CHILD,
            old(self).canonical_pool.entries_view().len() + 2 < 0xFFFF_FFFF,
        ensures
            final(self).wf(),
            final(self).base_dag.root() == old(self).base_dag.root(),
            crate::svdag::extends(old(self).base_dag.node_seq(), final(self).base_dag.node_seq()),
            final(self).base_dag.node_seq().len() <= old(self).base_dag.node_seq().len() + 1,
            final(self).canonical_pool.entries_view().len() <= old(self).canonical_pool.entries_view().len() + 2,
            canonical(node) ==> (r.0 as int) < final(self).base_dag.node_seq().len()
                && final(self).base_dag.node_seq()[r.0 as int] == permute(node, r.1),
            ({
                let pool = old(self).canonical_pool.as_map();
                let nodes = old(self).base_dag.node_seq();
                if pool.contains_key(node) {
                    &&& r == pool[node]
                    &&& final(self).canonical_pool.as_map() == pool
                    &&& final(self).base_dag.node_seq() == nodes
                } else if first_pool_hit(pool, node, 0) < 16 {
                    let t = tag_at(first_pool_hit(pool, node, 0) as int);
                    let (cid, ctag) = pool[permute(node, t)];
                    &&& r == (cid, composite_tag(t, ctag))
                    &&& final(self).canonical_pool.as_map() == pool.insert(node, r)
                    &&& final(self).base_dag.node_seq() == nodes
                } else {
                    let (best, bt) = best_upto(node, 16);
                    let (nodes2, id) = spec_insert(nodes, best);
                    &&& r == (id as u32, bt)
                    &&& final(self).base_dag.node_seq() == nodes2
                    &&& final(self).canonical_pool.as_map() == pool.insert(node, r).insert(best, (id as u32, identity_tag()))
                }
            }),
    {
        let ghost pool0 = self.canonical_pool.as_map();
        if let Some(hit) = self.canonical_pool.get(&node) {
            return hit;
        }
        proof {
            lemma_first_pool_hit(pool0, node, 0);
        }
        let mut best = node;
        let mut best_tag = TransformTag { rotate_y_90_count: 0, mirror_x: false, mirror_z: false };
        let mut idx: u8 = 0;
        while idx < 16
            invariant
                idx <= 16,
                self.wf(),
                self.canonical_pool.as_map() == pool0,
                self.base_dag.node_seq() == old(self).base_dag.node_seq(),
                self.base_dag.root() == old(self).base_dag.root(),
                self.canonical_pool.entries_view() == old(self).canonical_pool.entries_view(),
                old(self).canonical_pool.entries_view().len() + 2 < 0xFFFF_FFFF,
                old(self).base_dag.node_seq().len() + 1 < NO_CHILD,
                !pool0.contains_key(node),
                first_pool_hit(pool0, node, 0) == first_pool_hit(pool0, node, idx as nat),
                (best, best_tag) == best_upto(node, idx as nat),
            decreases 16 - idx,
        {
            let t = TransformTag { rotate_y_90_count: idx / 4, mirror_x: (idx / 2) % 2 == 1, mirror_z: idx % 2 == 1 };
            assert(t == tag_at(idx as int));
            let cand = Self::permute_node(&node, t.rotate_y_90_count, t.mirror_x, t.mirror_z);
            if let Some((cid, ctag)) = self.canonical_pool.get(&cand) {
                let tag = Self::compose_tags(t, ctag);
                proof {
                    lemma_permute_canonical(node, t);
                    lemma_permute_compose(node, t, ctag, tag);
                    assert(self.base_dag.node_seq()[cid as int] == permute(cand, ctag));
                }
                self.canonical_pool.put(node, cid, tag);
                return (cid, tag);
            }
            if cand.child_mask < best.child_mask {
                best = cand;
                best_tag = t;
            }
            idx += 1;
        }
        let id = self.base_dag.insert_node(best);
        proof {
            lemma_best_upto(node, 16);
            crate::svdag::lemma_spec_insert(old(self).base_dag.node_seq(), best);
            lemma_permute_canonical(node, identity_tag());
            lemma_permute_canonical(best, identity_tag());
            lemma_permute_canonical(node, best_tag);
        }
        self.canonical_pool.put(node, id, best_tag);
        self.canonical_pool.put(best, id, TransformTag { rotate_y_90_count: 0, mirror_x: false, mirror_z: false });
        (id, best_tag)
    }
}

impl Default for TransformAwareSvdag {
    fn default() -> (d: Self)
        ensures
            d.wf(),
    {
        Self::new()
    }
}

} // verus!
