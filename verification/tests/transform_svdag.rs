use rsift_opt_gfx::svdag::SvdagNodeData;
use rsift_opt_gfx::transform_svdag::{TransformAwareSvdag, TransformTag};

fn node_at(octant: usize, child: u32) -> SvdagNodeData {
    let mut children = [u32::MAX; 8];
    children[octant] = child;
    SvdagNodeData { child_mask: 1 << octant, children }
}

#[test]
fn test_transform_aware_canonicalization() {
    let mut tdag = TransformAwareSvdag::new();
    let n1 = SvdagNodeData {
        child_mask: 0b0000_0001,
        children: [1, u32::MAX, u32::MAX, u32::MAX, u32::MAX, u32::MAX, u32::MAX, u32::MAX],
    };
    let n2 = SvdagNodeData {
        child_mask: 0b0000_0010,
        children: [u32::MAX, 1, u32::MAX, u32::MAX, u32::MAX, u32::MAX, u32::MAX, u32::MAX],
    };
    let (id1, _) = tdag.insert_transform_aware(n1);
    let (id2, _) = tdag.insert_transform_aware(n2);
    assert_eq!(id1, id2, "Rotated/mirrored subtrees must canonicalize to same node ID");
}

#[test]
fn composed_tag_maps_input_to_canonical_on_intermediate_pool_hit() {
    let mut tdag = TransformAwareSvdag::new();
    let n1 = node_at(5, 42);
    let (id1, tag1) = tdag.insert_transform_aware(n1.clone());
    assert_eq!((tag1.rotate_y_90_count, tag1.mirror_x, tag1.mirror_z), (0, true, true));
    let n2 = node_at(1, 42);
    let (id2, tag2) = tdag.insert_transform_aware(n2.clone());
    assert_eq!(id1, id2);
    assert_eq!((tag2.rotate_y_90_count, tag2.mirror_x, tag2.mirror_z), (0, true, false));
    let canonical = tdag.base_dag.nodes.get(id2 as usize).expect("canonical node exists");
    assert_eq!(canonical.child_mask, 1);
    let applied = TransformAwareSvdag::permute_node(&n2, 0, true, false);
    assert_eq!(applied.child_mask, canonical.child_mask);
    assert_eq!(applied.children, canonical.children);
}

#[test]
fn compose_tags_group_closure_axioms() {
    for (mx, mz) in [(true, false), (false, true), (true, true)] {
        let m = TransformTag { rotate_y_90_count: 0, mirror_x: mx, mirror_z: mz };
        let c = TransformAwareSvdag::compose_tags(m, m);
        assert_eq!((c.rotate_y_90_count, c.mirror_x, c.mirror_z), (0, false, false));
    }
    let r90 = TransformTag { rotate_y_90_count: 1, mirror_x: false, mirror_z: false };
    let r180 = TransformAwareSvdag::compose_tags(r90, r90);
    assert_eq!((r180.rotate_y_90_count, r180.mirror_x, r180.mirror_z), (0, true, true));
    let ident = TransformAwareSvdag::compose_tags(r180, r180);
    assert_eq!((ident.rotate_y_90_count, ident.mirror_x, ident.mirror_z), (0, false, false));
}

#[test]
fn repeated_insert_is_deterministic_and_contract_preserving() {
    let mut tdag = TransformAwareSvdag::new();
    let n = node_at(6, 7);
    let first = tdag.insert_transform_aware(n.clone());
    let second = tdag.insert_transform_aware(n.clone());
    assert_eq!(first.0, second.0);
    assert_eq!(
        (first.1.rotate_y_90_count, first.1.mirror_x, first.1.mirror_z),
        (second.1.rotate_y_90_count, second.1.mirror_x, second.1.mirror_z)
    );
    assert_eq!((first.1.rotate_y_90_count, first.1.mirror_x, first.1.mirror_z), (0, false, true));
    let canonical = &tdag.base_dag.nodes[first.0 as usize];
    assert_eq!(canonical.child_mask, 0b0000_0100);
    assert_eq!(canonical.child_mask.count_ones(), 1);
    assert_eq!(canonical.children[2], 7);
}

#[test]
fn returned_tag_always_maps_input_onto_its_canonical_node() {
    let mut tdag = TransformAwareSvdag::default();
    for mask in 1u32..256 {
        let mut children = [u32::MAX; 8];
        for o in 0..8 {
            if mask & (1 << o) != 0 {
                children[o] = 100 + o as u32;
            }
        }
        let node = SvdagNodeData { child_mask: mask as u8, children };
        let (id, tag) = tdag.insert_transform_aware(node);
        let moved = TransformAwareSvdag::permute_node(&node, tag.rotate_y_90_count, tag.mirror_x, tag.mirror_z);
        assert_eq!(tdag.base_dag.nodes[id as usize], moved, "mask {mask}");
    }
    // Composition matches applying the tags one after the other.
    let n = node_at(3, 9);
    let a = TransformTag { rotate_y_90_count: 3, mirror_x: true, mirror_z: false };
    let b = TransformTag { rotate_y_90_count: 6, mirror_x: false, mirror_z: true };
    let c = TransformAwareSvdag::compose_tags(a, b);
    let ab = TransformAwareSvdag::permute_node(
        &TransformAwareSvdag::permute_node(&n, a.rotate_y_90_count, a.mirror_x, a.mirror_z),
        b.rotate_y_90_count,
        b.mirror_x,
        b.mirror_z,
    );
    assert_eq!(ab, TransformAwareSvdag::permute_node(&n, c.rotate_y_90_count, c.mirror_x, c.mirror_z));
    assert_eq!(TransformTag::default(), TransformTag { rotate_y_90_count: 0, mirror_x: false, mirror_z: false });
}
