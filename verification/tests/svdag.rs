use rsift_opt_gfx::svdag::{SparseVoxelDag, SvdagNodeData};

fn assert_dag_invariants(dag: &SparseVoxelDag) {
    assert_eq!(
        dag.nodes[0],
        SvdagNodeData { child_mask: 0, children: [u32::MAX; 8] },
        "id 0 is the empty leaf"
    );
    for (idx, n) in dag.nodes.iter().enumerate() {
        let all_max = n.children.iter().all(|&c| c == u32::MAX);
        if all_max {
            assert!(n.child_mask <= 1, "leaf-shaped node {idx} has mask {}", n.child_mask);
            continue;
        }
        for i in 0..8 {
            let bit = (n.child_mask >> i) & 1 == 1;
            let linked = n.children[i] != u32::MAX;
            assert_eq!(bit, linked, "mask bit and child link agree (node {idx}, octant {i})");
            if linked {
                assert!((n.children[i] as usize) < dag.nodes.len(), "valid child id (node {idx})");
            }
        }
    }
}

#[test]
fn test_svdag_deduplication() {
    let mut dag = SparseVoxelDag::new();
    let mut vol = [[[false; 16]; 16]; 16];
    for x in 0..8 {
        for y in 0..8 {
            for z in 0..8 {
                vol[x][y][z] = true;
                vol[x + 8][y + 8][z + 8] = true;
            }
        }
    }
    let root = dag.build_from_volume(&vol);
    assert!(root != u32::MAX);
    assert!(dag.node_count() < 300, "Identical subtrees must be deduplicated across DAG");
}

#[test]
fn empty_volume_keeps_base_root_and_updates_root_id() {
    let mut dag = SparseVoxelDag::new();
    assert_eq!(dag.root_id, 0);
    assert_eq!(dag.node_count(), 1);
    let root = dag.build_from_volume(&[[[false; 16]; 16]; 16]);
    assert_eq!(root, 0);
    assert_eq!(dag.root_id, 0);
    assert_eq!(dag.node_count(), 1);
    assert_dag_invariants(&dag);
}

#[test]
fn single_voxel_exact_chain() {
    let mut dag = SparseVoxelDag::new();
    let mut vol = [[[false; 16]; 16]; 16];
    vol[0][0][0] = true;
    let root = dag.build_from_volume(&vol);
    assert_eq!(dag.node_count(), 6);
    assert_eq!(root, 5);
    assert_eq!(dag.root_id, 5);
    let m = u32::MAX;
    assert_eq!(dag.nodes[1], SvdagNodeData { child_mask: 1, children: [m; 8] });
    assert_eq!(dag.nodes[2], SvdagNodeData { child_mask: 1, children: [1, m, m, m, m, m, m, m] });
    assert_eq!(dag.nodes[3], SvdagNodeData { child_mask: 1, children: [2, m, m, m, m, m, m, m] });
    assert_eq!(dag.nodes[4], SvdagNodeData { child_mask: 1, children: [3, m, m, m, m, m, m, m] });
    assert_eq!(dag.nodes[5], SvdagNodeData { child_mask: 1, children: [4, m, m, m, m, m, m, m] });
    assert_dag_invariants(&dag);
}

#[test]
fn all_solid_exact_dedup_chain() {
    let mut dag = SparseVoxelDag::new();
    let vol = [[[true; 16]; 16]; 16];
    let root = dag.build_from_volume(&vol);
    assert_eq!(dag.node_count(), 6);
    assert_eq!(root, 5);
    assert_eq!(dag.root_id, 5);
    let m = u32::MAX;
    assert_eq!(dag.nodes[1], SvdagNodeData { child_mask: 1, children: [m; 8] });
    assert_eq!(dag.nodes[2], SvdagNodeData { child_mask: 255, children: [1; 8] });
    assert_eq!(dag.nodes[3], SvdagNodeData { child_mask: 255, children: [2; 8] });
    assert_eq!(dag.nodes[4], SvdagNodeData { child_mask: 255, children: [3; 8] });
    assert_eq!(dag.nodes[5], SvdagNodeData { child_mask: 255, children: [4; 8] });
    assert_dag_invariants(&dag);
}

#[test]
fn two_adjacent_voxels_share_parent_with_mask3() {
    let mut dag = SparseVoxelDag::new();
    let mut vol = [[[false; 16]; 16]; 16];
    vol[0][0][0] = true;
    vol[1][0][0] = true;
    let root = dag.build_from_volume(&vol);
    assert_eq!(dag.node_count(), 6);
    assert_eq!((root, dag.root_id), (5, 5));
    let m = u32::MAX;
    assert_eq!(dag.nodes[2], SvdagNodeData { child_mask: 3, children: [1, 1, m, m, m, m, m, m] });
    assert_eq!(dag.nodes[3], SvdagNodeData { child_mask: 1, children: [2, m, m, m, m, m, m, m] });
    assert_dag_invariants(&dag);
}

#[test]
fn build_is_deterministic_across_instances() {
    let mut vol = [[[false; 16]; 16]; 16];
    for x in 0..16 {
        for y in 0..16 {
            for z in 0..16 {
                vol[x][y][z] = (x + y + z) % 3 == 0;
            }
        }
    }
    let mut a = SparseVoxelDag::new();
    let mut b = SparseVoxelDag::new();
    let ra = a.build_from_volume(&vol);
    let rb = b.build_from_volume(&vol);
    assert_eq!(ra, rb);
    assert_eq!(a.nodes, b.nodes);
    assert_dag_invariants(&a);
}

/// Reads the DAG back as a volume.
fn decode(dag: &SparseVoxelDag, id: u32, size: usize, x: usize, y: usize, z: usize, out: &mut [[[bool; 16]; 16]; 16]) {
    let n = dag.nodes[id as usize];
    if size == 1 {
        out[x][y][z] = n.child_mask != 0;
        return;
    }
    let h = size / 2;
    for i in 0..8 {
        if (n.child_mask >> i) & 1 == 1 {
            decode(dag, n.children[i], h, x + (i & 1) * h, y + ((i >> 1) & 1) * h, z + ((i >> 2) & 1) * h, out);
        }
    }
}

#[test]
fn decoded_dag_reproduces_volume() {
    let mut vol = [[[false; 16]; 16]; 16];
    for x in 0..16 {
        for y in 0..16 {
            for z in 0..16 {
                vol[x][y][z] = (x * 7 + y * 3 + z) % 5 == 1 || y < 3;
            }
        }
    }
    let mut dag = SparseVoxelDag::default();
    let root = dag.build_from_volume(&vol);
    let mut out = [[[false; 16]; 16]; 16];
    decode(&dag, root, 16, 0, 0, 0, &mut out);
    assert_eq!(out, vol);
    // A second build shares all nodes already present.
    let before = dag.node_count();
    assert_eq!(dag.build_from_volume(&vol), root);
    assert_eq!(dag.node_count(), before);
    assert_eq!(dag.insert_node(SvdagNodeData { child_mask: 0, children: [u32::MAX; 8] }), 0);
}
