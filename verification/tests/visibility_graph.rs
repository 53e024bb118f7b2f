use rsift_opt_gfx::visibility_graph::{ChunkNode, VisibilityGraph};

fn n(x: i32, z: i32) -> ChunkNode {
    ChunkNode { x, z }
}

fn grid(g: i32) -> VisibilityGraph {
    let mut vg = VisibilityGraph::new();
    for z in 0..g {
        for x in 0..g {
            if x + 1 < g {
                vg.add_edge(n(x, z), n(x + 1, z));
            }
            if z + 1 < g {
                vg.add_edge(n(x, z), n(x, z + 1));
            }
        }
    }
    vg
}

fn sorted(v: Vec<ChunkNode>) -> Vec<ChunkNode> {
    let mut v = v;
    v.sort_by_key(|c| (c.x, c.z));
    v
}

#[test]
fn flood_fill_corner_max_dist_matches_manhattan_set() {
    let mut vg = grid(4);
    let got = vg.flood_fill(n(0, 0), 2, |_| false);
    let expect = vec![n(0, 0), n(1, 0), n(2, 0), n(0, 1), n(1, 1), n(0, 2)];
    assert_eq!(sorted(got), sorted(expect));
}

#[test]
fn flood_fill_max_dist_zero_returns_start_only() {
    let mut vg = grid(3);
    let got = vg.flood_fill(n(1, 1), 0, |_| false);
    assert_eq!(got, vec![n(1, 1)]);
}

#[test]
fn opaque_node_blocks_result_and_propagation() {
    let mut vg = grid(4);
    let opaque = |c: ChunkNode| c == n(1, 0);
    let got = vg.flood_fill(n(0, 0), 2, opaque);
    let expect = vec![n(0, 0), n(0, 1), n(0, 2), n(1, 1)];
    assert_eq!(sorted(got), sorted(expect));
}

#[test]
fn opaque_start_node_is_still_included() {
    let mut vg = grid(2);
    let got = vg.flood_fill(n(0, 0), 0, |_| true);
    assert_eq!(got, vec![n(0, 0)]);
}

#[test]
fn is_visible_reflects_flood_cache() {
    let mut vg = grid(3);
    assert!(!vg.is_visible(n(0, 0), n(0, 0)));
    let _ = vg.flood_fill(n(0, 0), 2, |_| false);
    assert!(vg.is_visible(n(0, 0), n(0, 0)));
    assert!(vg.is_visible(n(0, 0), n(1, 1)));
    assert!(!vg.is_visible(n(0, 0), n(2, 2)));
    assert!(!vg.is_visible(n(1, 1), n(0, 0)));
    let _ = vg.flood_fill(n(2, 2), 1, |_| false);
    assert!(vg.is_visible(n(2, 2), n(1, 2)));
    assert!(!vg.is_visible(n(2, 2), n(0, 0)));
}

#[test]
fn flood_fill_on_disconnected_graph_yields_start_component_only() {
    let mut vg = VisibilityGraph::new();
    vg.add_edge(n(0, 0), n(1, 0));
    let got = vg.flood_fill(n(0, 0), 8, |_| false);
    assert_eq!(sorted(got), sorted(vec![n(0, 0), n(1, 0)]));
}

#[test]
fn negative_distance_reaches_nothing_and_extreme_coordinates_stay_distinct() {
    let mut vg = VisibilityGraph::new();
    vg.add_edge(n(i32::MIN, i32::MAX), n(i32::MAX, i32::MIN));
    assert!(vg.flood_fill(n(i32::MIN, i32::MAX), -1, |_| false).is_empty());
    let got = vg.flood_fill(n(i32::MIN, i32::MAX), 1, |_| false);
    assert_eq!(got, vec![n(i32::MIN, i32::MAX), n(i32::MAX, i32::MIN)]);
    assert!(vg.is_visible(n(i32::MIN, i32::MAX), n(i32::MAX, i32::MIN)));
    assert!(!vg.is_visible(n(i32::MIN, i32::MAX), n(i32::MIN, i32::MIN)));
}

#[test]
fn flood_fill_lists_start_first() {
    let mut vg = grid(4);
    let got = vg.flood_fill(n(2, 1), 3, |_| false);
    assert_eq!(got[0], n(2, 1));
    assert!(vg.flood_fill(n(0, 0), -1, |_| false).is_empty());
}
