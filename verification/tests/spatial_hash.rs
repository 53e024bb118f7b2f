use rsift_opt_gfx::spatial_hash::SpatialCellIndex;

/// World-unit front end as the renderer uses it: positions floored to
/// cells of `cell` units.
struct Grid {
    cell: f32,
    index: SpatialCellIndex,
}

impl Grid {
    fn new(cell: f32) -> Self {
        Grid { cell: cell.max(0.5), index: SpatialCellIndex::new() }
    }
    fn key(&self, x: f32, y: f32, z: f32) -> (i32, i32, i32) {
        ((x / self.cell).floor() as i32, (y / self.cell).floor() as i32, (z / self.cell).floor() as i32)
    }
    fn insert(&mut self, id: u32, x: f32, y: f32, z: f32) {
        let k = self.key(x, y, z);
        self.index.insert(id, k);
    }
    fn move_entity(&mut self, id: u32, x: f32, y: f32, z: f32) {
        let k = self.key(x, y, z);
        self.index.move_entity(id, k);
    }
    fn query_aabb(&self, min: [f32; 3], max: [f32; 3]) -> Vec<u32> {
        self.index.query_cells(self.key(min[0], min[1], min[2]), self.key(max[0], max[1], max[2]))
    }
    fn query_radius(&self, cx: f32, cy: f32, cz: f32, radius: f32) -> Vec<u32> {
        let r = radius.max(0.0);
        self.query_aabb([cx - r, cy - r, cz - r], [cx + r, cy + r, cz + r])
    }
}

#[test]
fn insert_query() {
    let mut g = Grid::new(8.0);
    g.insert(1, 0.0, 0.0, 0.0);
    g.insert(2, 100.0, 0.0, 0.0);
    let near = g.query_radius(0.0, 0.0, 0.0, 16.0);
    assert!(near.contains(&1));
    assert!(!near.contains(&2));
}

#[test]
fn churn_sequence_matches_hand_derived_results() {
    let mut g = Grid::new(8.0);
    g.insert(1, 0.5, 0.5, 0.5);
    g.insert(2, 8.5, 0.5, 0.5);
    g.insert(3, -0.5, 0.5, 0.5);
    assert_eq!(g.query_aabb([-1.0, 0.0, 0.0], [16.0, 1.0, 1.0]), vec![1, 2, 3], "cells (-1..2,0,0) all hit, sorted");
    g.move_entity(1, 100.5, 0.5, 0.5);
    assert_eq!(g.query_aabb([-1.0, 0.0, 0.0], [16.0, 1.0, 1.0]), vec![2, 3]);
    g.move_entity(2, 9.0, 0.5, 0.5);
    assert_eq!(g.query_aabb([-1.0, 0.0, 0.0], [16.0, 1.0, 1.0]), vec![2, 3]);
    g.insert(1, 0.5, 0.5, 0.5);
    assert_eq!(g.query_aabb([-1.0, 0.0, 0.0], [16.0, 1.0, 1.0]), vec![1, 2, 3]);
    g.index.remove(2);
    assert_eq!(g.query_aabb([-1.0, 0.0, 0.0], [16.0, 1.0, 1.0]), vec![1, 3]);
    assert_eq!(g.index.len(), 2, "locations ledger after remove");
    assert_eq!(g.query_radius(0.5, 0.5, 0.5, 1.0), vec![1, 3]);
}

#[test]
fn cell_index_reinsert_moves_between_cells() {
    let mut ix = SpatialCellIndex::new();
    ix.insert(7, (0, 0, 0));
    ix.insert(7, (5, 5, 5));
    assert_eq!(ix.len(), 1);
    assert!(ix.query_cells((0, 0, 0), (0, 0, 0)).is_empty());
    assert_eq!(ix.query_cells((5, 5, 5), (5, 5, 5)), vec![7]);
}

#[test]
fn cell_index_query_is_ascending_and_inclusive() {
    let mut ix = SpatialCellIndex::new();
    for (id, k) in [(30u32, (1, 1, 1)), (10, (-1, -1, -1)), (20, (0, 0, 0)), (40, (2, 0, 0))] {
        ix.insert(id, k);
    }
    assert_eq!(ix.query_cells((-1, -1, -1), (1, 1, 1)), vec![10, 20, 30]);
    assert!(ix.query_cells((1, 0, 0), (0, 0, 0)).is_empty());
}

#[test]
fn cell_index_extreme_cells_do_not_collide() {
    let mut ix = SpatialCellIndex::new();
    ix.insert(1, (i32::MAX, i32::MIN, 0));
    ix.insert(2, (i32::MIN, i32::MAX, 0));
    assert_eq!(ix.query_cells((i32::MAX, i32::MIN, 0), (i32::MAX, i32::MIN, 0)), vec![1]);
    assert_eq!(ix.query_cells((i32::MIN, i32::MAX, 0), (i32::MIN, i32::MAX, 0)), vec![2]);
}

#[test]
fn cell_index_remove_and_same_cell_move() {
    let mut ix = SpatialCellIndex::new();
    ix.remove(3);
    assert_eq!(ix.len(), 0);
    ix.insert(3, (4, 4, 4));
    ix.insert(4, (4, 4, 4));
    ix.move_entity(3, (4, 4, 4));
    assert_eq!(ix.query_cells((4, 4, 4), (4, 4, 4)), vec![3, 4]);
    ix.remove(3);
    assert_eq!(ix.query_cells((4, 4, 4), (4, 4, 4)), vec![4]);
    ix.remove(4);
    assert_eq!(ix.len(), 0);
}
