use micro_core::grid::GridCell;
use micro_core::terrain::TerrainGrid;
use micro_core::vision::{update_visibility, VisionSource};
use micro_core::visibility::FactionVisibility;

type Vis = FactionVisibility<f32>;

// ── Terrain ────────────────────────────────────────────────────────────

#[test]
fn test_terrain_default_costs_are_100() {
    let grid = TerrainGrid::new(5, 5, 20.0f32);
    assert_eq!(grid.hard_costs.len(), 25);
    assert_eq!(grid.soft_costs.len(), 25);
    assert!(grid.hard_costs.iter().all(|&c| c == 100), "All default hard costs should be 100");
    assert!(grid.soft_costs.iter().all(|&c| c == 100), "All default soft costs should be 100");
}

#[test]
fn test_terrain_wall_returns_max() {
    let mut grid = TerrainGrid::new(5, 5, 20.0f32);
    grid.set_cell(2, 2, u16::MAX, 0);
    assert_eq!(grid.get_hard_cost(GridCell::new(2, 2)), u16::MAX, "Hard cost should be u16::MAX");
}

#[test]
fn test_terrain_oob_returns_wall() {
    let grid = TerrainGrid::new(5, 5, 20.0f32);
    assert_eq!(grid.get_hard_cost(GridCell::new(-1, 0)), u16::MAX, "OOB hard cost should be u16::MAX");
    assert_eq!(grid.get_hard_cost(GridCell::new(5, 0)), u16::MAX, "OOB hard cost should be u16::MAX");
}

#[test]
fn test_terrain_oob_returns_frozen() {
    let grid = TerrainGrid::new(5, 5, 20.0f32);
    assert_eq!(grid.get_soft_cost(GridCell::new(-1, 0)), 0, "OOB soft cost should be 0");
    assert_eq!(grid.get_soft_cost(GridCell::new(0, 5)), 0, "OOB soft cost should be 0");
}

#[test]
fn test_terrain_hard_obstacles_filters_walls() {
    let mut grid = TerrainGrid::new(5, 5, 20.0f32);
    grid.set_cell(1, 1, u16::MAX, 0);
    grid.set_cell(2, 2, u16::MAX, 0);
    grid.set_cell(3, 3, u16::MAX, 0);
    let obstacles = grid.hard_obstacles();
    assert_eq!(obstacles.len(), 3, "Should return exactly 3 obstacles");
    assert!(obstacles.contains(&GridCell::new(1, 1)), "Should contain (1, 1)");
    assert!(obstacles.contains(&GridCell::new(2, 2)), "Should contain (2, 2)");
    assert!(obstacles.contains(&GridCell::new(3, 3)), "Should contain (3, 3)");
}

#[test]
fn test_terrain_set_cell_bounds_check() {
    let mut grid = TerrainGrid::new(5, 5, 20.0f32);
    grid.set_cell(5, 5, 200, 50); // OOB, should not panic
}

#[test]
fn test_terrain_reset_clears_all() {
    let mut grid = TerrainGrid::new(5, 5, 20.0f32);
    grid.set_cell(1, 1, u16::MAX, 0);
    grid.set_cell(2, 2, 200, 30);
    grid.reset();
    assert!(grid.hard_costs.iter().all(|&c| c == 100), "All hard costs should be reset to 100");
    assert!(grid.soft_costs.iter().all(|&c| c == 100), "All soft costs should be reset to 100");
}

#[test]
fn set_cell_writes_only_its_cell() {
    let mut grid = TerrainGrid::new(4, 3, 1.0f32);
    grid.set_cell(3, 2, 250, 40);
    assert_eq!(grid.get_hard_cost(GridCell::new(3, 2)), 250);
    assert_eq!(grid.get_soft_cost(GridCell::new(3, 2)), 40);
    assert_eq!(grid.hard_costs[2 * 4 + 3], 250);
    assert_eq!(grid.hard_costs.iter().filter(|&&c| c != 100).count(), 1);
    assert_eq!(grid.get_soft_cost(GridCell::new(2, 2)), 100);
}

#[test]
fn obstacles_come_in_row_major_order() {
    let mut grid = TerrainGrid::new(3, 3, 1.0f32);
    grid.set_cell(2, 0, u16::MAX, 0);
    grid.set_cell(0, 2, u16::MAX, 0);
    grid.set_cell(1, 0, u16::MAX, 0);
    assert_eq!(grid.hard_obstacles(), vec![GridCell::new(1, 0), GridCell::new(2, 0), GridCell::new(0, 2)]);
    assert!(grid.in_bounds(GridCell::new(2, 2)));
    assert!(!grid.in_bounds(GridCell::new(3, 0)));
}

// ── Bit-packed grids ───────────────────────────────────────────────────

#[test]
fn test_bitpack_len_50x50() {
    assert_eq!(Vis::bitpack_len(50, 50), 79);
}

#[test]
fn test_bitpack_len_edge_case_32() {
    assert_eq!(Vis::bitpack_len(4, 8), 1);
}

#[test]
fn test_set_get_bit_roundtrip() {
    let mut grid = vec![0u32; Vis::bitpack_len(50, 50)];
    Vis::set_bit(&mut grid, 0);
    Vis::set_bit(&mut grid, 31);
    Vis::set_bit(&mut grid, 32);
    Vis::set_bit(&mut grid, 2499);

    assert!(Vis::get_bit(&grid, 0));
    assert!(Vis::get_bit(&grid, 31));
    assert!(Vis::get_bit(&grid, 32));
    assert!(Vis::get_bit(&grid, 2499));

    assert!(!Vis::get_bit(&grid, 1));
    assert!(!Vis::get_bit(&grid, 30));
    assert!(!Vis::get_bit(&grid, 33));
    assert!(!Vis::get_bit(&grid, 2498));
}

#[test]
fn test_clear_all_zeros_grid() {
    let mut grid = vec![u32::MAX; 79];
    Vis::clear_all(&mut grid);
    for &val in grid.iter() {
        assert_eq!(val, 0);
    }
}

#[test]
fn test_ensure_faction_creates_grids() {
    let mut vis = Vis::new(50, 50, 20.0);
    vis.ensure_faction(0);
    assert!(vis.explored.contains_key(&0));
    assert!(vis.visible.contains_key(&0));
    assert_eq!(vis.explored.get(&0).unwrap().len(), 79);
    assert_eq!(vis.visible.get(&0).unwrap().len(), 79);
}

#[test]
fn test_ensure_faction_idempotent() {
    let mut vis = Vis::new(50, 50, 20.0);
    vis.ensure_faction(0);
    Vis::set_bit(vis.explored.get_mut(&0).unwrap(), 10);
    vis.ensure_faction(0);
    assert!(Vis::get_bit(vis.explored.get(&0).unwrap(), 10));
}

#[test]
fn test_reset_explored_clears_all_factions() {
    let mut vis = Vis::new(50, 50, 20.0);
    vis.ensure_faction(0);
    vis.ensure_faction(1);
    vis.ensure_faction(2);
    Vis::set_bit(vis.explored.get_mut(&0).unwrap(), 10);
    Vis::set_bit(vis.explored.get_mut(&1).unwrap(), 20);
    Vis::set_bit(vis.explored.get_mut(&2).unwrap(), 30);
    vis.reset_explored();
    assert!(!Vis::get_bit(vis.explored.get(&0).unwrap(), 10));
    assert!(!Vis::get_bit(vis.explored.get(&1).unwrap(), 20));
    assert!(!Vis::get_bit(vis.explored.get(&2).unwrap(), 30));
}

#[test]
fn set_bit_leaves_other_words_alone() {
    let mut grid = vec![0u32; 3];
    Vis::set_bit(&mut grid, 33);
    assert_eq!(grid, vec![0, 2, 0]);
    Vis::set_bit(&mut grid, 33);
    assert_eq!(grid, vec![0, 2, 0]);
}

// ── Visibility update ──────────────────────────────────────────────────

/// A unit's vision source: its cell and its radius in cells.
fn source(x: f32, y: f32, faction: u32, vision: f32, cell_size: f32) -> VisionSource {
    VisionSource {
        faction_id: faction,
        cell_x: (x / cell_size).floor() as i32,
        cell_y: (y / cell_size).floor() as i32,
        cell_radius: (vision / cell_size).ceil() as i32,
    }
}

#[test]
fn test_visibility_clears_visible_each_tick() {
    let mut vis = Vis::new(5, 5, 20.0);
    vis.ensure_faction(0);
    Vis::set_bit(vis.visible.get_mut(&0).unwrap(), 0);
    let terrain = TerrainGrid::new(5, 5, 20.0f32);
    update_visibility(&mut vis, &terrain, &vec![]);
    assert!(!Vis::get_bit(vis.visible.get(&0).unwrap(), 0), "Visible grid should be cleared");
}

#[test]
fn test_visibility_wall_blocks_vision() {
    let mut vis = Vis::new(5, 5, 20.0);
    let mut terrain = TerrainGrid::new(5, 5, 20.0f32);
    terrain.set_cell(1, 0, u16::MAX, 0);
    let sources = vec![source(10.0, 10.0, 0, 40.0, 20.0)];
    update_visibility(&mut vis, &terrain, &sources);
    let vis_grid = vis.visible.get(&0).unwrap();
    assert!(Vis::get_bit(vis_grid, 0), "(0,0) should be visible");
    assert!(!Vis::get_bit(vis_grid, 1), "Wall at (1,0) should not be visible");
    assert!(!Vis::get_bit(vis_grid, 1), "Wall at (1,0) should not be visible");
}

#[test]
fn test_visibility_explored_persists() {
    let mut vis = Vis::new(5, 5, 20.0);
    let terrain = TerrainGrid::new(5, 5, 20.0f32);
    update_visibility(&mut vis, &terrain, &vec![source(10.0, 10.0, 0, 20.0, 20.0)]);
    assert!(Vis::get_bit(vis.explored.get(&0).unwrap(), 0), "(0,0) should be explored");

    update_visibility(&mut vis, &terrain, &vec![source(80.0, 80.0, 0, 20.0, 20.0)]);
    assert!(Vis::get_bit(vis.explored.get(&0).unwrap(), 0), "(0,0) should remain explored");
    assert!(!Vis::get_bit(vis.visible.get(&0).unwrap(), 0), "(0,0) should no longer be visible");
}

#[test]
fn test_visibility_cell_deduplication() {
    let mut vis = Vis::new(5, 5, 20.0);
    let terrain = TerrainGrid::new(5, 5, 20.0f32);
    let sources: Vec<VisionSource> = (0..100).map(|_| source(10.0, 10.0, 0, 20.0, 20.0)).collect();
    update_visibility(&mut vis, &terrain, &sources);
    assert!(Vis::get_bit(vis.visible.get(&0).unwrap(), 0), "(0,0) should be visible");
}

#[test]
fn test_visibility_multi_faction_independent() {
    let mut vis = Vis::new(5, 5, 20.0);
    let terrain = TerrainGrid::new(5, 5, 20.0f32);
    let sources = vec![source(10.0, 10.0, 0, 20.0, 20.0), source(90.0, 90.0, 1, 20.0, 20.0)];
    update_visibility(&mut vis, &terrain, &sources);
    let vis_0 = vis.visible.get(&0).unwrap();
    let vis_1 = vis.visible.get(&1).unwrap();
    let idx_0_0 = 0;
    let idx_4_4 = 4 * 5 + 4;
    assert!(Vis::get_bit(vis_0, idx_0_0));
    assert!(!Vis::get_bit(vis_0, idx_4_4));
    assert!(Vis::get_bit(vis_1, idx_4_4));
    assert!(!Vis::get_bit(vis_1, idx_0_0));
}

#[test]
fn vision_is_a_disc_of_cells() {
    let mut vis = Vis::new(7, 7, 1.0);
    let terrain = TerrainGrid::new(7, 7, 1.0f32);
    update_visibility(&mut vis, &terrain, &vec![VisionSource { faction_id: 3, cell_x: 3, cell_y: 3, cell_radius: 2 }]);
    let g = vis.visible.get(&3).unwrap();
    // dx*dx + dy*dy <= 4: (3+2,3) yes, (3+2,3+1) no, (3+1,3+1) yes.
    assert!(Vis::get_bit(g, 3 * 7 + 5));
    assert!(!Vis::get_bit(g, 4 * 7 + 5));
    assert!(Vis::get_bit(g, 4 * 7 + 4));
    assert!(!Vis::get_bit(g, 0));
}
