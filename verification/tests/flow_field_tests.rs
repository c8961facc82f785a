use micro_core::flow_field::{FlowField, UNREACHABLE};
use micro_core::flow_update::{build_app, flow_field_update_system, FlowFieldWorld, UnitSighting, WAYPOINT_KEY_OFFSET};
use micro_core::grid::GridCell;
use micro_core::overlay::apply_zone_cells;
use micro_core::registry::ZoneModifier;
use micro_core::rules::{NavigationRule, NavigationTarget};
use micro_core::visibility::FactionVisibility;

const INTERVAL: u64 = 30;
const GRID: u32 = 50;
const CELL: f32 = 20.0;

fn cell_of(x: f32, y: f32, size: f32) -> GridCell {
    GridCell::new((x / size).floor() as i32, (y / size).floor() as i32)
}

/// Mark a world position as visible for a faction.
fn mark_visible(world: &mut FlowFieldWorld<f32>, faction: u32, world_x: f32, world_y: f32) {
    let vis = &mut world.visibility;
    vis.ensure_faction(faction);
    let cx = (world_x / vis.cell_size).floor() as u32;
    let cy = (world_y / vis.cell_size).floor() as u32;
    let idx = (cy * vis.grid_width + cx) as usize;
    FactionVisibility::<f32>::set_bit(vis.visible.get_mut(&faction).unwrap(), idx);
}

/// The flow-grid cells a zone covers: within its radius of its centre cell.
fn zone_cells(zone: &ZoneModifier<f32>) -> Vec<usize> {
    let cx = (zone.x / CELL).floor() as i32;
    let cy = (zone.y / CELL).floor() as i32;
    let r = (zone.radius / CELL).ceil() as i32;
    let mut cells = Vec::new();
    for dy in -r..=r {
        for dx in -r..=r {
            let (nx, ny) = (cx + dx, cy + dy);
            if nx < 0 || ny < 0 || nx >= GRID as i32 || ny >= GRID as i32 {
                continue;
            }
            if ((dx * dx + dy * dy) as f32).sqrt() * CELL > zone.radius {
                continue;
            }
            cells.push((ny as u32 * GRID + nx as u32) as usize);
        }
    }
    cells
}

/// One run of the update with the units at the given positions.
fn update(world: &mut FlowFieldWorld<f32>, units: &[(f32, f32, u32)]) {
    let sightings: Vec<UnitSighting> = units
        .iter()
        .map(|&(x, y, f)| UnitSighting {
            faction_id: f,
            vis_cell: cell_of(x, y, world.visibility.cell_size),
            flow_cell: cell_of(x, y, CELL),
        })
        .collect();
    let waypoints: Vec<GridCell> = world
        .nav_rules
        .rules
        .iter()
        .map(|r| match r.target {
            NavigationTarget::Waypoint { x, y } => cell_of(x, y, CELL),
            NavigationTarget::Faction { .. } => GridCell::new(0, 0),
        })
        .collect();
    let cost_maps: Vec<Vec<u16>> = world
        .nav_rules
        .rules
        .iter()
        .map(|r| {
            let mut cost_map = world.terrain.hard_costs.clone();
            for zone in world.zones.zones.iter().filter(|z| z.target_faction == r.follower_faction) {
                let m = zone.cost_modifier;
                apply_zone_cells(&mut cost_map, &zone_cells(zone), |c: u16| (c as f32 + m).clamp(1.0, (u16::MAX - 1) as f32) as u16);
            }
            cost_map
        })
        .collect();
    flow_field_update_system(
        world.tick.tick,
        INTERVAL,
        &world.nav_rules,
        &world.terrain,
        &world.visibility,
        &sightings,
        &waypoints,
        &cost_maps,
        GRID,
        GRID,
        CELL,
        &mut world.registry,
    );
}

#[test]
fn test_flow_field_update_runs_at_interval() {
    let mut app = build_app(20.0f32);
    app.nav_rules.rules.push(NavigationRule { follower_faction: 0, target: NavigationTarget::Faction { faction_id: 1 } });
    let units = [(50.0, 50.0, 1)];
    mark_visible(&mut app, 0, 50.0, 50.0);

    app.tick.tick = 1;
    update(&mut app, &units);
    assert!(app.registry.fields.is_empty());

    app.tick.tick = 30;
    update(&mut app, &units);
    assert!(app.registry.fields.contains_key(&1));
}

#[test]
fn test_deduplicates_target_factions() {
    let mut app = build_app(20.0f32);
    app.nav_rules.rules.push(NavigationRule { follower_faction: 0, target: NavigationTarget::Faction { faction_id: 1 } });
    app.nav_rules.rules.push(NavigationRule { follower_faction: 2, target: NavigationTarget::Faction { faction_id: 1 } });
    let units = [(50.0, 50.0, 1)];
    mark_visible(&mut app, 0, 50.0, 50.0);
    mark_visible(&mut app, 2, 50.0, 50.0);

    app.tick.tick = 30;
    update(&mut app, &units);
    assert!(app.registry.fields.contains_key(&1), "Should have flow field for faction 1");
}

#[test]
fn test_cleans_up_stale_fields() {
    let mut app = build_app(20.0f32);
    app.registry.fields.insert(99, FlowField::new(10, 10, 20.0));

    app.tick.tick = 30;
    update(&mut app, &[]);
    assert!(!app.registry.fields.contains_key(&99), "Stale field should be removed");
}

#[test]
fn test_flow_field_update_uses_terrain() {
    let mut app = build_app(20.0f32);
    app.nav_rules.rules.push(NavigationRule { follower_faction: 0, target: NavigationTarget::Faction { faction_id: 1 } });
    let units = [(50.0, 50.0, 1)];
    mark_visible(&mut app, 0, 50.0, 50.0);
    app.terrain.set_cell(2, 2, u16::MAX, 0);

    app.tick.tick = 30;
    update(&mut app, &units);

    let field = app.registry.fields.get(&1).unwrap();
    let wall_idx = (2 * field.width + 2) as usize;
    assert_eq!(field.costs[wall_idx], u16::MAX, "Wall cell should have MAX cost in updated flow field");
}

#[test]
fn test_fog_of_war_filters_invisible_targets() {
    let mut app = build_app(20.0f32);
    app.nav_rules.rules.push(NavigationRule { follower_faction: 0, target: NavigationTarget::Faction { faction_id: 1 } });
    // Target exists but is NOT in faction 0's visible cells
    let units = [(500.0, 500.0, 1)];

    app.tick.tick = 30;
    update(&mut app, &units);

    assert!(!app.registry.fields.contains_key(&1), "Flow field should NOT exist for invisible targets");
}

#[test]
fn test_flow_field_waypoint_target() {
    let mut app = build_app(20.0f32);
    app.nav_rules.rules.push(NavigationRule { follower_faction: 0, target: NavigationTarget::Waypoint { x: 500.0, y: 500.0 } });

    app.tick.tick = 30;
    update(&mut app, &[]);

    let waypoint_key = 100_000u32; // follower 0 + 100_000
    assert!(app.registry.fields.contains_key(&waypoint_key), "Waypoint flow field should exist under key follower+100000");

    let field = app.registry.fields.get(&waypoint_key).unwrap();
    let goal_cell_x = (500.0_f32 / 20.0).floor() as usize; // 25
    let goal_cell_y = (500.0_f32 / 20.0).floor() as usize; // 25
    let goal_idx = goal_cell_y * field.width as usize + goal_cell_x;
    assert_eq!(field.costs[goal_idx], 0, "Goal cell should have cost 0");
}

// ── Own tests ──────────────────────────────────────────────────────────

#[test]
fn tick_zero_never_updates() {
    let mut app = build_app(20.0f32);
    app.nav_rules.rules.push(NavigationRule { follower_faction: 3, target: NavigationTarget::Waypoint { x: 10.0, y: 10.0 } });
    app.tick.tick = 0;
    update(&mut app, &[]);
    assert!(app.registry.fields.is_empty());
}

#[test]
fn waypoint_key_is_offset_follower() {
    let mut app = build_app(20.0f32);
    app.nav_rules.rules.push(NavigationRule { follower_faction: 7, target: NavigationTarget::Waypoint { x: 30.0, y: 30.0 } });
    app.tick.tick = 60;
    update(&mut app, &[]);
    assert_eq!(app.registry.fields.len(), 1);
    assert!(app.registry.fields.contains_key(&(7 + WAYPOINT_KEY_OFFSET)));
}

#[test]
fn visible_target_gives_zero_cost_goal_and_growing_costs() {
    let mut app = build_app(20.0f32);
    app.nav_rules.rules.push(NavigationRule { follower_faction: 0, target: NavigationTarget::Faction { faction_id: 1 } });
    let units = [(50.0, 50.0, 1)];
    mark_visible(&mut app, 0, 50.0, 50.0);
    app.tick.tick = 30;
    update(&mut app, &units);
    let field = app.registry.fields.get(&1).unwrap();
    assert_eq!(field.width, GRID);
    assert_eq!(field.costs[2 * 50 + 2], 0);
    // An orthogonal step on normal terrain costs 10, a diagonal one 14.
    assert_eq!(field.costs[2 * 50 + 3], 10);
    assert_eq!(field.costs[3 * 50 + 3], 14);
    assert_eq!(field.costs[2 * 50 + 5], 30);
    assert!(field.costs[49 * 50 + 49] < UNREACHABLE);
}

#[test]
fn target_leaving_sight_removes_field() {
    let mut app = build_app(20.0f32);
    app.nav_rules.rules.push(NavigationRule { follower_faction: 0, target: NavigationTarget::Faction { faction_id: 1 } });
    mark_visible(&mut app, 0, 50.0, 50.0);
    app.tick.tick = 30;
    update(&mut app, &[(50.0, 50.0, 1)]);
    assert!(app.registry.fields.contains_key(&1));
    app.tick.tick = 60;
    update(&mut app, &[(500.0, 500.0, 1)]);
    assert!(!app.registry.fields.contains_key(&1));
}

fn chase_rule(app: &mut FlowFieldWorld<f32>) {
    app.nav_rules.rules.push(NavigationRule { follower_faction: 0, target: NavigationTarget::Faction { faction_id: 1 } });
}

fn zone(x: f32, y: f32, radius: f32, cost_modifier: f32) -> ZoneModifier<f32> {
    ZoneModifier { target_faction: 0, x, y, radius, cost_modifier, ticks_remaining: 60 }
}

#[test]
fn test_flow_field_zone_modifier_wall_immune() {
    let mut app = build_app(20.0f32);
    chase_rule(&mut app);
    app.terrain.set_cell(2, 2, u16::MAX, 0);
    app.zones.zones.push(zone(40.0, 40.0, 100.0, -500.0));
    mark_visible(&mut app, 0, 100.0, 100.0);
    app.tick.tick = 30;
    update(&mut app, &[(100.0, 100.0, 1)]);
    let field = app.registry.fields.get(&1).unwrap();
    let wall_idx = (2 * field.width + 2) as usize;
    assert_eq!(field.costs[wall_idx], u16::MAX, "MOSES EFFECT: Wall cell should remain u16::MAX after zone modifier overlay");
}

#[test]
fn test_flow_field_zone_modifier_attract() {
    let mut app = build_app(20.0f32);
    chase_rule(&mut app);
    app.zones.zones.push(zone(100.0, 100.0, 200.0, -50.0));
    mark_visible(&mut app, 0, 500.0, 500.0);
    app.tick.tick = 30;
    update(&mut app, &[(500.0, 500.0, 1)]);
    assert!(app.registry.fields.contains_key(&1), "Flow field should exist for faction 1");
    let field = app.registry.fields.get(&1).unwrap();
    let cell_within = (5 * field.width + 5) as usize;
    let cell_outside = (30 * field.width + 30) as usize;
    assert!(field.costs[cell_within] < u16::MAX, "Cell within attraction zone should be reachable");
    assert!(field.costs[cell_outside] < u16::MAX, "Cell outside zone should be reachable");
    assert!(field.costs[cell_within] > 0, "Cell within zone should have positive non-zero cost (not the goal)");
}

#[test]
fn test_flow_field_zone_modifier_repel() {
    let mut baseline = build_app(20.0f32);
    chase_rule(&mut baseline);
    mark_visible(&mut baseline, 0, 500.0, 500.0);
    baseline.tick.tick = 30;
    update(&mut baseline, &[(500.0, 500.0, 1)]);
    let baseline_cost = {
        let field = baseline.registry.fields.get(&1).unwrap();
        field.costs[(5 * field.width + 5) as usize]
    };

    let mut app = build_app(20.0f32);
    chase_rule(&mut app);
    app.zones.zones.push(zone(100.0, 100.0, 200.0, 500.0));
    mark_visible(&mut app, 0, 500.0, 500.0);
    app.tick.tick = 30;
    update(&mut app, &[(500.0, 500.0, 1)]);
    let field = app.registry.fields.get(&1).unwrap();
    let repelled_cost = field.costs[(5 * field.width + 5) as usize];
    assert!(
        repelled_cost > baseline_cost,
        "Cell within repelling zone should have higher Dijkstra cost than baseline. Repelled: {}, Baseline: {}",
        repelled_cost,
        baseline_cost
    );
}

#[test]
fn hidden_target_changes_nothing() {
    // A visible target at (50, 50) and a hidden one far away: the field is
    // the same as with the visible target alone.
    let mut a = build_app(20.0f32);
    chase_rule(&mut a);
    mark_visible(&mut a, 0, 50.0, 50.0);
    a.tick.tick = 30;
    update(&mut a, &[(50.0, 50.0, 1)]);
    let mut b = build_app(20.0f32);
    chase_rule(&mut b);
    mark_visible(&mut b, 0, 50.0, 50.0);
    b.tick.tick = 30;
    update(&mut b, &[(900.0, 900.0, 1), (50.0, 50.0, 1), (-40.0, 10.0, 1)]);
    assert_eq!(a.registry.fields.get(&1).unwrap().costs, b.registry.fields.get(&1).unwrap().costs);
}
