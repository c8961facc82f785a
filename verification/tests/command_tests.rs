use micro_core::combat::{is_target, rule_fires, under_target_cap, RuleFilter};
use micro_core::commands::{
    apply_ws_command, find_entity, initial_spawn_plan, kill_targets, next_id_after_load, spawn_wave, step_count,
    ActiveFogFaction, EntityRecord, FactionBehaviorMode, FactionMode, FogRequest, LoadedEntity, NextEntityId,
    SpawnCandidate, TerrainCellEdit, TerrainSnapshot, WorldEdit, WsAction, WsResources,
};
use micro_core::directive::{LatestDirective, MacroDirective};
use micro_core::grid::GridCell;
use micro_core::overlay::apply_zone_cells;
use micro_core::registry::{
    buff_tick_system, speed_buff_tick_system, zone_tick_system, ActiveBuffGroup, ActiveZoneModifiers,
    AggroMaskRegistry, BuffConfig, FactionBuffs, FactionSpeedBuffs, ZoneModifier,
};
use micro_core::sim::{
    drain_removed, flow_field_due, in_sensor_shard, override_countdown, recently_damaged, step_tick_system, sync_plan,
    tick_counter_system, RemovalEvents, SimPaused, SimStepRemaining, TickCounter,
};
use micro_core::terrain::TerrainGrid;
use micro_core::vectorizer::{build_count_maps, summary_counts, CellUnit};

fn resources() -> WsResources<f32> {
    WsResources {
        next_id: NextEntityId(1),
        paused: SimPaused(false),
        speed: 1.0,
        step: SimStepRemaining(0),
        behavior: FactionBehaviorMode::default(),
        terrain: TerrainGrid::new(50, 50, 20.0),
        fog: Some(ActiveFogFaction(None)),
        removal: RemovalEvents::default(),
        zones: Some(ActiveZoneModifiers::default()),
        directive: Some(LatestDirective::default()),
        aggro: Some(AggroMaskRegistry::default()),
    }
}

fn candidate(x: f32, y: f32, cell_size: f32) -> SpawnCandidate<f32> {
    SpawnCandidate { x, y, cell: GridCell::new((x / cell_size).floor() as i32, (y / cell_size).floor() as i32) }
}

fn spawned(edits: &[WorldEdit<f32>]) -> usize {
    edits.iter().filter(|e| matches!(e, WorldEdit::Spawn(_))).count()
}

// ── Visualizer commands ────────────────────────────────────────────────

#[test]
fn test_fibonacci_spiral_skips_walls() {
    let mut res = resources();
    let cell_x = 50.0 / 20.0;
    let cell_y = 50.0 / 20.0;
    res.terrain.set_cell(cell_x as u32, cell_y as u32, u16::MAX, 0);
    let edits = apply_ws_command(&mut res, &vec![], WsAction::SpawnWave { faction_id: 0, candidates: vec![candidate(50.0, 50.0, 20.0)] });
    assert_eq!(spawned(&edits), 0, "Should have skipped spawning inside wall");
}

#[test]
fn test_set_terrain_updates_grid() {
    let mut res = resources();
    let cells = vec![
        TerrainCellEdit { x: 10, y: 10, hard: u16::MAX as u64, soft: 0 },
        TerrainCellEdit { x: 11, y: 10, hard: 200, soft: 50 },
    ];
    apply_ws_command(&mut res, &vec![], WsAction::SetTerrain { cells });
    assert_eq!(res.terrain.get_hard_cost(GridCell::new(10, 10)), u16::MAX);
    assert_eq!(res.terrain.get_hard_cost(GridCell::new(11, 10)), 200);
    assert_eq!(res.terrain.get_soft_cost(GridCell::new(11, 10)), 50);
}

#[test]
fn test_clear_terrain_resets_all() {
    let mut res = resources();
    res.terrain.set_cell(5, 5, u16::MAX, 0);
    apply_ws_command(&mut res, &vec![], WsAction::ClearTerrain);
    assert!(res.terrain.hard_costs.iter().all(|&c| c == 100));
    assert!(res.terrain.soft_costs.iter().all(|&c| c == 100));
}

#[test]
fn test_load_scenario_updates_next_entity_id() {
    let mut res = resources();
    res.next_id.0 = 1;
    let loaded = vec![
        LoadedEntity { id: 1, x: 10.0, y: 10.0, faction_id: 0 },
        LoadedEntity { id: 50, x: 20.0, y: 20.0, faction_id: 1 },
    ];
    let edits = apply_ws_command(&mut res, &vec![], WsAction::LoadScenario { terrain: None, entities: loaded });
    assert_eq!(res.next_id.0, 51);
    let mut count = 0;
    for e in edits.iter() {
        if let WorldEdit::Spawn(o) = e {
            count += 1;
            assert!(o.id == 1 || o.id == 50);
        }
    }
    assert_eq!(count, 2);
}

#[test]
fn test_step_tick_system_decrements_and_pauses() {
    let mut step = SimStepRemaining(2);
    let mut paused = SimPaused(false);
    step_tick_system(&mut step, &mut paused);
    assert_eq!(step.0, 1);
    assert_eq!(paused.0, false);
    step_tick_system(&mut step, &mut paused);
    assert_eq!(step.0, 0);
    assert_eq!(paused.0, true);
}

#[test]
fn toggle_sim_flips_and_flips_back() {
    let mut res = resources();
    apply_ws_command(&mut res, &vec![], WsAction::ToggleSim);
    assert!(res.paused.0);
    apply_ws_command(&mut res, &vec![], WsAction::ToggleSim);
    assert!(!res.paused.0);
}

#[test]
fn step_count_defaults_to_one_and_truncates() {
    assert_eq!(step_count(None), 1);
    assert_eq!(step_count(Some(5)), 5);
    assert_eq!(step_count(Some((1u64 << 32) + 3)), 3);
    let mut res = resources();
    apply_ws_command(&mut res, &vec![], WsAction::Step { count: None });
    assert_eq!(res.step.0, 1);
}

#[test]
fn spawn_wave_assigns_consecutive_ids_outside_walls() {
    let mut terrain = TerrainGrid::new(10, 10, 1.0f32);
    terrain.set_cell(1, 1, u16::MAX, 0);
    let mut next = NextEntityId(7);
    let cands = vec![candidate(0.5, 0.5, 1.0), candidate(1.5, 1.5, 1.0), candidate(2.5, 2.5, 1.0), candidate(-3.0, 0.5, 1.0)];
    let orders = spawn_wave(&mut next, &terrain, 4, &cands);
    assert_eq!(orders.len(), 2);
    assert_eq!((orders[0].id, orders[1].id), (7, 8));
    assert_eq!(orders[1].x, 2.5);
    assert!(orders.iter().all(|o| o.faction_id == 4 && o.loaded.is_none()));
    assert_eq!(next.0, 9);
}

#[test]
fn kill_all_despawns_faction_and_records_removals() {
    let mut res = resources();
    let entities = vec![
        EntityRecord { id: 10, faction_id: 1 },
        EntityRecord { id: 11, faction_id: 2 },
        EntityRecord { id: 12, faction_id: 1 },
    ];
    let edits = apply_ws_command(&mut res, &entities, WsAction::KillAll { faction_id: 1 });
    assert_eq!(edits.len(), 2);
    assert!(matches!(edits[0], WorldEdit::Despawn(0)));
    assert!(matches!(edits[1], WorldEdit::Despawn(2)));
    assert_eq!(res.removal.removed_ids, vec![10, 12]);
}

#[test]
fn wasm_kill_all_sentinel_selects_everyone() {
    let entities = vec![EntityRecord { id: 1, faction_id: 3 }, EntityRecord { id: 2, faction_id: 4 }];
    assert_eq!(kill_targets(&entities, u32::MAX), vec![0, 1]);
    assert_eq!(kill_targets(&entities, 4), vec![1]);
    assert_eq!(kill_targets(&entities, 9), Vec::<usize>::new());
}

#[test]
fn faction_mode_static_and_brain() {
    let mut res = resources();
    apply_ws_command(&mut res, &vec![], WsAction::SetFactionMode { faction_id: 2, mode: FactionMode::Static });
    assert!(res.behavior.is_static(2));
    apply_ws_command(&mut res, &vec![], WsAction::SetFactionMode { faction_id: 2, mode: FactionMode::Unknown });
    assert!(res.behavior.is_static(2));
    apply_ws_command(&mut res, &vec![], WsAction::SetFactionMode { faction_id: 2, mode: FactionMode::Brain });
    assert!(!res.behavior.is_static(2));
}

#[test]
fn fog_faction_requests() {
    let mut res = resources();
    apply_ws_command(&mut res, &vec![], WsAction::SetFogFaction { request: FogRequest::Show(3) });
    assert_eq!(res.fog, Some(ActiveFogFaction(Some(3))));
    apply_ws_command(&mut res, &vec![], WsAction::SetFogFaction { request: FogRequest::Ignore });
    assert_eq!(res.fog, Some(ActiveFogFaction(Some(3))));
    apply_ws_command(&mut res, &vec![], WsAction::SetFogFaction { request: FogRequest::Disable });
    assert_eq!(res.fog, Some(ActiveFogFaction(None)));
    res.fog = None;
    apply_ws_command(&mut res, &vec![], WsAction::SetFogFaction { request: FogRequest::Show(3) });
    assert_eq!(res.fog, None);
}

#[test]
fn place_zone_modifier_truncates_faction_and_ticks() {
    let mut res = resources();
    apply_ws_command(&mut res, &vec![], WsAction::PlaceZoneModifier {
        target_faction: (1u64 << 32) + 2,
        x: 1.0,
        y: 2.0,
        radius: 3.0,
        cost_modifier: -4.0,
        ticks: 90,
    });
    let zones = &res.zones.as_ref().unwrap().zones;
    assert_eq!(zones.len(), 1);
    assert_eq!(zones[0].target_faction, 2);
    assert_eq!(zones[0].ticks_remaining, 90);
}

#[test]
fn split_and_merge_commands_replace_pending_directive() {
    let mut res = resources();
    apply_ws_command(&mut res, &vec![], WsAction::SplitFaction { source_faction: 1, new_sub_faction: 7, percentage: 0.5, epicenter: [1.0, 2.0] });
    apply_ws_command(&mut res, &vec![], WsAction::MergeFaction { source_faction: 7, target_faction: 1 });
    let pending = &res.directive.as_ref().unwrap().directives;
    assert_eq!(pending.len(), 1);
    assert_eq!(pending[0], MacroDirective::MergeFaction { source_faction: 7, target_faction: 1 });
}

#[test]
fn aggro_command_sets_one_direction() {
    let mut res = resources();
    apply_ws_command(&mut res, &vec![], WsAction::SetAggroMask { source_faction: 1, target_faction: 2, allow_combat: false });
    let aggro = res.aggro.as_ref().unwrap();
    assert!(!aggro.is_combat_allowed(1, 2));
    assert!(aggro.is_combat_allowed(2, 1));
}

#[test]
fn engine_override_targets_first_matching_entity() {
    let mut res = resources();
    let entities = vec![EntityRecord { id: 5, faction_id: 0 }, EntityRecord { id: 6, faction_id: 0 }, EntityRecord { id: 6, faction_id: 1 }];
    let edits = apply_ws_command(&mut res, &entities, WsAction::SetEngineOverride { entity_id: 6, vx: 1.0, vy: 2.0, ticks: 0 });
    assert_eq!(edits.len(), 1);
    match edits[0] {
        WorldEdit::SetOverride { index, ticks, .. } => {
            assert_eq!(index, 1);
            assert_eq!(ticks, None);
        },
        _ => panic!("expected an override"),
    }
    let edits = apply_ws_command(&mut res, &entities, WsAction::ClearEngineOverride { entity_id: 9 });
    assert!(edits.is_empty());
    assert_eq!(find_entity(&entities, 5), Some(0));
}

#[test]
fn load_scenario_despawns_everything_and_loads_terrain() {
    let mut res = resources();
    let entities = vec![EntityRecord { id: 3, faction_id: 0 }, EntityRecord { id: 4, faction_id: 1 }];
    let snapshot = TerrainSnapshot { hard_costs: vec![1, 70000, 3, 4], soft_costs: vec![5, 6, 7, 8], width: 2, height: 2, cell_size: 10.0 };
    let loaded = vec![LoadedEntity { id: 9, x: 1.0, y: 1.0, faction_id: 2 }];
    let edits = apply_ws_command(&mut res, &entities, WsAction::LoadScenario { terrain: Some(snapshot), entities: loaded });
    assert_eq!(edits.len(), 3);
    assert!(matches!(edits[0], WorldEdit::Despawn(0)));
    assert!(matches!(edits[1], WorldEdit::Despawn(1)));
    assert_eq!(res.removal.removed_ids, vec![3, 4]);
    assert_eq!((res.terrain.width, res.terrain.height, res.terrain.cell_size), (2, 2, 10.0));
    assert_eq!(res.terrain.hard_costs, vec![1, 70000u64 as u16, 3, 4]);
    assert_eq!(res.next_id.0, 10);
    assert_eq!(next_id_after_load::<f32>(&vec![]), 1);
}

#[test]
fn test_initial_spawn_creates_correct_entity_count() {
    let mut next = NextEntityId(1);
    let plan = initial_spawn_plan(&mut next, 5, 2);
    assert_eq!(plan.len(), 5, "Should have spawned exactly 5 entities");
    let mut ids: Vec<u32> = plan.iter().map(|e| e.id).collect();
    ids.sort();
    ids.dedup();
    assert_eq!(ids.len(), plan.len(), "Each spawned entity should have unique EntityId");
}

#[test]
fn test_initial_spawn_configurable_factions() {
    let mut next = NextEntityId(1);
    let plan = initial_spawn_plan(&mut next, 9, 3);
    let factions: Vec<u32> = plan.iter().map(|e| e.faction_id).collect();
    assert!(factions.contains(&0), "Should have faction 0");
    assert!(factions.contains(&1), "Should have faction 1");
    assert!(factions.contains(&2), "Should have faction 2");
    assert_eq!(factions.iter().filter(|&&f| f == 0).count(), 3, "3 entities per faction");
    assert_eq!(next.0, 10);
}

// ── Simulation clock and timers ────────────────────────────────────────

#[test]
fn test_tick_counter_increments() {
    let mut counter = TickCounter::default();
    tick_counter_system(&mut counter);
    tick_counter_system(&mut counter);
    assert_eq!(counter.tick, 2);
}

#[test]
fn test_engine_override_countdown_and_removal() {
    let (left, done) = override_countdown(Some(1));
    assert!(done, "Should be removed after ticks_remaining goes to 0");
    assert_eq!(left, Some(0));
    assert_eq!(override_countdown(Some(3)), (Some(2), false));
    assert_eq!(override_countdown(None), (None, false));
}

#[test]
fn flow_field_schedule() {
    assert!(!flow_field_due(0, 30));
    assert!(!flow_field_due(29, 30));
    assert!(flow_field_due(30, 30));
    assert!(flow_field_due(60, 30));
    assert!(!flow_field_due(30, 0));
}

#[test]
fn sync_schedule_and_sensor_shards() {
    let p = sync_plan(60);
    assert!(p.full_snapshot && p.overlays);
    let p = sync_plan(6);
    assert!(!p.full_snapshot && p.overlays);
    assert!(in_sensor_shard(7, 1));
    assert!(!in_sensor_shard(7, 2));
    assert!(recently_damaged(100, 120));
    assert!(!recently_damaged(100, 131));
}

#[test]
fn removal_events_are_drained_once() {
    let mut ev = RemovalEvents { removed_ids: vec![4, 5] };
    assert_eq!(drain_removed(&mut ev), vec![4, 5]);
    assert!(drain_removed(&mut ev).is_empty());
}

// ── Timed registries ───────────────────────────────────────────────────

#[test]
fn zone_ticks_down_and_expires() {
    let mut zones = ActiveZoneModifiers::default();
    zones.zones.push(ZoneModifier { target_faction: 1, x: 0.0f32, y: 0.0, radius: 1.0, cost_modifier: 1.0, ticks_remaining: 2 });
    zones.zones.push(ZoneModifier { target_faction: 2, x: 0.0, y: 0.0, radius: 1.0, cost_modifier: 1.0, ticks_remaining: 1 });
    zone_tick_system(&mut zones);
    assert_eq!(zones.zones.len(), 1);
    assert_eq!(zones.zones[0].target_faction, 1);
    assert_eq!(zones.zones[0].ticks_remaining, 1);
    zone_tick_system(&mut zones);
    assert!(zones.zones.is_empty());
}

#[test]
fn buffs_expire_into_cooldown() {
    let mut buffs = FactionBuffs::<f32>::default();
    buffs.buffs.insert(1, vec![ActiveBuffGroup { modifiers: vec![], remaining_ticks: 1, targets: None }]);
    buffs.buffs.insert(2, vec![ActiveBuffGroup { modifiers: vec![], remaining_ticks: 5, targets: None }]);
    let config = BuffConfig { cooldown_ticks: 3, movement_speed_stat: None, combat_damage_stat: None, zone_modifier_duration_ticks: 120 };
    buff_tick_system(&mut buffs, &config);
    assert!(!buffs.buffs.contains_key(&1));
    assert_eq!(buffs.buffs.get(&2).unwrap()[0].remaining_ticks, 4);
    // The cooldown starts at 3 and ticks once in the same pass.
    assert_eq!(buffs.cooldowns.get(&1), Some(&2));
    buff_tick_system(&mut buffs, &config);
    buff_tick_system(&mut buffs, &config);
    assert!(!buffs.cooldowns.contains_key(&1));
}

#[test]
fn speed_buffs_count_down() {
    let mut sb = FactionSpeedBuffs::<f32>::default();
    sb.buffs.insert(1, (1.5, 2));
    sb.buffs.insert(2, (2.0, 1));
    sb.buffs.insert(3, (2.0, 0));
    speed_buff_tick_system(&mut sb);
    assert_eq!(sb.buffs.len(), 1);
    assert_eq!(sb.buffs.get(&1), Some(&(1.5, 1)));
    speed_buff_tick_system(&mut sb);
    assert!(sb.buffs.is_empty());
}

#[test]
fn aggro_masks_default_allow_and_remove_faction() {
    let mut aggro = AggroMaskRegistry::default();
    assert!(aggro.is_combat_allowed(3, 4));
    aggro.set_mask(3, 4, false);
    aggro.set_mask(5, 6, false);
    assert!(!aggro.is_combat_allowed(3, 4));
    aggro.remove_faction(4);
    assert!(aggro.is_combat_allowed(3, 4));
    assert_eq!(aggro.len(), 1);
}

// ── Interaction gates ──────────────────────────────────────────────────

#[test]
fn rule_gate_checks_faction_class_aggro_and_cooldown() {
    let rule = RuleFilter { source_faction: 1, target_faction: 2, source_class: Some(3), target_class: None, has_cooldown: true };
    let mut aggro = AggroMaskRegistry::default();
    assert!(rule_fires(&rule, 1, 3, &aggro, true));
    assert!(!rule_fires(&rule, 1, 3, &aggro, false));
    assert!(!rule_fires(&rule, 1, 4, &aggro, true));
    assert!(!rule_fires(&rule, 2, 3, &aggro, true));
    aggro.set_mask(1, 2, false);
    assert!(!rule_fires(&rule, 1, 3, &aggro, true));
    assert!(is_target(&rule, 2, 9));
    assert!(!is_target(&rule, 1, 9));
    assert!(under_target_cap(2, Some(3)));
    assert!(!under_target_cap(3, Some(3)));
    assert!(under_target_cap(1000, None));
}

// ── State vectorizer counts ────────────────────────────────────────────

fn cell_units(entities: &[(f32, f32, u32)], cell_size: f32) -> Vec<CellUnit> {
    entities
        .iter()
        .map(|&(x, y, f)| CellUnit { cx: (x / cell_size).floor() as i32, cy: (y / cell_size).floor() as i32, faction: f })
        .collect()
}

/// Density of a count, normalised by `max_density` and clamped to 1.
fn density(count: u32, max_density: f32) -> f32 {
    (count as f32 / max_density).min(1.0)
}

#[test]
fn test_density_map_single_entity() {
    let maps = build_count_maps(&cell_units(&[(15.0, 25.0, 0)], 10.0), 10, 10);
    assert!(maps.contains_key(&0), "Map should contain faction 0");
    let map = &maps[&0];
    assert_eq!(map.len(), 100, "Map size should be 100");
    assert!((density(map[21], 50.0) - (1.0 / 50.0)).abs() < f32::EPSILON, "Cell 21 density incorrect");
    assert!((density(map[22], 50.0) - 0.0).abs() < f32::EPSILON, "Cell 22 density should be 0");
}

#[test]
fn test_density_map_multiple_factions() {
    let maps = build_count_maps(&cell_units(&[(15.0, 25.0, 0), (25.0, 35.0, 1)], 10.0), 10, 10);
    assert_eq!(maps.len(), 2, "Should have 2 faction maps");
    assert!(maps.contains_key(&0), "Map should contain faction 0");
    assert!(maps.contains_key(&1), "Map should contain faction 1");
}

#[test]
fn test_density_map_sub_faction() {
    let maps = build_count_maps(&cell_units(&[(15.0, 25.0, 101)], 10.0), 10, 10);
    assert!(maps.contains_key(&101), "Map should contain sub-faction 101");
}

#[test]
fn test_density_map_normalization() {
    let entities: Vec<(f32, f32, u32)> = (0..50).map(|_| (15.0, 25.0, 0)).collect();
    let maps = build_count_maps(&cell_units(&entities, 10.0), 10, 10);
    assert!((density(maps[&0][21], 50.0) - 1.0).abs() < f32::EPSILON, "50 entities should normalize to 1.0");
}

#[test]
fn test_density_map_clamping() {
    let entities: Vec<(f32, f32, u32)> = (0..100).map(|_| (15.0, 25.0, 0)).collect();
    let maps = build_count_maps(&cell_units(&entities, 10.0), 10, 10);
    assert!((density(maps[&0][21], 50.0) - 1.0).abs() < f32::EPSILON, "100 entities should clamp to 1.0");
}

#[test]
fn test_density_map_out_of_bounds_ignored() {
    let maps = build_count_maps(&cell_units(&[(-15.0, -25.0, 0), (115.0, 125.0, 0), (5.0, 5.0, 0)], 10.0), 10, 10);
    assert!((density(maps[&0][0], 50.0) - (1.0 / 50.0)).abs() < f32::EPSILON, "Only valid entity should be counted");
}

#[test]
fn test_density_map_empty_entities() {
    let maps = build_count_maps(&cell_units(&[], 10.0), 10, 10);
    assert!(maps.is_empty(), "Map should be empty");
}

#[test]
fn test_density_map_grid_boundaries() {
    let maps = build_count_maps(&cell_units(&[(99.9, 99.9, 0), (100.0, 100.0, 0)], 10.0), 10, 10);
    assert!((density(maps[&0][99], 50.0) - (1.0 / 50.0)).abs() < f32::EPSILON, "Boundary edge should be computed correctly");
}

#[test]
fn test_summary_stats_basic() {
    let factions = vec![0, 0, 1];
    let (own, enemy) = summary_counts(&factions, 0);
    let max_entities = 10.0f32;
    assert!(((own as f32 / max_entities).min(1.0) - 0.2).abs() < f32::EPSILON, "Own count norm expected 0.2");
    assert!(((enemy as f32 / max_entities).min(1.0) - 0.1).abs() < f32::EPSILON, "Enemy count norm expected 0.1");
    assert_eq!((own, enemy), (2, 1));
}

#[test]
fn test_summary_stats_empty() {
    assert_eq!(summary_counts(&vec![], 0), (0, 0));
}

#[test]
fn counts_accumulate_per_cell_and_faction() {
    let units = vec![
        CellUnit { cx: 1, cy: 0, faction: 3 },
        CellUnit { cx: 1, cy: 0, faction: 3 },
        CellUnit { cx: 0, cy: 1, faction: 3 },
        CellUnit { cx: 1, cy: 0, faction: 4 },
        CellUnit { cx: 2, cy: 0, faction: 5 },
    ];
    let maps = build_count_maps(&units, 2, 2);
    assert_eq!(maps[&3], vec![0, 2, 1, 0]);
    assert_eq!(maps[&4], vec![0, 1, 0, 0]);
    assert!(!maps.contains_key(&5));
}

// ── Zone overlays ──────────────────────────────────────────────────────

#[test]
fn zone_overlay_spares_walls_and_never_makes_one() {
    let mut costs = vec![100u16, u16::MAX, 65000, 100, 7];
    apply_zone_cells(&mut costs, &vec![0, 1, 2, 4], |c: u16| c.saturating_add(1000));
    assert_eq!(costs, vec![1100, u16::MAX, u16::MAX - 1, 100, 1007]);
    apply_zone_cells(&mut costs, &vec![0, 4], |c: u16| c.saturating_sub(5000));
    assert_eq!(costs[0], 1);
    assert_eq!(costs[4], 1);
}
