use micro_core::directive::{
    directive_executor_system, setup_app, split_candidates, DirectiveState, LatestDirective,
    MacroDirective, StatModifierPayload, Unit,
};
use micro_core::registry::{buff_tick_system, ActiveBuffGroup, BuffConfig, ModifierType, TacticalBehavior, ZoneModifier};
use micro_core::rules::{NavigationTarget, InteractionRule};

type State = DirectiveState<f32, ()>;

/// The split selection the simulation makes: the `round(len * pct)` candidates
/// nearest the epicenter, or none when that count is 0.
fn nearest(positions: &[(f32, f32)], candidates: &Vec<usize>, pct: f32, epicenter: [f32; 2]) -> Vec<usize> {
    let count = ((candidates.len() as f32) * pct).round() as usize;
    if count == 0 || count > candidates.len() {
        return Vec::new();
    }
    let mut by_dist: Vec<(usize, f32)> = candidates
        .iter()
        .map(|&i| {
            let dx = positions[i].0 - epicenter[0];
            let dy = positions[i].1 - epicenter[1];
            (i, dx * dx + dy * dy)
        })
        .collect();
    by_dist.sort_by(|a, b| a.1.partial_cmp(&b.1).unwrap());
    by_dist.iter().take(count).map(|p| p.0).collect()
}

fn run(latest: &mut LatestDirective<f32>, state: &mut State, positions: &[(f32, f32)]) {
    let config = BuffConfig::default();
    directive_executor_system(latest, state, &config, |c: &Vec<usize>, p: f32, e: [f32; 2]| nearest(positions, c, p, e));
}

fn spawn(state: &mut State, positions: &mut Vec<(f32, f32)>, x: f32, y: f32, faction: u32) {
    state.units.push(Unit { faction_id: faction, class_id: 0 });
    positions.push((x, y));
}

fn count_faction(state: &State, faction: u32) -> usize {
    state.units.iter().filter(|u| u.faction_id == faction).count()
}

#[test]
fn executor_tests_test_latest_directive_defaults_to_none() {
    let ld = LatestDirective::<f32>::default();
    assert!(ld.directives.is_empty(), "LatestDirective should default to None");
}

#[test]
fn executor_tests_test_directive_hold_is_noop() {
    let (mut ld, mut state) = setup_app::<f32, ()>();
    ld.directives = vec![MacroDirective::Hold { faction_id: 0 }];
    run(&mut ld, &mut state, &[]);
    assert!(ld.directives.is_empty());
}

#[test]
fn executor_tests_test_directive_update_navigation_faction() {
    let (mut ld, mut state) = setup_app::<f32, ()>();
    ld.directives = vec![MacroDirective::UpdateNavigation {
        follower_faction: 1,
        target: NavigationTarget::Faction { faction_id: 2 },
    }];
    run(&mut ld, &mut state, &[]);
    assert_eq!(state.nav_rules.rules.len(), 1);
    assert_eq!(state.nav_rules.rules[0].follower_faction, 1);
    assert_eq!(state.nav_rules.rules[0].target, NavigationTarget::Faction { faction_id: 2 });
}

#[test]
fn executor_tests_test_directive_update_navigation_waypoint() {
    let (mut ld, mut state) = setup_app::<f32, ()>();
    ld.directives = vec![MacroDirective::UpdateNavigation {
        follower_faction: 1,
        target: NavigationTarget::Waypoint { x: 50.0, y: 100.0 },
    }];
    run(&mut ld, &mut state, &[]);
    assert_eq!(state.nav_rules.rules.len(), 1);
    assert_eq!(state.nav_rules.rules[0].target, NavigationTarget::Waypoint { x: 50.0, y: 100.0 });
}

#[test]
fn test_directive_activate_buff_sets_buff() {
    let (mut ld, mut state) = setup_app::<f32, ()>();
    ld.directives = vec![MacroDirective::ActivateBuff {
        faction: 1,
        modifiers: vec![StatModifierPayload { stat_index: 0, modifier_type: ModifierType::Multiplier, value: 2.0 }],
        duration_ticks: 60,
        targets: None,
    }];
    run(&mut ld, &mut state, &[]);
    assert_eq!(state.buffs.buffs.get(&1).unwrap().len(), 1);
    assert_eq!(state.buffs.buffs.get(&1).unwrap()[0].modifiers[0].value, 2.0);
}

#[test]
fn test_activate_buff_cooldown_prevents_activation() {
    let (mut ld, mut state) = setup_app::<f32, ()>();
    state.buffs.cooldowns.insert(0, 10);
    ld.directives = vec![MacroDirective::ActivateBuff { faction: 0, modifiers: vec![], duration_ticks: 60, targets: None }];
    run(&mut ld, &mut state, &[]);
    assert!(!state.buffs.buffs.contains_key(&0));
}

#[test]
fn executor_tests_test_directive_retreat_sets_waypoint() {
    let (mut ld, mut state) = setup_app::<f32, ()>();
    ld.directives = vec![MacroDirective::Retreat { faction: 1, retreat_x: 10.0, retreat_y: 20.0 }];
    run(&mut ld, &mut state, &[]);
    assert_eq!(state.nav_rules.rules.len(), 1);
    assert_eq!(state.nav_rules.rules[0].target, NavigationTarget::Waypoint { x: 10.0, y: 20.0 });
}

#[test]
fn executor_tests_test_directive_set_zone_modifier() {
    let (mut ld, mut state) = setup_app::<f32, ()>();
    ld.directives = vec![MacroDirective::SetZoneModifier { target_faction: 1, x: 10.0, y: 20.0, radius: 5.0, cost_modifier: -50.0 }];
    run(&mut ld, &mut state, &[]);
    assert_eq!(state.zones.zones.len(), 1);
    assert_eq!(state.zones.zones[0].target_faction, 1);
    assert_eq!(state.zones.zones[0].cost_modifier, -50.0);
}

#[test]
fn executor_tests_test_directive_split_faction_by_epicenter() {
    let (mut ld, mut state) = setup_app::<f32, ()>();
    let mut pos = Vec::new();
    spawn(&mut state, &mut pos, 10.0, 10.0, 1);
    spawn(&mut state, &mut pos, 20.0, 20.0, 1);
    ld.directives = vec![MacroDirective::SplitFaction {
        source_faction: 1,
        new_sub_faction: 2,
        percentage: 0.5,
        epicenter: [10.0, 10.0],
        class_filter: None,
    }];
    run(&mut ld, &mut state, &pos);
    assert!(state.sub_factions.factions.contains(&2));
    assert_eq!(count_faction(&state, 1), 1);
    assert_eq!(count_faction(&state, 2), 1);
    // The unit at the epicenter is the one split off.
    assert_eq!(state.units[0].faction_id, 2);
}

#[test]
fn executor_tests_test_directive_split_faction_percentage() {
    let (mut ld, mut state) = setup_app::<f32, ()>();
    let mut pos = Vec::new();
    for _ in 0..100 {
        spawn(&mut state, &mut pos, 0.0, 0.0, 1);
    }
    ld.directives = vec![MacroDirective::SplitFaction {
        source_faction: 1,
        new_sub_faction: 3,
        percentage: 0.3,
        epicenter: [0.0, 0.0],
        class_filter: None,
    }];
    run(&mut ld, &mut state, &pos);
    assert_eq!(count_faction(&state, 3), 30);
}

#[test]
fn executor_tests_test_directive_merge_faction() {
    let (mut ld, mut state) = setup_app::<f32, ()>();
    let mut pos = Vec::new();
    spawn(&mut state, &mut pos, 0.0, 0.0, 2);
    ld.directives = vec![MacroDirective::MergeFaction { source_faction: 2, target_faction: 1 }];
    run(&mut ld, &mut state, &pos);
    for u in state.units.iter() {
        assert_eq!(u.faction_id, 1);
    }
}

#[test]
fn executor_tests_test_directive_set_aggro_mask_disables_combat() {
    let (mut ld, mut state) = setup_app::<f32, ()>();
    ld.directives = vec![MacroDirective::SetAggroMask { source_faction: 1, target_faction: 2, allow_combat: false }];
    run(&mut ld, &mut state, &[]);
    assert!(!state.aggro.is_combat_allowed(1, 2));
    assert!(!state.aggro.is_combat_allowed(2, 1));
}

#[test]
fn executor_tests_test_vaporization_guard_directive_consumed_once() {
    let (mut ld, mut state) = setup_app::<f32, ()>();
    let mut pos = Vec::new();
    for _ in 0..100 {
        spawn(&mut state, &mut pos, 0.0, 0.0, 1);
    }
    ld.directives = vec![MacroDirective::SplitFaction {
        source_faction: 1,
        new_sub_faction: 3,
        percentage: 0.3,
        epicenter: [0.0, 0.0],
        class_filter: None,
    }];
    run(&mut ld, &mut state, &pos);
    run(&mut ld, &mut state, &pos);
    assert_eq!(count_faction(&state, 3), 30);
    assert_eq!(count_faction(&state, 1), 70);
}

#[test]
fn executor_tests_test_vaporization_guard_latest_is_none_after_execution() {
    let (mut ld, mut state) = setup_app::<f32, ()>();
    ld.directives = vec![MacroDirective::Hold { faction_id: 0 }];
    run(&mut ld, &mut state, &[]);
    assert!(ld.directives.is_empty());
}

#[test]
fn executor_tests_test_ghost_state_merge_cleans_zones() {
    let (mut ld, mut state) = setup_app::<f32, ()>();
    state.zones.zones.push(ZoneModifier { target_faction: 2, x: 0.0, y: 0.0, radius: 10.0, cost_modifier: 0.0, ticks_remaining: 10 });
    ld.directives = vec![MacroDirective::MergeFaction { source_faction: 2, target_faction: 1 }];
    run(&mut ld, &mut state, &[]);
    assert_eq!(state.zones.zones.len(), 0);
}

#[test]
fn test_ghost_state_merge_cleans_buffs() {
    let (mut ld, mut state) = setup_app::<f32, ()>();
    state.buffs.buffs.insert(2, Vec::<ActiveBuffGroup<f32>>::new());
    ld.directives = vec![MacroDirective::MergeFaction { source_faction: 2, target_faction: 1 }];
    run(&mut ld, &mut state, &[]);
    assert!(!state.buffs.buffs.contains_key(&2));
}

#[test]
fn executor_tests_test_ghost_state_merge_cleans_aggro_masks() {
    let (mut ld, mut state) = setup_app::<f32, ()>();
    state.aggro.set_mask(2, 1, false);
    state.aggro.set_mask(1, 2, false);
    ld.directives = vec![MacroDirective::MergeFaction { source_faction: 2, target_faction: 1 }];
    run(&mut ld, &mut state, &[]);
    assert_eq!(state.aggro.len(), 0);
}

#[test]
fn executor_tests_test_split_faction_quickselect_correct_count() {
    let (mut ld, mut state) = setup_app::<f32, ()>();
    let mut pos = Vec::new();
    for _ in 0..100 {
        spawn(&mut state, &mut pos, 0.0, 0.0, 0);
    }
    ld.directives = vec![MacroDirective::SplitFaction {
        source_faction: 0,
        new_sub_faction: 101,
        percentage: 0.3,
        epicenter: [500.0, 500.0],
        class_filter: None,
    }];
    run(&mut ld, &mut state, &pos);
    assert_eq!(count_faction(&state, 101), 30);
}

#[test]
fn qa_test_buff_config_default_has_duration_120() {
    let config = BuffConfig::default();
    assert_eq!(config.zone_modifier_duration_ticks, 120);
}

#[test]
fn qa_test_directive_executor_system_uses_buff_config() {
    let (mut ld, mut state) = setup_app::<f32, ()>();
    ld.directives.push(MacroDirective::SetZoneModifier { target_faction: 1, x: 0.0, y: 0.0, radius: 10.0, cost_modifier: -10.0 });
    let config = BuffConfig { cooldown_ticks: 0, movement_speed_stat: None, combat_damage_stat: None, zone_modifier_duration_ticks: 999 };
    directive_executor_system(&mut ld, &mut state, &config, |_c: &Vec<usize>, _p: f32, _e: [f32; 2]| Vec::new());
    assert_eq!(state.zones.zones.len(), 1);
    assert_eq!(state.zones.zones[0].ticks_remaining, 999, "Failed to use BuffConfig's zone_modifier_duration_ticks");
}

// ── Own tests ──────────────────────────────────────────────────────────

#[test]
fn hold_drops_only_that_factions_rules() {
    let (mut ld, mut state) = setup_app::<f32, ()>();
    ld.directives = vec![
        MacroDirective::UpdateNavigation { follower_faction: 1, target: NavigationTarget::Faction { faction_id: 2 } },
        MacroDirective::UpdateNavigation { follower_faction: 3, target: NavigationTarget::Faction { faction_id: 2 } },
        MacroDirective::Hold { faction_id: 1 },
    ];
    run(&mut ld, &mut state, &[]);
    assert_eq!(state.nav_rules.rules.len(), 1);
    assert_eq!(state.nav_rules.rules[0].follower_faction, 3);
}

#[test]
fn update_navigation_replaces_existing_rule() {
    let (mut ld, mut state) = setup_app::<f32, ()>();
    ld.directives = vec![
        MacroDirective::UpdateNavigation { follower_faction: 1, target: NavigationTarget::Faction { faction_id: 2 } },
        MacroDirective::UpdateNavigation { follower_faction: 1, target: NavigationTarget::Waypoint { x: 1.0, y: 2.0 } },
    ];
    run(&mut ld, &mut state, &[]);
    assert_eq!(state.nav_rules.rules.len(), 1);
    assert_eq!(state.nav_rules.rules[0].target, NavigationTarget::Waypoint { x: 1.0, y: 2.0 });
}

#[test]
fn split_with_zero_count_changes_nothing() {
    let (mut ld, mut state) = setup_app::<f32, ()>();
    let mut pos = Vec::new();
    spawn(&mut state, &mut pos, 0.0, 0.0, 1);
    ld.directives = vec![MacroDirective::SplitFaction {
        source_faction: 1,
        new_sub_faction: 9,
        percentage: 0.1,
        epicenter: [0.0, 0.0],
        class_filter: None,
    }];
    run(&mut ld, &mut state, &pos);
    assert_eq!(count_faction(&state, 1), 1);
    assert!(state.sub_factions.factions.is_empty());
    assert!(state.nav_rules.rules.is_empty());
}

#[test]
fn split_adds_waypoint_rule_and_duplicates_interaction_rules() {
    let (mut ld, mut state) = setup_app::<f32, ()>();
    state.int_rules.rules.push(InteractionRule { source_faction: 1, target_faction: 4, params: () });
    state.int_rules.rules.push(InteractionRule { source_faction: 4, target_faction: 1, params: () });
    let mut pos = Vec::new();
    spawn(&mut state, &mut pos, 0.0, 0.0, 1);
    spawn(&mut state, &mut pos, 9.0, 9.0, 1);
    ld.directives = vec![MacroDirective::SplitFaction {
        source_faction: 1,
        new_sub_faction: 5,
        percentage: 0.5,
        epicenter: [0.0, 0.0],
        class_filter: None,
    }];
    run(&mut ld, &mut state, &pos);
    assert_eq!(state.units[0].faction_id, 5);
    assert_eq!(state.units[1].faction_id, 1);
    assert_eq!(state.nav_rules.rules.len(), 1);
    assert_eq!(state.nav_rules.rules[0].follower_faction, 5);
    assert_eq!(state.nav_rules.rules[0].target, NavigationTarget::Waypoint { x: 0.0, y: 0.0 });
    assert_eq!(state.int_rules.rules.len(), 4);
    assert_eq!((state.int_rules.rules[2].source_faction, state.int_rules.rules[2].target_faction), (5, 4));
    assert_eq!((state.int_rules.rules[3].source_faction, state.int_rules.rules[3].target_faction), (4, 5));
}

#[test]
fn split_class_filter_limits_candidates() {
    let units = vec![
        Unit { faction_id: 1, class_id: 0 },
        Unit { faction_id: 1, class_id: 2 },
        Unit { faction_id: 2, class_id: 2 },
        Unit { faction_id: 1, class_id: 2 },
    ];
    assert_eq!(split_candidates(&units, 1, Some(2)), vec![1, 3]);
    assert_eq!(split_candidates(&units, 1, None), vec![0, 1, 3]);
}

#[test]
fn merge_cleans_interaction_rules_and_sub_factions() {
    let (mut ld, mut state) = setup_app::<f32, ()>();
    state.int_rules.rules.push(InteractionRule { source_faction: 2, target_faction: 4, params: () });
    state.int_rules.rules.push(InteractionRule { source_faction: 4, target_faction: 5, params: () });
    state.sub_factions.factions.push(2);
    ld.directives = vec![MacroDirective::MergeFaction { source_faction: 2, target_faction: 1 }];
    run(&mut ld, &mut state, &[]);
    assert_eq!(state.int_rules.rules.len(), 1);
    assert_eq!(state.int_rules.rules[0].source_faction, 4);
    assert!(state.sub_factions.factions.is_empty());
}

#[test]
fn tactical_override_set_and_cleared() {
    let (mut ld, mut state) = setup_app::<f32, ()>();
    ld.directives = vec![MacroDirective::SetTacticalOverride {
        faction: 1,
        behavior: Some(TacticalBehavior::Kite { trigger_radius: 5.0, weight: 1.0 }),
    }];
    run(&mut ld, &mut state, &[]);
    assert_eq!(state.tactical_overrides.overrides.get(&1).unwrap().len(), 1);
    ld.directives = vec![MacroDirective::SetTacticalOverride { faction: 1, behavior: None }];
    run(&mut ld, &mut state, &[]);
    assert!(!state.tactical_overrides.overrides.contains_key(&1));
}

#[test]
fn expired_buffs_block_reactivation_during_cooldown() {
    let (mut ld, mut state) = setup_app::<f32, ()>();
    let config = BuffConfig { cooldown_ticks: 5, movement_speed_stat: None, combat_damage_stat: None, zone_modifier_duration_ticks: 120 };
    ld.directives = vec![MacroDirective::ActivateBuff { faction: 1, modifiers: vec![], duration_ticks: 1, targets: None }];
    directive_executor_system(&mut ld, &mut state, &config, |_c: &Vec<usize>, _p: f32, _e: [f32; 2]| Vec::new());
    assert!(state.buffs.buffs.contains_key(&1));
    buff_tick_system(&mut state.buffs, &config);
    assert!(!state.buffs.buffs.contains_key(&1));
    assert_eq!(state.buffs.cooldowns.get(&1), Some(&4));
    ld.directives = vec![MacroDirective::ActivateBuff { faction: 1, modifiers: vec![], duration_ticks: 9, targets: None }];
    directive_executor_system(&mut ld, &mut state, &config, |_c: &Vec<usize>, _p: f32, _e: [f32; 2]| Vec::new());
    assert!(!state.buffs.buffs.contains_key(&1));
}

#[test]
fn split_rejects_a_choice_outside_the_candidates() {
    let (mut ld, mut state) = setup_app::<f32, ()>();
    let mut pos = Vec::new();
    spawn(&mut state, &mut pos, 0.0, 0.0, 5);
    spawn(&mut state, &mut pos, 0.0, 0.0, 1);
    ld.directives = vec![MacroDirective::SplitFaction {
        source_faction: 1,
        new_sub_faction: 9,
        percentage: 1.0,
        epicenter: [0.0, 0.0],
        class_filter: None,
    }];
    let config = BuffConfig::default();
    // Index 0 is a unit of faction 5, not a candidate: the split is cancelled.
    directive_executor_system(&mut ld, &mut state, &config, |_c: &Vec<usize>, _p: f32, _e: [f32; 2]| vec![0]);
    assert_eq!(state.units[0].faction_id, 5);
    assert_eq!(state.units[1].faction_id, 1);
    assert!(state.sub_factions.factions.is_empty());
    // A repeated candidate is refused as well.
    ld.directives = vec![MacroDirective::SplitFaction {
        source_faction: 1,
        new_sub_faction: 9,
        percentage: 1.0,
        epicenter: [0.0, 0.0],
        class_filter: None,
    }];
    directive_executor_system(&mut ld, &mut state, &config, |_c: &Vec<usize>, _p: f32, _e: [f32; 2]| vec![1, 1]);
    assert_eq!(state.units[1].faction_id, 1);
}
