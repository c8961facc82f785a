//! Periodic recomputation of the flow fields that navigation rules follow.
//!
//! A rule chasing a faction gets a field toward the units of that faction its
//! follower can currently see (no field when it sees none); a rule heading
//! for a waypoint gets a field toward the waypoint, keyed by the follower
//! faction plus `WAYPOINT_KEY_OFFSET`. Fields no rule produced are dropped.
//!
//! Callers supply, per unit, the fog-of-war cell and the flow-field cell it
//! stands in, and per rule the waypoint cell and the cost map (terrain costs
//! with the follower's zone overlays applied).

use vstd::prelude::*;
use std::collections::HashMap;
use crate::grid::GridCell;
use crate::keys::key_list;
use crate::rules::{NavigationRule, NavigationRuleSet, NavigationTarget};
use crate::terrain::TerrainGrid;
use crate::visibility::{FactionVisibility, cell_bit};
use crate::flow_field::{FlowField, field_solved, cell_indices};
use crate::sim::{flow_field_due, spec_flow_field_due, TickCounter};
use crate::registry::ActiveZoneModifiers;

verus! {

broadcast use vstd::std_specs::hash::group_hash_axioms;

/// Offset between a follower faction and the key of its waypoint field.
pub const WAYPOINT_KEY_OFFSET: u32 = 100_000;

/// Flow fields by key: a target faction, or a follower plus `WAYPOINT_KEY_OFFSET`.
#[derive(Clone, Debug)]
pub struct FlowFieldRegistry<G> {
    pub fields: HashMap<u32, FlowField<G>>,
}

impl<G> Default for FlowFieldRegistry<G> {
    fn default() -> (r: Self)
        ensures
            r.fields@ == Map::<u32, FlowField<G>>::empty(),
    {
        FlowFieldRegistry { fields: HashMap::new() }
    }
}

/// The resources the flow-field update reads and writes.
pub struct FlowFieldWorld<G> {
    pub tick: TickCounter,
    pub nav_rules: NavigationRuleSet<G>,
    pub registry: FlowFieldRegistry<G>,
    pub zones: ActiveZoneModifiers<G>,
    pub terrain: TerrainGrid<G>,
    pub visibility: FactionVisibility<G>,
}

/// A 50 x 50 world with cells of size `cell_size`: tick 0, no rules, no
/// fields, no zones, open terrain and no visibility yet.
pub fn build_app<G: Copy>(cell_size: G) -> (world: FlowFieldWorld<G>)
    ensures
        world.tick.tick == 0,
        world.nav_rules.rules@.len() == 0,
        world.registry.fields@ == Map::<u32, FlowField<G>>::empty(),
        world.zones.zones@.len() == 0,
        world.terrain.wf(),
        world.terrain.width == 50,
        world.terrain.height == 50,
        world.terrain.cell_size == cell_size,
        forall|i: int| 0 <= i < world.terrain.cell_count() ==> world.terrain.hard_costs@[i] == crate::terrain::DEFAULT_COST,
        forall|i: int| 0 <= i < world.terrain.cell_count() ==> world.terrain.soft_costs@[i] == crate::terrain::DEFAULT_COST,
        world.visibility.wf(),
        world.visibility.grid_width == 50,
        world.visibility.grid_height == 50,
        world.visibility.cell_size == cell_size,
        world.visibility.explored@ == Map::<u32, Vec<u32>>::empty(),
        world.visibility.visible@ == Map::<u32, Vec<u32>>::empty(),
{
    FlowFieldWorld {
        tick: TickCounter { tick: 0 },
        nav_rules: NavigationRuleSet { rules: Vec::new() },
        registry: FlowFieldRegistry::default(),
        zones: ActiveZoneModifiers::default(),
        terrain: TerrainGrid::new(50, 50, cell_size),
        visibility: FactionVisibility::new(50, 50, cell_size),
    }
}

/// Where a unit stands: its faction, its fog-of-war cell and its flow-field cell.
#[derive(Clone, Copy, Debug, PartialEq, Eq)]
pub struct UnitSighting {
    pub faction_id: u32,
    pub vis_cell: GridCell,
    pub flow_cell: GridCell,
}

/// Whether faction `follower` currently sees the unit.
pub open spec fn sighted<G>(u: UnitSighting, vis: FactionVisibility<G>, follower: u32) -> bool {
    &&& 0 <= u.vis_cell.x < (vis.grid_width as i32)
    &&& 0 <= u.vis_cell.y < (vis.grid_height as i32)
    &&& vis.visible@.contains_key(follower)
    &&& cell_bit(vis.visible@[follower]@, u.vis_cell.y * vis.grid_width + u.vis_cell.x)
}

/// Flow cells, in unit order, of the units of `target` that `follower` sees.
pub open spec fn visible_goals<G>(units: Seq<UnitSighting>, vis: FactionVisibility<G>, follower: u32, target: u32) -> Seq<GridCell>
    decreases units.len(),
{
    if units.len() == 0 {
        Seq::empty()
    } else {
        let rest = visible_goals(units.drop_last(), vis, follower, target);
        let u = units.last();
        if u.faction_id == target && sighted(u, vis, follower) { rest.push(u.flow_cell) } else { rest }
    }
}

/// Registry key of the field a rule produces.
pub open spec fn rule_key<F>(r: NavigationRule<F>) -> int {
    match r.target {
        NavigationTarget::Faction { faction_id } => faction_id as int,
        NavigationTarget::Waypoint { .. } => r.follower_faction + WAYPOINT_KEY_OFFSET,
    }
}

/// Goal cells of rule `j`.
pub open spec fn rule_goals<F, G>(
    rules: Seq<NavigationRule<F>>,
    j: int,
    units: Seq<UnitSighting>,
    vis: FactionVisibility<G>,
    waypoint_cells: Seq<GridCell>,
) -> Seq<GridCell> {
    match rules[j].target {
        NavigationTarget::Faction { faction_id } => visible_goals(units, vis, rules[j].follower_faction, faction_id),
        NavigationTarget::Waypoint { .. } => seq![waypoint_cells[j]],
    }
}

/// Index of the last rule producing key `k`, if any.
pub open spec fn last_rule_with_key<F>(rules: Seq<NavigationRule<F>>, k: int) -> Option<int>
    decreases rules.len(),
{
    if rules.len() == 0 {
        None
    } else if rule_key(rules.last()) == k {
        Some(rules.len() - 1)
    } else {
        last_rule_with_key(rules.drop_last(), k)
    }
}

/// Whether `f` is the field rule `j` produces.
pub open spec fn field_of_rule<F, G>(
    f: FlowField<G>,
    rules: Seq<NavigationRule<F>>,
    j: int,
    terrain: TerrainGrid<G>,
    vis: FactionVisibility<G>,
    units: Seq<UnitSighting>,
    waypoint_cells: Seq<GridCell>,
    cost_maps: Seq<Vec<u16>>,
    grid_w: u32,
    grid_h: u32,
    cell_size: G,
) -> bool {
    &&& f.wf()
    &&& f.width == grid_w
    &&& f.height == grid_h
    &&& f.cell_size == cell_size
    &&& field_solved(
        f.costs@,
        cost_maps[j]@,
        grid_w as int,
        grid_h as int,
        cell_indices(terrain.walls_upto(terrain.cell_count() as nat), grid_w as int, grid_h as int),
        cell_indices(rule_goals(rules, j, units, vis, waypoint_cells), grid_w as int, grid_h as int),
    )
}

/// What a recomputation leaves in the registry: a key holds a field exactly
/// when the last rule producing that key has goals, and that field is the one
/// the rule defines.
pub open spec fn recomputed<F, G>(
    fields: Map<u32, FlowField<G>>,
    rules: Seq<NavigationRule<F>>,
    terrain: TerrainGrid<G>,
    vis: FactionVisibility<G>,
    units: Seq<UnitSighting>,
    waypoint_cells: Seq<GridCell>,
    cost_maps: Seq<Vec<u16>>,
    grid_w: u32,
    grid_h: u32,
    cell_size: G,
) -> bool {
    &&& forall|k: u32| #[trigger] fields.contains_key(k)
        <==> match last_rule_with_key(rules, k as int) {
            Some(j) => rule_goals(rules, j, units, vis, waypoint_cells).len() > 0,
            None => false,
        }
    &&& forall|k: u32| #[trigger] fields.contains_key(k)
        ==> field_of_rule(fields[k], rules, last_rule_with_key(rules, k as int)->0, terrain, vis, units,
            waypoint_cells, cost_maps, grid_w, grid_h, cell_size)
}

/// Flow cells of the units of `target` that `follower` sees.
fn collect_visible_goals<G>(units: &Vec<UnitSighting>, vis: &FactionVisibility<G>, follower: u32, target: u32) -> (goals: Vec<GridCell>)
    requires
        vis.wf(),
    ensures
        goals@ == visible_goals(units@, *vis, follower, target),
{
    let mut goals: Vec<GridCell> = Vec::new();
    let n = units.len();
    let mut i: usize = 0;
    let w = vis.grid_width;
    let h = vis.grid_height;
    assert(units@.take(0) =~= Seq::<UnitSighting>::empty());
    while i < n
        invariant
            n == units@.len(),
            i <= n,
            vis.wf(),
            w == vis.grid_width,
            h == vis.grid_height,
            goals@ == visible_goals(units@.take(i as int), *vis, follower, target),
        decreases n - i,
    {
        let u = units[i];
        assert(units@.take(i + 1).drop_last() =~= units@.take(i as int));
        if u.faction_id == target {
            let cx = u.vis_cell.x;
            let cy = u.vis_cell.y;
            if !(cx < 0 || cx >= w as i32 || cy < 0 || cy >= h as i32) {
                match vis.visible.get(&follower) {
                    Some(grid) => {
                        proof {
                            assert(cx < w && cy < h);
                            assert(cy * w + cx < w as int * h as int) by (nonlinear_arith)
                                requires
                                    0 <= cx < w,
                                    0 <= cy < h,
                            ;
                        }
                        let idx = (cy as u32 * w + cx as u32) as usize;
                        if FactionVisibility::<G>::get_bit(grid, idx) {
                            goals.push(u.flow_cell);
                        }
                    },
                    None => {},
                }
            }
        }
        i = i + 1;
    }
    assert(units@.take(n as int) =~= units@);
    goals
}

/// Recomputes the flow fields when `tick` is due (see `flow_field_due`);
/// otherwise leaves the registry alone. After a recomputation, a key holds a
/// field exactly when the last rule producing that key had goals, and that
/// field is the one the rule defines.
pub fn flow_field_update_system<F: Copy, G: Copy>(
    tick: u64,
    interval: u64,
    nav_rules: &NavigationRuleSet<F>,
    terrain: &TerrainGrid<G>,
    visibility: &FactionVisibility<G>,
    units: &Vec<UnitSighting>,
    waypoint_cells: &Vec<GridCell>,
    cost_maps: &Vec<Vec<u16>>,
    grid_w: u32,
    grid_h: u32,
    cell_size: G,
    registry: &mut FlowFieldRegistry<G>,
)
    requires
        terrain.wf(),
        visibility.wf(),
        grid_w as int * grid_h as int <= u32::MAX,
        waypoint_cells@.len() == nav_rules.rules@.len(),
        cost_maps@.len() == nav_rules.rules@.len(),
        forall|j: int| 0 <= j < cost_maps@.len() ==> (#[trigger] cost_maps@[j])@.len() == grid_w as int * grid_h as int,
        forall|j: int| 0 <= j < nav_rules.rules@.len() ==> (#[trigger] nav_rules.rules@[j]).target is Waypoint
            ==> nav_rules.rules@[j].follower_faction + WAYPOINT_KEY_OFFSET <= u32::MAX,
    ensures
        !spec_flow_field_due(tick, interval) ==> final(registry).fields@ == old(registry).fields@,
        spec_flow_field_due(tick, interval) ==> recomputed(final(registry).fields@, nav_rules.rules@, *terrain,
            *visibility, units@, waypoint_cells@, cost_maps@, grid_w, grid_h, cell_size),
{
    if !flow_field_due(tick, interval) {
        return;
    }
    let ghost rules = nav_rules.rules@;
    let ghost r0 = registry.fields@;
    let obstacles = terrain.hard_obstacles();
    let mut produced: Vec<u32> = Vec::new();
    let n = nav_rules.rules.len();
    let mut j: usize = 0;
    assert(rules.take(0) =~= Seq::<NavigationRule<F>>::empty());
    while j < n
        invariant
            n == rules.len(),
            rules == nav_rules.rules@,
            j <= n,
            terrain.wf(),
            visibility.wf(),
            obstacles@ == terrain.walls_upto(terrain.cell_count() as nat),
            grid_w as int * grid_h as int <= u32::MAX,
            waypoint_cells@.len() == n,
            cost_maps@.len() == n,
            forall|jj: int| 0 <= jj < cost_maps@.len() ==> (#[trigger] cost_maps@[jj])@.len() == grid_w as int * grid_h as int,
            forall|jj: int| 0 <= jj < n ==> (#[trigger] rules[jj]).target is Waypoint
                ==> rules[jj].follower_faction + WAYPOINT_KEY_OFFSET <= u32::MAX,
            forall|k: u32| #[trigger] registry.fields@.contains_key(k) <==> match last_rule_with_key(rules.take(j as int), k as int) {
                Some(jj) => rule_goals(rules, jj, units@, *visibility, waypoint_cells@).len() > 0,
                None => r0.contains_key(k),
            },
            forall|k: u32| #[trigger] registry.fields@.contains_key(k) ==> match last_rule_with_key(rules.take(j as int), k as int) {
                Some(jj) => field_of_rule(registry.fields@[k], rules, jj, *terrain, *visibility, units@,
                    waypoint_cells@, cost_maps@, grid_w, grid_h, cell_size),
                None => true,
            },
            forall|k: u32| #[trigger] produced@.contains(k) ==> exists|jj: int| 0 <= jj < j && rule_key(#[trigger] rules[jj]) == k as int,
            forall|k: u32| #[trigger] registry.fields@.contains_key(k) && last_rule_with_key(rules.take(j as int), k as int) is Some
                ==> produced@.contains(k),
        decreases n - j,
    {
        let r = nav_rules.rules[j];
        let ghost pre = rules.take(j as int);
        let ghost post = rules.take(j + 1);
        assert(post.drop_last() =~= pre);
        assert(post.last() == r);
        let key: u32;
        let goals: Vec<GridCell>;
        match r.target {
            NavigationTarget::Faction { faction_id } => {
                key = faction_id;
                goals = collect_visible_goals(units, visibility, r.follower_faction, faction_id);
            },
            NavigationTarget::Waypoint { .. } => {
                key = r.follower_faction + WAYPOINT_KEY_OFFSET;
                let mut g: Vec<GridCell> = Vec::new();
                g.push(waypoint_cells[j]);
                goals = g;
            },
        }
        assert(key as int == rule_key(r));
        assert(goals@ =~= rule_goals(rules, j as int, units@, *visibility, waypoint_cells@));
        let ghost before = registry.fields@;
        let ghost produced_before = produced@;
        if goals.len() == 0 {
            registry.fields.remove(&key);
        } else {
            let mut field = FlowField::new(grid_w, grid_h, cell_size);
            field.calculate(&goals, &obstacles, &cost_maps[j]);
            registry.fields.insert(key, field);
            produced.push(key);
        }
        proof {
            assert forall|k: u32| #[trigger] produced@.contains(k) implies exists|jj: int| 0 <= jj < j + 1
                && rule_key(#[trigger] rules[jj]) == k as int by {
                if produced_before.contains(k) {
                    let jj = choose|jj: int| 0 <= jj < j && rule_key(#[trigger] rules[jj]) == k as int;
                } else {
                    assert(k == key);
                    assert(rules[j as int] == r);
                }
            }
            assert forall|k: u32| #[trigger] registry.fields@.contains_key(k) && last_rule_with_key(post, k as int) is Some
                implies produced@.contains(k) by {
                if k != key {
                    assert(last_rule_with_key(post, k as int) == last_rule_with_key(pre, k as int));
                    assert(before.contains_key(k));
                    assert(produced_before.contains(k));
                    let q = choose|q: int| 0 <= q < produced_before.len() && produced_before[q] == k;
                    assert(produced@[q] == k);
                } else {
                    assert(goals@.len() > 0);
                    assert(produced@[produced@.len() - 1] == key);
                }
            }
        }
        j = j + 1;
    }
    assert(rules.take(n as int) =~= rules);
    // Drop every field no rule produced.
    let keys = key_list(&registry.fields);
    let m = keys.len();
    let mut i: usize = 0;
    let ghost r1 = registry.fields@;
    while i < m
        invariant
            m == keys@.len(),
            i <= m,
            keys@.to_set() == r1.dom(),
            keys@.no_duplicates(),
            forall|k: u32| #[trigger] registry.fields@.contains_key(k) ==> r1.contains_key(k)
                && registry.fields@[k] == r1[k],
            forall|jj: int| 0 <= jj < i ==> (#[trigger] registry.fields@.contains_key(keys@[jj])
                <==> produced@.contains(keys@[jj])),
            forall|jj: int| i <= jj < m ==> #[trigger] registry.fields@.contains_key(keys@[jj]),
        decreases m - i,
    {
        let k = keys[i];
        assert(keys@.to_set().contains(k));
        let mut keep = false;
        let mut p: usize = 0;
        while p < produced.len()
            invariant
                p <= produced@.len(),
                keep == exists|q: int| 0 <= q < p && produced@[q] == k,
            decreases produced@.len() - p,
        {
            if produced[p] == k {
                keep = true;
            }
            p = p + 1;
        }
        if !keep {
            registry.fields.remove(&k);
        }
        i = i + 1;
        assert forall|jj: int| i <= jj < m implies #[trigger] registry.fields@.contains_key(keys@[jj]) by {
            assert(keys@[jj] != k);
        }
        assert forall|jj: int| 0 <= jj < i implies (#[trigger] registry.fields@.contains_key(keys@[jj])
            <==> produced@.contains(keys@[jj])) by {
            if jj < i - 1 {
                assert(keys@[jj] != k);
            }
        }
    }
    assert forall|k: u32| #[trigger] registry.fields@.contains_key(k) <==> (r1.contains_key(k) && produced@.contains(k)) by {
        if r1.contains_key(k) {
            assert(keys@.to_set().contains(k));
            let jj = choose|jj: int| 0 <= jj < keys@.len() && keys@[jj] == k;
        }
    }
    proof {
        assert forall|k: u32| #[trigger] registry.fields@.contains_key(k)
            <==> match last_rule_with_key(rules, k as int) {
                Some(jj) => rule_goals(rules, jj, units@, *visibility, waypoint_cells@).len() > 0,
                None => false,
            } by {
            if produced@.contains(k) {
                let jj = choose|jj: int| 0 <= jj < n && rule_key(#[trigger] rules[jj]) == k as int;
                lemma_last_rule_exists(rules, jj, k as int);
            }
            if r1.contains_key(k) {
                assert(last_rule_with_key(rules.take(n as int), k as int) == last_rule_with_key(rules, k as int));
            }
            if last_rule_with_key(rules, k as int) is Some {
                if rule_goals(rules, last_rule_with_key(rules, k as int)->0, units@, *visibility, waypoint_cells@).len() > 0 {
                    assert(r1.contains_key(k));
                    assert(produced@.contains(k));
                }
            }
        }
    }
}

proof fn lemma_last_rule_exists<F>(rules: Seq<NavigationRule<F>>, j: int, k: int)
    requires
        0 <= j < rules.len(),
        rule_key(rules[j]) == k,
    ensures
        last_rule_with_key(rules, k) is Some,
    decreases rules.len(),
{
    if rule_key(rules.last()) != k {
        assert(j < rules.len() - 1);
        assert(rules.drop_last()[j] == rules[j]);
        lemma_last_rule_exists(rules.drop_last(), j, k);
    }
}

/// Whether `u` is a goal unit of rule `j`: the rule chases a faction, `u`
/// belongs to it, and the rule's follower sees `u`.
pub open spec fn goal_unit_of<F, G>(rules: Seq<NavigationRule<F>>, j: int, vis: FactionVisibility<G>, u: UnitSighting) -> bool {
    match rules[j].target {
        NavigationTarget::Faction { faction_id } => u.faction_id == faction_id && sighted(u, vis, rules[j].follower_faction),
        NavigationTarget::Waypoint { .. } => false,
    }
}

/// Unit lists `a` and `b` hold the same goal units of every rule; they may
/// differ in any unit no rule's follower sees among its targets.
pub open spec fn same_goal_units<F, G>(rules: Seq<NavigationRule<F>>, vis: FactionVisibility<G>, a: Seq<UnitSighting>, b: Seq<UnitSighting>) -> bool {
    forall|j: int, u: UnitSighting| 0 <= j < rules.len() && #[trigger] goal_unit_of(rules, j, vis, u)
        ==> (a.contains(u) <==> b.contains(u))
}

/// A cell is a visible goal exactly when a sighted unit of the target stands in it.
proof fn lemma_visible_goals_contains<G>(units: Seq<UnitSighting>, vis: FactionVisibility<G>, follower: u32, target: u32, c: GridCell)
    ensures
        visible_goals(units, vis, follower, target).contains(c) <==> exists|k: int| 0 <= k < units.len()
            && (#[trigger] units[k]).faction_id == target && sighted(units[k], vis, follower) && units[k].flow_cell == c,
    decreases units.len(),
{
    if units.len() > 0 {
        let rest = units.drop_last();
        lemma_visible_goals_contains(rest, vis, follower, target, c);
        let g = visible_goals(units, vis, follower, target);
        let gr = visible_goals(rest, vis, follower, target);
        let u = units.last();
        if exists|k: int| 0 <= k < units.len() && (#[trigger] units[k]).faction_id == target
            && sighted(units[k], vis, follower) && units[k].flow_cell == c {
            let k = choose|k: int| 0 <= k < units.len() && (#[trigger] units[k]).faction_id == target
                && sighted(units[k], vis, follower) && units[k].flow_cell == c;
            if k < units.len() - 1 {
                assert(rest[k] == units[k]);
                let q = choose|q: int| 0 <= q < gr.len() && gr[q] == c;
                assert(g[q] == c);
            } else {
                assert(g[g.len() - 1] == c);
            }
        }
        if g.contains(c) {
            let q = choose|q: int| 0 <= q < g.len() && g[q] == c;
            if q < gr.len() {
                assert(gr[q] == c);
                let k = choose|k: int| 0 <= k < rest.len() && (#[trigger] rest[k]).faction_id == target
                    && sighted(rest[k], vis, follower) && rest[k].flow_cell == c;
                assert(units[k] == rest[k]);
            } else {
                assert(units[units.len() - 1] == u);
            }
        }
    }
}

/// The visible goals are non-empty exactly when a sighted unit of the target exists.
proof fn lemma_visible_goals_nonempty<G>(units: Seq<UnitSighting>, vis: FactionVisibility<G>, follower: u32, target: u32)
    ensures
        visible_goals(units, vis, follower, target).len() > 0 <==> exists|k: int| 0 <= k < units.len()
            && (#[trigger] units[k]).faction_id == target && sighted(units[k], vis, follower),
    decreases units.len(),
{
    if units.len() > 0 {
        let rest = units.drop_last();
        lemma_visible_goals_nonempty(rest, vis, follower, target);
        if exists|k: int| 0 <= k < units.len() && (#[trigger] units[k]).faction_id == target && sighted(units[k], vis, follower) {
            let k = choose|k: int| 0 <= k < units.len() && (#[trigger] units[k]).faction_id == target && sighted(units[k], vis, follower);
            if k < units.len() - 1 {
                assert(rest[k] == units[k]);
            }
        }
        if visible_goals(rest, vis, follower, target).len() > 0 {
            let k = choose|k: int| 0 <= k < rest.len() && (#[trigger] rest[k]).faction_id == target && sighted(rest[k], vis, follower);
            assert(units[k] == rest[k]);
        }
    }
}

/// Cell lists holding the same cells give the same index sets.
proof fn lemma_cell_indices_same(s1: Seq<GridCell>, s2: Seq<GridCell>, w: int, h: int)
    requires
        forall|c: GridCell| s1.contains(c) <==> s2.contains(c),
    ensures
        cell_indices(s1, w, h) == cell_indices(s2, w, h),
{
    assert forall|i: int| cell_indices(s1, w, h).contains(i) <==> cell_indices(s2, w, h).contains(i) by {
        if cell_indices(s1, w, h).contains(i) {
            let k = choose|k: int| 0 <= k < s1.len() && {
                let c = #[trigger] s1[k];
                &&& 0 <= c.x < w
                &&& 0 <= c.y < h
                &&& i == c.y * w + c.x
            };
            assert(s1.contains(s1[k]));
            let q = choose|q: int| 0 <= q < s2.len() && s2[q] == s1[k];
            assert(s2[q] == s1[k]);
        }
        if cell_indices(s2, w, h).contains(i) {
            let k = choose|k: int| 0 <= k < s2.len() && {
                let c = #[trigger] s2[k];
                &&& 0 <= c.x < w
                &&& 0 <= c.y < h
                &&& i == c.y * w + c.x
            };
            assert(s2.contains(s2[k]));
            let q = choose|q: int| 0 <= q < s1.len() && s1[q] == s2[k];
            assert(s1[q] == s2[k]);
        }
    }
    assert(cell_indices(s1, w, h) =~= cell_indices(s2, w, h));
}

/// Two unit lists with the same goal units give every rule goals of the same
/// cells, and goals exactly when the other does.
proof fn lemma_same_rule_goals<F, G>(
    rules: Seq<NavigationRule<F>>,
    vis: FactionVisibility<G>,
    a: Seq<UnitSighting>,
    b: Seq<UnitSighting>,
    waypoint_cells: Seq<GridCell>,
    j: int,
)
    requires
        0 <= j < rules.len(),
        same_goal_units(rules, vis, a, b),
    ensures
        rule_goals(rules, j, a, vis, waypoint_cells).len() > 0 <==> rule_goals(rules, j, b, vis, waypoint_cells).len() > 0,
        forall|c: GridCell| rule_goals(rules, j, a, vis, waypoint_cells).contains(c)
            <==> rule_goals(rules, j, b, vis, waypoint_cells).contains(c),
{
    match rules[j].target {
        NavigationTarget::Faction { faction_id } => {
            let f = rules[j].follower_faction;
            lemma_one_side(rules, vis, a, b, j, faction_id, f);
            lemma_one_side(rules, vis, b, a, j, faction_id, f);
        },
        NavigationTarget::Waypoint { .. } => {},
    }
}

/// One direction of `lemma_same_rule_goals` for a rule chasing `target`.
proof fn lemma_one_side<F, G>(
    rules: Seq<NavigationRule<F>>,
    vis: FactionVisibility<G>,
    a: Seq<UnitSighting>,
    b: Seq<UnitSighting>,
    j: int,
    target: u32,
    follower: u32,
)
    requires
        0 <= j < rules.len(),
        rules[j].target == (NavigationTarget::<F>::Faction { faction_id: target }),
        rules[j].follower_faction == follower,
        same_goal_units(rules, vis, a, b) || same_goal_units(rules, vis, b, a),
    ensures
        visible_goals(a, vis, follower, target).len() > 0 ==> visible_goals(b, vis, follower, target).len() > 0,
        forall|c: GridCell| visible_goals(a, vis, follower, target).contains(c)
            ==> visible_goals(b, vis, follower, target).contains(c),
{
    lemma_visible_goals_nonempty(a, vis, follower, target);
    lemma_visible_goals_nonempty(b, vis, follower, target);
    if visible_goals(a, vis, follower, target).len() > 0 {
        let k = choose|k: int| 0 <= k < a.len() && (#[trigger] a[k]).faction_id == target && sighted(a[k], vis, follower);
        assert(goal_unit_of(rules, j, vis, a[k]));
        assert(a.contains(a[k]));
        let q = choose|q: int| 0 <= q < b.len() && b[q] == a[k];
        assert(b[q] == a[k]);
    }
    assert forall|c: GridCell| visible_goals(a, vis, follower, target).contains(c)
        implies visible_goals(b, vis, follower, target).contains(c) by {
        lemma_visible_goals_contains(a, vis, follower, target, c);
        lemma_visible_goals_contains(b, vis, follower, target, c);
        let k = choose|k: int| 0 <= k < a.len() && (#[trigger] a[k]).faction_id == target
            && sighted(a[k], vis, follower) && a[k].flow_cell == c;
        assert(goal_unit_of(rules, j, vis, a[k]));
        assert(a.contains(a[k]));
        let q = choose|q: int| 0 <= q < b.len() && b[q] == a[k];
        assert(b[q] == a[k]);
    }
}

/// Hidden units never steer: two recomputations that differ only in units
/// no rule's follower sees among its targets (or in units standing outside
/// the fog-of-war grid) leave the same keys, and fields of the same size and
/// the same costs under each key.
pub proof fn law_hidden_units_never_steer<F, G>(
    rules: Seq<NavigationRule<F>>,
    terrain: TerrainGrid<G>,
    vis: FactionVisibility<G>,
    a: Seq<UnitSighting>,
    b: Seq<UnitSighting>,
    waypoint_cells: Seq<GridCell>,
    cost_maps: Seq<Vec<u16>>,
    grid_w: u32,
    grid_h: u32,
    cell_size: G,
    fields_a: Map<u32, FlowField<G>>,
    fields_b: Map<u32, FlowField<G>>,
)
    requires
        same_goal_units(rules, vis, a, b),
        recomputed(fields_a, rules, terrain, vis, a, waypoint_cells, cost_maps, grid_w, grid_h, cell_size),
        recomputed(fields_b, rules, terrain, vis, b, waypoint_cells, cost_maps, grid_w, grid_h, cell_size),
    ensures
        fields_a.dom() == fields_b.dom(),
        forall|k: u32| #[trigger] fields_a.contains_key(k) ==> {
            &&& fields_a[k].costs@ == fields_b[k].costs@
            &&& fields_a[k].width == fields_b[k].width
            &&& fields_a[k].height == fields_b[k].height
            &&& fields_a[k].cell_size == fields_b[k].cell_size
        },
{
    assert forall|k: u32| #[trigger] fields_a.contains_key(k) <==> fields_b.contains_key(k) by {
        if let Some(j) = last_rule_with_key(rules, k as int) {
            lemma_last_rule_in_range(rules, k as int);
            lemma_same_rule_goals(rules, vis, a, b, waypoint_cells, j);
        }
    }
    assert(fields_a.dom() =~= fields_b.dom());
    assert forall|k: u32| #[trigger] fields_a.contains_key(k) implies {
        &&& fields_a[k].costs@ == fields_b[k].costs@
        &&& fields_a[k].width == fields_b[k].width
        &&& fields_a[k].height == fields_b[k].height
        &&& fields_a[k].cell_size == fields_b[k].cell_size
    } by {
        let j = last_rule_with_key(rules, k as int)->0;
        lemma_last_rule_in_range(rules, k as int);
        assert(fields_b.contains_key(k));
        lemma_same_rule_goals(rules, vis, a, b, waypoint_cells, j);
        lemma_cell_indices_same(
            rule_goals(rules, j, a, vis, waypoint_cells),
            rule_goals(rules, j, b, vis, waypoint_cells),
            grid_w as int,
            grid_h as int,
        );
        crate::flow_field::law_solved_field_unique(
            fields_a[k].costs@,
            fields_b[k].costs@,
            cost_maps[j]@,
            grid_w as int,
            grid_h as int,
            cell_indices(terrain.walls_upto(terrain.cell_count() as nat), grid_w as int, grid_h as int),
            cell_indices(rule_goals(rules, j, a, vis, waypoint_cells), grid_w as int, grid_h as int),
        );
    }
}

/// The last rule with a key is a rule of the list.
proof fn lemma_last_rule_in_range<F>(rules: Seq<NavigationRule<F>>, k: int)
    ensures
        last_rule_with_key(rules, k) matches Some(j) ==> 0 <= j < rules.len(),
    decreases rules.len(),
{
    if rules.len() > 0 {
        lemma_last_rule_in_range(rules.drop_last(), k);
    }
}

} // verus!
