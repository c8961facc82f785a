//! Properties that span several operations of the library.

use vstd::prelude::*;
use crate::grid::GridCell;
use crate::terrain::{TerrainGrid, WALL, row_major};
use crate::rules::{NavigationRule, NavigationTarget, first_follower_index, upsert_navigation};
use crate::registry::{
    AggroMaskRegistry, BuffConfig, ActiveBuffGroup, pair_key, key_source, key_target, lemma_pair_key,
    buffs_expire, cooldowns_started, cooldowns_after_tick, mask_kept,
};
use crate::directive::{DirectiveState, MacroDirective, StatModifierPayload, applied, same_buffs, split_candidates_of, split_proceeds};
use crate::commands::{
    WsResources, WsAction, EntityRecord, WorldEdit, SpawnCandidate, SpawnOrder, LoadedEntity, TerrainSnapshot,
    ws_effect, wave_orders, kill_indices, max_loaded_id, first_with_id, painted_hard, painted_soft, TerrainCellEdit,
};
use crate::registry::ZoneModifier;
use crate::rules::InteractionRule;

verus! {

// ── Terrain ────────────────────────────────────────────────────────────

/// Distinct cells of a grid have distinct row-major indices.
proof fn lemma_row_major_injective(w: int, x1: int, y1: int, x2: int, y2: int)
    requires
        0 <= x1 < w,
        0 <= x2 < w,
        0 <= y1,
        0 <= y2,
        row_major(w, x1, y1) == row_major(w, x2, y2),
    ensures
        x1 == x2,
        y1 == y2,
{
    vstd::arithmetic::div_mod::lemma_fundamental_div_mod_converse(y1 * w + x1, w, y1, x1);
    vstd::arithmetic::div_mod::lemma_fundamental_div_mod_converse(y2 * w + x2, w, y2, x2);
}

/// Reading a cell after writing it gives the written costs, and every other
/// cell reads as before (for grids whose sides fit in `i32`).
pub proof fn law_terrain_read_after_write<G>(
    before: TerrainGrid<G>,
    after: TerrainGrid<G>,
    x: u32,
    y: u32,
    hard: u16,
    soft: u16,
    c: GridCell,
)
    requires
        before.wf(),
        before.width <= i32::MAX,
        before.height <= i32::MAX,
        x < before.width,
        y < before.height,
        after.width == before.width,
        after.height == before.height,
        after.hard_costs@ == before.hard_costs@.update(row_major(before.width as int, x as int, y as int), hard),
        after.soft_costs@ == before.soft_costs@.update(row_major(before.width as int, x as int, y as int), soft),
    ensures
        c.x == x && c.y == y ==> after.spec_hard_cost(c) == hard && after.spec_soft_cost(c) == soft,
        !(c.x == x && c.y == y) ==> after.spec_hard_cost(c) == before.spec_hard_cost(c)
            && after.spec_soft_cost(c) == before.spec_soft_cost(c),
{
    let w = before.width as int;
    let h = before.height as int;
    assert((before.width as i32) as int == w);
    assert((before.height as i32) as int == h);
    assert(y * w + x < w * h) by (nonlinear_arith)
        requires
            0 <= x < w,
            0 <= y < h,
    ;
    if before.spec_in_bounds(c) {
        assert(c.y * w + c.x < w * h) by (nonlinear_arith)
            requires
                0 <= c.x < w,
                0 <= c.y < h,
        ;
        if !(c.x == x && c.y == y) {
            if row_major(w, c.x as int, c.y as int) == row_major(w, x as int, y as int) {
                lemma_row_major_injective(w, c.x as int, c.y as int, x as int, y as int);
            }
        }
    }
}

/// Walls at row-major positions below `n`, as a condition on cells.
proof fn lemma_walls_upto_contains<G>(t: TerrainGrid<G>, n: nat, c: GridCell)
    requires
        t.wf(),
        n <= t.cell_count(),
    ensures
        t.walls_upto(n).contains(c) <==> exists|i: int| 0 <= i < n && t.hard_costs@[i] == WALL && #[trigger] t.cell_at(i) == c,
    decreases n,
{
    if n > 0 {
        lemma_walls_upto_contains(t, (n - 1) as nat, c);
        let rest = t.walls_upto((n - 1) as nat);
        if t.hard_costs@[n - 1] == WALL {
            assert(t.walls_upto(n) == rest.push(t.cell_at(n - 1)));
            if t.walls_upto(n).contains(c) && !rest.contains(c) {
                let k = choose|k: int| 0 <= k < t.walls_upto(n).len() && t.walls_upto(n)[k] == c;
                assert(k == rest.len());
                assert(t.cell_at(n - 1) == c);
            }
            if rest.contains(c) {
                let k = choose|k: int| 0 <= k < rest.len() && rest[k] == c;
                assert(t.walls_upto(n)[k] == c);
            }
            if t.cell_at(n - 1) == c {
                assert(t.walls_upto(n)[rest.len() as int] == c);
            }
        }
    }
}

/// The obstacle list holds exactly the walls: a cell is listed if and only if
/// it lies inside the grid and its hard cost is `u16::MAX` (for grids whose
/// sides fit in `i32`).
pub proof fn law_obstacles_are_walls<G>(t: TerrainGrid<G>, c: GridCell)
    requires
        t.wf(),
        t.width <= i32::MAX,
        t.height <= i32::MAX,
    ensures
        t.walls_upto(t.cell_count() as nat).contains(c) <==> (t.spec_in_bounds(c) && t.spec_hard_cost(c) == WALL),
{
    let w = t.width as int;
    let h = t.height as int;
    let n = t.cell_count();
    assert((t.width as i32) as int == w);
    assert((t.height as i32) as int == h);
    lemma_walls_upto_contains(t, n as nat, c);
    if t.walls_upto(n as nat).contains(c) {
        let i = choose|i: int| 0 <= i < n && t.hard_costs@[i] == WALL && #[trigger] t.cell_at(i) == c;
        assert(w > 0) by (nonlinear_arith)
            requires
                0 <= i < w * h,
                0 <= w,
                0 <= h,
        ;
        vstd::arithmetic::div_mod::lemma_fundamental_div_mod(i, w);
        assert(i / w < h) by (nonlinear_arith)
            requires
                0 <= i < w * h,
                w > 0,
        ;
        assert(0 <= i % w < w);
        assert(0 <= i / w);
        assert(c.x as int == i % w);
        assert(c.y as int == i / w);
        assert((i / w) * w + i % w == i) by (nonlinear_arith)
            requires
                i == w * (i / w) + i % w,
        ;
        assert(t.cell_index(c) == i);
    }
    if t.spec_in_bounds(c) && t.spec_hard_cost(c) == WALL {
        let i = t.cell_index(c);
        assert(i < w * h) by (nonlinear_arith)
            requires
                0 <= c.x < w,
                0 <= c.y < h,
                i == c.y * w + c.x,
        ;
        vstd::arithmetic::div_mod::lemma_fundamental_div_mod_converse(i, w, c.y as int, c.x as int);
        assert(t.cell_at(i) == c);
    }
}

// ── Aggro masks ────────────────────────────────────────────────────────

/// Pair keys of different pairs differ.
proof fn lemma_pair_key_injective(s1: u32, t1: u32, s2: u32, t2: u32)
    requires
        pair_key(s1, t1) == pair_key(s2, t2),
    ensures
        s1 == s2,
        t1 == t2,
{
    lemma_pair_key(s1, t1);
    lemma_pair_key(s2, t2);
}

/// After storing a mask for (`source`, `target`), combat between them is
/// exactly what was stored, and every other ordered pair is unaffected.
pub proof fn law_mask_read_after_write(
    before: AggroMaskRegistry,
    after: AggroMaskRegistry,
    source: u32,
    target: u32,
    allow_combat: bool,
    s: u32,
    t: u32,
)
    requires
        after.masks@ == before.masks@.insert(pair_key(source, target), allow_combat),
    ensures
        after.spec_combat_allowed(source, target) == allow_combat,
        !(s == source && t == target) ==> after.spec_combat_allowed(s, t) == before.spec_combat_allowed(s, t),
{
    if pair_key(s, t) == pair_key(source, target) {
        lemma_pair_key_injective(s, t, source, target);
    }
}

/// An aggro-mask directive sets combat between the two factions in both
/// directions, and leaves every other ordered pair alone.
pub proof fn law_aggro_directive_symmetric<F, P: Clone>(
    before: DirectiveState<F, P>,
    after: DirectiveState<F, P>,
    source: u32,
    target: u32,
    allow_combat: bool,
    choice: Seq<usize>,
    config: BuffConfig,
    s: u32,
    t: u32,
)
    requires
        applied(before, MacroDirective::SetAggroMask { source_faction: source, target_faction: target, allow_combat },
            choice, config, after),
    ensures
        after.aggro.spec_combat_allowed(source, target) == allow_combat,
        after.aggro.spec_combat_allowed(target, source) == allow_combat,
        !(s == source && t == target) && !(s == target && t == source)
            ==> after.aggro.spec_combat_allowed(s, t) == before.aggro.spec_combat_allowed(s, t),
{
    if pair_key(s, t) == pair_key(source, target) {
        lemma_pair_key_injective(s, t, source, target);
    }
    if pair_key(s, t) == pair_key(target, source) {
        lemma_pair_key_injective(s, t, target, source);
    }
}

// ── Directives ─────────────────────────────────────────────────────────

/// Merging a faction into another leaves no trace of it: no unit, sub-faction
/// entry, navigation rule it follows, zone aimed at it, buff, tactical
/// override, aggro mask or interaction rule names it afterwards.
pub proof fn law_merge_clears_source<F, P: Clone>(
    before: DirectiveState<F, P>,
    after: DirectiveState<F, P>,
    source: u32,
    target: u32,
    choice: Seq<usize>,
    config: BuffConfig,
    other: u32,
)
    requires
        source != target,
        applied(before, MacroDirective::MergeFaction { source_faction: source, target_faction: target },
            choice, config, after),
    ensures
        forall|i: int| 0 <= i < after.units@.len() ==> (#[trigger] after.units@[i]).faction_id != source,
        !after.sub_factions.factions@.contains(source),
        forall|i: int| 0 <= i < after.nav_rules.rules@.len() ==> (#[trigger] after.nav_rules.rules@[i]).follower_faction != source,
        forall|i: int| 0 <= i < after.zones.zones@.len() ==> (#[trigger] after.zones.zones@[i]).target_faction != source,
        !after.buffs.buffs@.contains_key(source),
        !after.tactical_overrides.overrides@.contains_key(source),
        after.aggro.mask(source, other) is None,
        after.aggro.mask(other, source) is None,
        forall|i: int| 0 <= i < after.int_rules.rules@.len() ==> (#[trigger] after.int_rules.rules@[i]).source_faction != source
            && after.int_rules.rules@[i].target_faction != source,
{
    broadcast use vstd::seq_lib::group_filter_ensures;
    assert forall|i: int| 0 <= i < after.nav_rules.rules@.len() implies (#[trigger] after.nav_rules.rules@[i]).follower_faction != source by {
        assert(after.nav_rules.rules@.contains(after.nav_rules.rules@[i]));
    }
    assert forall|i: int| 0 <= i < after.zones.zones@.len() implies (#[trigger] after.zones.zones@[i]).target_faction != source by {
        assert(after.zones.zones@.contains(after.zones.zones@[i]));
    }
    assert forall|i: int| 0 <= i < after.int_rules.rules@.len() implies (#[trigger] after.int_rules.rules@[i]).source_faction != source
        && after.int_rules.rules@[i].target_faction != source by {
        assert(after.int_rules.rules@.contains(after.int_rules.rules@[i]));
    }
    lemma_pair_key(source, other);
    lemma_pair_key(other, source);
    assert(!mask_kept(pair_key(source, other), source));
    assert(!mask_kept(pair_key(other, source), source));
}

/// A split moves only candidates of the split (units of the source faction,
/// of the filtered class when a filter is given), each at most once, into the
/// new sub-faction; every other unit keeps its faction. When it goes ahead,
/// it moves exactly as many distinct units as the choice lists.
pub proof fn law_split_moves_only_candidates<F, P: Clone>(
    before: DirectiveState<F, P>,
    after: DirectiveState<F, P>,
    source: u32,
    sub: u32,
    percentage: F,
    epicenter: [F; 2],
    class_filter: Option<u32>,
    choice: Seq<usize>,
    config: BuffConfig,
    i: int,
)
    requires
        applied(before, MacroDirective::SplitFaction {
            source_faction: source,
            new_sub_faction: sub,
            percentage,
            epicenter,
            class_filter,
        }, choice, config, after),
        0 <= i < before.units@.len(),
    ensures
        after.units@.len() == before.units@.len(),
        after.units@[i].faction_id != before.units@[i].faction_id
            ==> split_candidates_of(before.units@, source, class_filter).contains(i as usize)
                && after.units@[i].faction_id == sub,
        after.units@[i].class_id == before.units@[i].class_id,
        split_proceeds(split_candidates_of(before.units@, source, class_filter), choice) ==> {
            &&& choice.to_set().len() == choice.len()
            &&& forall|j: int| 0 <= j < before.units@.len() ==> (#[trigger] after.units@[j]).faction_id
                == if choice.contains(j as usize) { sub } else { before.units@[j].faction_id }
        },
{
    let cands = split_candidates_of(before.units@, source, class_filter);
    if split_proceeds(cands, choice) {
        choice.unique_seq_to_set();
        if choice.contains(i as usize) {
            let k = choose|k: int| 0 <= k < choice.len() && choice[k] == i as usize;
            assert(cands.contains(choice[k]));
        }
    }
}

/// A faction whose buffs expire on a tick, with a cooldown of more than one
/// tick configured, is still cooling down after that tick, so a buff directive
/// for it right after changes no buff state.
pub proof fn law_expired_buffs_cool_down<F, P: Clone>(
    buffs: Map<u32, Vec<ActiveBuffGroup<F>>>,
    cooldowns: Map<u32, u32>,
    config: BuffConfig,
    faction: u32,
    before: DirectiveState<F, P>,
    after: DirectiveState<F, P>,
    modifiers: Vec<StatModifierPayload<F>>,
    duration_ticks: u32,
    targets: Option<Vec<u32>>,
    choice: Seq<usize>,
)
    requires
        buffs_expire(buffs, faction),
        config.cooldown_ticks > 1,
        before.buffs.cooldowns@ == cooldowns_after_tick(cooldowns_started(buffs, cooldowns, config.cooldown_ticks)),
        applied(before, MacroDirective::ActivateBuff { faction, modifiers, duration_ticks, targets }, choice, config, after),
    ensures
        before.buffs.cooldowns@.contains_key(faction),
        same_buffs(before, after),
{
}

/// Pointing a faction at a target makes its first rule follow that target,
/// and leaves the first rule of every other faction as it was.
pub proof fn law_upsert_read_after_write<F>(rules: Seq<NavigationRule<F>>, faction: u32, target: NavigationTarget<F>, other: u32)
    ensures
        first_follower_index(upsert_navigation(rules, faction, target), faction) matches Some(i)
            && upsert_navigation(rules, faction, target)[i] == (NavigationRule { follower_faction: faction, target }),
        other != faction ==> first_follower_index(upsert_navigation(rules, faction, target), other)
            == first_follower_index(rules, other),
        other != faction ==> match first_follower_index(rules, other) {
            Some(j) => upsert_navigation(rules, faction, target)[j] == rules[j],
            None => true,
        },
{
    let r = NavigationRule { follower_faction: faction, target };
    let after = upsert_navigation(rules, faction, target);
    lemma_first_follower(rules, faction);
    lemma_first_follower(rules, other);
    lemma_first_follower(after, faction);
    lemma_first_follower(after, other);
    match first_follower_index(rules, faction) {
        Some(i) => {
            assert(after[i] == r);
            lemma_first_unique(after, faction, i);
            if other != faction {
                assert forall|j: int| 0 <= j < after.len() implies
                    (#[trigger] after[j]).follower_faction == other <==> rules[j].follower_faction == other by {
                    if j == i {
                        assert(rules[i].follower_faction == faction);
                    }
                }
                lemma_first_same(rules, after, other);
            }
        },
        None => {
            assert(after[rules.len() as int] == r);
            lemma_first_unique(after, faction, rules.len() as int);
            if other != faction {
                lemma_first_push(rules, r, other);
            }
        },
    }
}

/// What `first_follower_index` finds.
proof fn lemma_first_follower<F>(rules: Seq<NavigationRule<F>>, faction: u32)
    ensures
        match first_follower_index(rules, faction) {
            Some(i) => 0 <= i < rules.len() && rules[i].follower_faction == faction
                && forall|j: int| 0 <= j < i ==> rules[j].follower_faction != faction,
            None => forall|j: int| 0 <= j < rules.len() ==> rules[j].follower_faction != faction,
        },
    decreases rules.len(),
{
    if rules.len() > 0 {
        let rest = rules.drop_last();
        lemma_first_follower(rest, faction);
        assert forall|j: int| 0 <= j < rest.len() implies rules[j] == rest[j] by {}
    }
}

/// The first rule of a faction is the one at `i` when no earlier rule is its.
proof fn lemma_first_unique<F>(rules: Seq<NavigationRule<F>>, faction: u32, i: int)
    requires
        0 <= i < rules.len(),
        rules[i].follower_faction == faction,
        forall|j: int| 0 <= j < i ==> rules[j].follower_faction != faction,
    ensures
        first_follower_index(rules, faction) == Some(i),
{
    lemma_first_follower(rules, faction);
    match first_follower_index(rules, faction) {
        Some(k) => {
            if k < i {
                assert(rules[k].follower_faction != faction);
            }
            if k > i {
                assert(rules[i].follower_faction != faction);
            }
        },
        None => {
            assert(rules[i].follower_faction != faction);
        },
    }
}

/// Two rule lists that agree on which positions `faction` follows find the same first rule.
proof fn lemma_first_same<F>(a: Seq<NavigationRule<F>>, b: Seq<NavigationRule<F>>, faction: u32)
    requires
        a.len() == b.len(),
        forall|j: int| 0 <= j < b.len() ==> ((#[trigger] b[j]).follower_faction == faction <==> a[j].follower_faction == faction),
    ensures
        first_follower_index(a, faction) == first_follower_index(b, faction),
{
    lemma_first_follower(a, faction);
    lemma_first_follower(b, faction);
    match first_follower_index(a, faction) {
        Some(i) => {
            assert(b[i].follower_faction == faction);
            lemma_first_unique(b, faction, i);
        },
        None => {
            if let Some(k) = first_follower_index(b, faction) {
                assert(a[k].follower_faction == faction);
            }
        },
    }
}

/// Appending a rule of another faction does not change a faction's first rule.
proof fn lemma_first_push<F>(rules: Seq<NavigationRule<F>>, r: NavigationRule<F>, faction: u32)
    requires
        r.follower_faction != faction,
    ensures
        first_follower_index(rules.push(r), faction) == first_follower_index(rules, faction),
{
    assert(rules.push(r).drop_last() =~= rules);
}

// ── Visualizer commands ────────────────────────────────────────────────

/// Toggling the simulation twice leaves the pause flag as it was.
pub proof fn law_toggle_twice<F>(
    a: WsResources<F>,
    b: WsResources<F>,
    c: WsResources<F>,
    entities: Seq<EntityRecord>,
    e1: Seq<WorldEdit<F>>,
    e2: Seq<WorldEdit<F>>,
)
    requires
        ws_effect(a, b, entities, WsAction::ToggleSim, e1),
        ws_effect(b, c, entities, WsAction::ToggleSim, e2),
    ensures
        c.paused == a.paused,
{
}

/// After a scenario load, the next id is above every loaded id (as truncated
/// to `u32`), so new spawns never reuse one.
pub proof fn law_load_next_id_fresh<F>(loaded: Seq<LoadedEntity<F>>, i: int)
    requires
        0 <= i < loaded.len(),
    ensures
        (loaded[i].id as u32) <= max_loaded_id(loaded),
    decreases loaded.len(),
{
    if i < loaded.len() - 1 {
        assert(loaded.drop_last()[i] == loaded[i]);
        law_load_next_id_fresh(loaded.drop_last(), i);
    }
}

/// Wave spawns get consecutive ids from the starting id, one per spawn, so
/// no two share an id and all lie in `start .. start + len`.
pub proof fn law_wave_ids_consecutive<F, G>(cands: Seq<SpawnCandidate<F>>, terrain: TerrainGrid<G>, start: u32, faction: u32, i: int)
    requires
        start + wave_orders(cands, terrain, start, faction).len() <= u32::MAX,
        0 <= i < wave_orders(cands, terrain, start, faction).len(),
    ensures
        wave_orders(cands, terrain, start, faction)[i].id == start + i,
        wave_orders(cands, terrain, start, faction).len() <= cands.len(),
    decreases cands.len(),
{
    lemma_wave_len(cands, terrain, start, faction);
    let rest = wave_orders(cands.drop_last(), terrain, start, faction);
    lemma_wave_len(cands.drop_last(), terrain, start, faction);
    if i < rest.len() {
        assert(rest.len() <= wave_orders(cands, terrain, start, faction).len());
        law_wave_ids_consecutive(cands.drop_last(), terrain, start, faction, i);
    }
}

proof fn lemma_wave_len<F, G>(cands: Seq<SpawnCandidate<F>>, terrain: TerrainGrid<G>, start: u32, faction: u32)
    ensures
        wave_orders(cands, terrain, start, faction).len() <= cands.len(),
    decreases cands.len(),
{
    if cands.len() > 0 {
        lemma_wave_len(cands.drop_last(), terrain, start, faction);
    }
}

/// A kill of everyone selects every entity, in order.
pub proof fn law_kill_everyone(entities: Seq<EntityRecord>, faction: u32)
    requires
        entities.len() <= usize::MAX,
    ensures
        kill_indices(entities, faction, true) == Seq::new(entities.len(), |i: int| i as usize),
    decreases entities.len(),
{
    if entities.len() > 0 {
        law_kill_everyone(entities.drop_last(), faction);
        assert(kill_indices(entities, faction, true) =~= Seq::new(entities.len(), |i: int| i as usize));
    } else {
        assert(kill_indices(entities, faction, true) =~= Seq::new(entities.len(), |i: int| i as usize));
    }
}

// ── Spawning, holding, loading ─────────────────────────────────────────

/// A wave spawns exactly the candidates whose cell is not a wall (hard cost
/// `u16::MAX`), in candidate order, at their positions and in the wave's
/// faction: a passable cell never blocks a spawn, whatever its cost.
pub proof fn law_wave_spawns_every_open_candidate<F, G>(
    cands: Seq<SpawnCandidate<F>>,
    terrain: TerrainGrid<G>,
    start: u32,
    faction: u32,
)
    ensures
        wave_orders(cands, terrain, start, faction).len()
            == cands.filter(|c: SpawnCandidate<F>| terrain.spec_hard_cost(c.cell) != WALL).len(),
        forall|j: int| 0 <= j < wave_orders(cands, terrain, start, faction).len() ==> {
            let o = #[trigger] wave_orders(cands, terrain, start, faction)[j];
            let c = cands.filter(|c: SpawnCandidate<F>| terrain.spec_hard_cost(c.cell) != WALL)[j];
            &&& o.x == c.x
            &&& o.y == c.y
            &&& o.faction_id == faction
            &&& o.loaded is None
        },
        forall|k: int| 0 <= k < cands.len() && terrain.spec_hard_cost(#[trigger] cands[k].cell) != WALL
            ==> exists|j: int| 0 <= j < wave_orders(cands, terrain, start, faction).len()
                && wave_orders(cands, terrain, start, faction)[j].x == cands[k].x
                && wave_orders(cands, terrain, start, faction)[j].y == cands[k].y,
    decreases cands.len(),
{
    let open = |c: SpawnCandidate<F>| terrain.spec_hard_cost(c.cell) != WALL;
    let wave = wave_orders(cands, terrain, start, faction);
    let kept = cands.filter(open);
    if cands.len() > 0 {
        let rest = cands.drop_last();
        law_wave_spawns_every_open_candidate(rest, terrain, start, faction);
        reveal_with_fuel(Seq::filter, 1);
        assert(kept == if open(cands.last()) { rest.filter(open).push(cands.last()) } else { rest.filter(open) });
    } else {
        reveal_with_fuel(Seq::filter, 1);
        assert(kept.len() == 0);
    }
    assert forall|k: int| 0 <= k < cands.len() && terrain.spec_hard_cost(#[trigger] cands[k].cell) != WALL
        implies exists|j: int| 0 <= j < wave.len() && wave[j].x == cands[k].x && wave[j].y == cands[k].y by {
        broadcast use vstd::seq_lib::group_filter_ensures;
        assert(open(cands[k]));
        assert(kept.contains(cands[k]));
        let j = choose|j: int| 0 <= j < kept.len() && kept[j] == cands[k];
        assert(wave[j].x == kept[j].x);
    }
}

/// Holding a faction drops exactly the navigation rules it follows: every
/// rule of another follower stays, in order, whatever its target; nothing
/// else changes.
pub proof fn law_hold_drops_only_its_rules<F, P: Clone>(
    before: DirectiveState<F, P>,
    after: DirectiveState<F, P>,
    faction: u32,
    choice: Seq<usize>,
    config: BuffConfig,
)
    requires
        applied(before, MacroDirective::Hold { faction_id: faction }, choice, config, after),
    ensures
        after.nav_rules.rules@ == before.nav_rules.rules@.filter(|r: NavigationRule<F>| r.follower_faction != faction),
        after.int_rules.rules@ == before.int_rules.rules@,
        after.zones.zones@ == before.zones.zones@,
        after.aggro.masks@ == before.aggro.masks@,
        after.units@ == before.units@,
        after.sub_factions.factions@ == before.sub_factions.factions@,
{
    assert((|r: NavigationRule<F>| crate::directive::nav_spares(r, faction))
        =~= (|r: NavigationRule<F>| r.follower_faction != faction));
}

/// Merging a faction away drops exactly the navigation rules it follows, the
/// zones aimed at it and the interaction rules naming it; everything else of
/// those lists stays, in order.
pub proof fn law_merge_keeps_everything_else<F, P: Clone>(
    before: DirectiveState<F, P>,
    after: DirectiveState<F, P>,
    source: u32,
    target: u32,
    choice: Seq<usize>,
    config: BuffConfig,
)
    requires
        applied(before, MacroDirective::MergeFaction { source_faction: source, target_faction: target },
            choice, config, after),
    ensures
        after.nav_rules.rules@ == before.nav_rules.rules@.filter(|r: NavigationRule<F>| r.follower_faction != source),
        after.zones.zones@ == before.zones.zones@.filter(|z: ZoneModifier<F>| z.target_faction != source),
        after.int_rules.rules@ == before.int_rules.rules@.filter(
            |r: InteractionRule<P>| r.source_faction != source && r.target_faction != source),
{
    assert((|r: NavigationRule<F>| crate::directive::nav_spares(r, source))
        =~= (|r: NavigationRule<F>| r.follower_faction != source));
    assert((|z: ZoneModifier<F>| crate::directive::zone_spares(z, source))
        =~= (|z: ZoneModifier<F>| z.target_faction != source));
    assert((|r: InteractionRule<P>| crate::directive::rule_spares(r, source))
        =~= (|r: InteractionRule<P>| r.source_faction != source && r.target_faction != source));
}

/// A scenario load despawns every current entity, in order, and then spawns
/// each loaded entry, in order, at exactly its own position, with its own id
/// and faction (truncated to `u32`).
pub proof fn law_load_places_entries_as_given<F>(
    a: WsResources<F>,
    b: WsResources<F>,
    entities: Seq<EntityRecord>,
    terrain: Option<TerrainSnapshot<F>>,
    loaded: Vec<LoadedEntity<F>>,
    edits: Seq<WorldEdit<F>>,
)
    requires
        entities.len() <= usize::MAX,
        ws_effect(a, b, entities, WsAction::LoadScenario { terrain, entities: loaded }, edits),
    ensures
        edits.len() == entities.len() + loaded@.len(),
        forall|k: int| 0 <= k < entities.len() ==> #[trigger] edits[k] == WorldEdit::<F>::Despawn(k as usize),
        forall|i: int| 0 <= i < loaded@.len() ==> #[trigger] edits[entities.len() + i] == WorldEdit::Spawn(SpawnOrder {
            id: loaded@[i].id as u32,
            x: loaded@[i].x,
            y: loaded@[i].y,
            faction_id: loaded@[i].faction_id as u32,
            loaded: Some(i as usize),
        }),
{
    law_kill_everyone(entities, 0);
    let all = kill_indices(entities, 0, true);
    assert(all.len() == entities.len());
    assert forall|k: int| 0 <= k < entities.len() implies #[trigger] edits[k] == WorldEdit::<F>::Despawn(k as usize) by {
        assert(all[k] == k as usize);
    }
    assert forall|i: int| 0 <= i < loaded@.len() implies #[trigger] edits[entities.len() + i] == WorldEdit::Spawn(SpawnOrder {
        id: loaded@[i].id as u32,
        x: loaded@[i].x,
        y: loaded@[i].y,
        faction_id: loaded@[i].faction_id as u32,
        loaded: Some(i as usize),
    }) by {
        assert(edits[entities.len() + i] == edits[all.len() + i]);
    }
}

/// A kill selects exactly the entities of the faction (all of them when
/// `everyone`), each once and in increasing order.
pub proof fn law_kill_selects_exactly_the_faction(entities: Seq<EntityRecord>, faction: u32, everyone: bool, i: int)
    requires
        entities.len() <= usize::MAX,
        0 <= i < entities.len(),
    ensures
        kill_indices(entities, faction, everyone).contains(i as usize) <==> (everyone || entities[i].faction_id == faction),
        forall|p: int, q: int| 0 <= p < q < kill_indices(entities, faction, everyone).len()
            ==> kill_indices(entities, faction, everyone)[p] < kill_indices(entities, faction, everyone)[q],
    decreases entities.len(),
{
    let idx = kill_indices(entities, faction, everyone);
    let rest = entities.drop_last();
    let ridx = kill_indices(rest, faction, everyone);
    lemma_kill_below(rest, faction, everyone);
    if i < entities.len() - 1 {
        law_kill_selects_exactly_the_faction(rest, faction, everyone, i);
        assert(rest[i] == entities[i]);
        if idx.contains(i as usize) {
            let p = choose|p: int| 0 <= p < idx.len() && idx[p] == i as usize;
            if p < ridx.len() {
                assert(ridx[p] == i as usize);
            }
        }
        if ridx.contains(i as usize) {
            let p = choose|p: int| 0 <= p < ridx.len() && ridx[p] == i as usize;
            assert(idx[p] == i as usize);
        }
    } else {
        if idx.contains(i as usize) {
            let p = choose|p: int| 0 <= p < idx.len() && idx[p] == i as usize;
            if p < ridx.len() {
                assert(ridx[p] < rest.len());
            }
        }
        if everyone || entities[i].faction_id == faction {
            assert(idx[idx.len() - 1] == i as usize);
        }
    }
    if entities.len() > 0 {
        law_kill_selects_exactly_the_faction_order(entities, faction, everyone);
    }
}

proof fn lemma_kill_below(entities: Seq<EntityRecord>, faction: u32, everyone: bool)
    requires
        entities.len() <= usize::MAX,
    ensures
        forall|p: int| 0 <= p < kill_indices(entities, faction, everyone).len()
            ==> (#[trigger] kill_indices(entities, faction, everyone)[p]) < entities.len(),
    decreases entities.len(),
{
    if entities.len() > 0 {
        let ridx = kill_indices(entities.drop_last(), faction, everyone);
        lemma_kill_below(entities.drop_last(), faction, everyone);
        assert forall|p: int| 0 <= p < kill_indices(entities, faction, everyone).len()
            implies (#[trigger] kill_indices(entities, faction, everyone)[p]) < entities.len() by {
            if p < ridx.len() {
                assert(ridx[p] < entities.len() - 1);
            }
        }
    }
}

proof fn law_kill_selects_exactly_the_faction_order(entities: Seq<EntityRecord>, faction: u32, everyone: bool)
    requires
        entities.len() <= usize::MAX,
    ensures
        forall|p: int, q: int| 0 <= p < q < kill_indices(entities, faction, everyone).len()
            ==> kill_indices(entities, faction, everyone)[p] < kill_indices(entities, faction, everyone)[q],
    decreases entities.len(),
{
    if entities.len() > 0 {
        let idx = kill_indices(entities, faction, everyone);
        let ridx = kill_indices(entities.drop_last(), faction, everyone);
        law_kill_selects_exactly_the_faction_order(entities.drop_last(), faction, everyone);
        lemma_kill_below(entities.drop_last(), faction, everyone);
        assert forall|p: int, q: int| 0 <= p < q < idx.len() implies idx[p] < idx[q] by {
            assert(idx[p] == ridx[p]);
            if q < ridx.len() {
                assert(idx[q] == ridx[q]);
            } else {
                assert(idx[q] == (entities.len() - 1) as usize);
                assert(ridx[p] < entities.len() - 1);
            }
        }
    }
}

/// The id after a load is one past the largest loaded id (truncated to
/// `u32`), or 1 with nothing loaded: the maximum is one of the loaded ids.
pub proof fn law_load_max_is_a_loaded_id<F>(loaded: Seq<LoadedEntity<F>>)
    ensures
        loaded.len() == 0 ==> max_loaded_id(loaded) == 0,
        forall|i: int| 0 <= i < loaded.len() ==> (#[trigger] loaded[i]).id as u32 <= max_loaded_id(loaded),
        loaded.len() > 0 ==> exists|i: int| 0 <= i < loaded.len() && max_loaded_id(loaded) == (#[trigger] loaded[i]).id as u32,
    decreases loaded.len(),
{
    if loaded.len() > 0 {
        let rest = loaded.drop_last();
        let last = loaded.len() - 1;
        law_load_max_is_a_loaded_id(rest);
        assert(loaded[last] == loaded.last());
        assert forall|i: int| 0 <= i < loaded.len() implies (#[trigger] loaded[i]).id as u32 <= max_loaded_id(loaded) by {
            if i < last {
                assert(loaded[i] == rest[i]);
            }
        }
        if rest.len() == 0 || loaded.last().id as u32 > max_loaded_id(rest) {
            assert(max_loaded_id(loaded) == loaded[last].id as u32);
        } else {
            let i = choose|i: int| 0 <= i < rest.len() && max_loaded_id(rest) == (#[trigger] rest[i]).id as u32;
            assert(loaded[i] == rest[i]);
            assert(max_loaded_id(loaded) == loaded[i].id as u32);
        }
    }
}

/// An entity lookup finds the first entity with the id, or none when no
/// entity has it.
pub proof fn law_find_first_with_id(entities: Seq<EntityRecord>, id: u32)
    ensures
        match first_with_id(entities, id) {
            Some(i) => 0 <= i < entities.len() && entities[i].id == id
                && forall|j: int| 0 <= j < i ==> entities[j].id != id,
            None => forall|j: int| 0 <= j < entities.len() ==> entities[j].id != id,
        },
    decreases entities.len(),
{
    if entities.len() > 0 {
        let rest = entities.drop_last();
        law_find_first_with_id(rest, id);
        assert forall|j: int| 0 <= j < rest.len() implies rest[j] == entities[j] by {}
    }
}

/// Painting terrain leaves in each cell the costs of the last in-grid edit of
/// that cell (coordinates and costs truncated as received), and every cell
/// no edit reaches as it was.
pub proof fn law_paint_last_edit_wins(
    hard: Seq<u16>,
    soft: Seq<u16>,
    width: u32,
    height: u32,
    cells: Seq<TerrainCellEdit>,
    x: u32,
    y: u32,
)
    requires
        x < width,
        y < height,
        hard.len() == width as int * height as int,
        soft.len() == width as int * height as int,
    ensures
        ({
            let i = y as int * width as int + x as int;
            let hits = |e: TerrainCellEdit| (e.x as u32) == x && (e.y as u32) == y;
            &&& painted_hard(hard, width, height, cells).len() == hard.len()
            &&& painted_soft(soft, width, height, cells).len() == soft.len()
            &&& cells.filter(hits).len() == 0 ==> painted_hard(hard, width, height, cells)[i] == hard[i]
                && painted_soft(soft, width, height, cells)[i] == soft[i]
            &&& cells.filter(hits).len() > 0 ==> painted_hard(hard, width, height, cells)[i]
                    == cells.filter(hits).last().hard as u16
                && painted_soft(soft, width, height, cells)[i] == cells.filter(hits).last().soft as u16
        }),
    decreases cells.len(),
{
    let i = y as int * width as int + x as int;
    let hits = |e: TerrainCellEdit| (e.x as u32) == x && (e.y as u32) == y;
    assert(0 <= i < width as int * height as int) by (nonlinear_arith)
        requires
            x < width,
            y < height,
            i == y * width + x,
    ;
    reveal_with_fuel(Seq::filter, 1);
    if cells.len() > 0 {
        let rest = cells.drop_last();
        law_paint_last_edit_wins(hard, soft, width, height, rest, x, y);
        let c = cells.last();
        let cx = c.x as u32;
        let cy = c.y as u32;
        if cx < width && cy < height {
            let j = row_major(width as int, cx as int, cy as int);
            assert(0 <= j < width as int * height as int) by (nonlinear_arith)
                requires
                    cx < width,
                    cy < height,
                    j == cy * width + cx,
            ;
            if j == i {
                lemma_row_major_injective(width as int, cx as int, cy as int, x as int, y as int);
            }
            if cx == x && cy == y {
                assert(j == i);
            }
        }
        assert(cells.filter(hits) == if hits(c) { rest.filter(hits).push(c) } else { rest.filter(hits) });
    }
}

} // verus!
