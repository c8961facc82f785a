//! Debug-visualizer commands and what each does to the simulation.
//!
//! A command arrives already decoded into a `WsAction`; float parameters
//! are carried as an opaque `F` and positions of spawn candidates come with
//! the terrain cell they fall in. Commands act on the simulation resources
//! in `WsResources` and on the entity list, the latter through `WorldEdit`s
//! that the caller applies to its world.

use vstd::prelude::*;
use std::collections::HashSet;
use crate::grid::GridCell;
use crate::terrain::{TerrainGrid, WALL, row_major};
use crate::sim::{SimPaused, SimStepRemaining, RemovalEvents};
use crate::registry::{ActiveZoneModifiers, ZoneModifier, AggroMaskRegistry, pair_key};
use crate::directive::{LatestDirective, MacroDirective};

verus! {

broadcast use vstd::std_specs::hash::group_hash_axioms;

/// The id the next spawned entity gets.
#[derive(Clone, Copy, Debug, PartialEq, Eq)]
pub struct NextEntityId(pub u32);

/// The faction whose fog of war the visualizer shows, if any.
#[derive(Clone, Copy, Debug, PartialEq, Eq)]
pub struct ActiveFogFaction(pub Option<u32>);

/// Factions held in place instead of following their navigation rules.
#[derive(Debug)]
pub struct FactionBehaviorMode {
    pub static_factions: HashSet<u32>,
}

impl Default for FactionBehaviorMode {
    fn default() -> (m: Self)
        ensures
            m.static_factions@ == Set::<u32>::empty(),
    {
        FactionBehaviorMode { static_factions: HashSet::new() }
    }
}

impl FactionBehaviorMode {
    /// Whether the faction is held in place.
    pub fn is_static(&self, faction: u32) -> (b: bool)
        ensures
            b == self.static_factions@.contains(faction),
    {
        self.static_factions.contains(&faction)
    }
}

/// An entity as commands see it.
#[derive(Clone, Copy, Debug, PartialEq, Eq)]
pub struct EntityRecord {
    pub id: u32,
    pub faction_id: u32,
}

/// A spawn position and the terrain cell it falls in.
#[derive(Clone, Copy, Debug)]
pub struct SpawnCandidate<F> {
    pub x: F,
    pub y: F,
    pub cell: GridCell,
}

/// One cell of a terrain paint request, as received.
#[derive(Clone, Copy, Debug, PartialEq, Eq)]
pub struct TerrainCellEdit {
    pub x: u64,
    pub y: u64,
    pub hard: u64,
    pub soft: u64,
}

/// A saved terrain, as received.
#[derive(Clone, Debug)]
pub struct TerrainSnapshot<F> {
    pub hard_costs: Vec<u64>,
    pub soft_costs: Vec<u64>,
    pub width: u64,
    pub height: u64,
    pub cell_size: F,
}

/// A saved entity, as received.
#[derive(Clone, Copy, Debug)]
pub struct LoadedEntity<F> {
    pub id: u64,
    pub x: F,
    pub y: F,
    pub faction_id: u64,
}

/// The requested behaviour mode of a faction.
#[derive(Clone, Copy, Debug, PartialEq, Eq)]
pub enum FactionMode {
    Static,
    Brain,
    Unknown,
}

/// What a fog-faction request asks for.
#[derive(Clone, Copy, Debug, PartialEq, Eq)]
pub enum FogRequest {
    /// The faction parameter is absent or null: show everything.
    Disable,
    /// Show the fog of this faction.
    Show(u64),
    /// The faction parameter is neither null nor a number.
    Ignore,
}

/// A decoded visualizer command.
#[derive(Clone, Debug)]
pub enum WsAction<F> {
    ToggleSim,
    Step { count: Option<u64> },
    SpawnWave { faction_id: u64, candidates: Vec<SpawnCandidate<F>> },
    SetSpeed { multiplier: F },
    KillAll { faction_id: u64 },
    SetFactionMode { faction_id: u64, mode: FactionMode },
    SetTerrain { cells: Vec<TerrainCellEdit> },
    ClearTerrain,
    LoadScenario { terrain: Option<TerrainSnapshot<F>>, entities: Vec<LoadedEntity<F>> },
    SetFogFaction { request: FogRequest },
    PlaceZoneModifier { target_faction: u64, x: F, y: F, radius: F, cost_modifier: F, ticks: u64 },
    SplitFaction { source_faction: u64, new_sub_faction: u64, percentage: F, epicenter: [F; 2] },
    MergeFaction { source_faction: u64, target_faction: u64 },
    SetAggroMask { source_faction: u64, target_faction: u64, allow_combat: bool },
    InjectDirective { directive: MacroDirective<F> },
    SetEngineOverride { entity_id: u64, vx: F, vy: F, ticks: u64 },
    ClearEngineOverride { entity_id: u64 },
}

/// A new entity to spawn.
#[derive(Clone, Copy, Debug)]
pub struct SpawnOrder<F> {
    pub id: u32,
    pub x: F,
    pub y: F,
    pub faction_id: u32,
    /// Index of the loaded entity it comes from; `None` for a wave spawn.
    pub loaded: Option<usize>,
}

/// A change to the entity list, by index into it.
#[derive(Clone, Copy, Debug)]
pub enum WorldEdit<F> {
    Spawn(SpawnOrder<F>),
    Despawn(usize),
    SetOverride { index: usize, vx: F, vy: F, ticks: Option<u32> },
    ClearOverride(usize),
}

/// The simulation resources commands act on; optional ones may be absent.
pub struct WsResources<F> {
    pub next_id: NextEntityId,
    pub paused: SimPaused,
    pub speed: F,
    pub step: SimStepRemaining,
    pub behavior: FactionBehaviorMode,
    pub terrain: TerrainGrid<F>,
    pub fog: Option<ActiveFogFaction>,
    pub removal: RemovalEvents,
    pub zones: Option<ActiveZoneModifiers<F>>,
    pub directive: Option<LatestDirective<F>>,
    pub aggro: Option<AggroMaskRegistry>,
}

// ── Semantics ──────────────────────────────────────────────────────────

/// Spawns of a wave: the candidates outside walls, with consecutive ids from `start`.
pub open spec fn wave_orders<F, G>(cands: Seq<SpawnCandidate<F>>, terrain: TerrainGrid<G>, start: u32, faction: u32) -> Seq<SpawnOrder<F>>
    decreases cands.len(),
{
    if cands.len() == 0 {
        Seq::empty()
    } else {
        let rest = wave_orders(cands.drop_last(), terrain, start, faction);
        let c = cands.last();
        if terrain.spec_hard_cost(c.cell) == WALL {
            rest
        } else {
            rest.push(SpawnOrder { id: (start + rest.len()) as u32, x: c.x, y: c.y, faction_id: faction, loaded: None })
        }
    }
}

/// Indices, in order, of the entities of `faction` (of every entity when `everyone`).
pub open spec fn kill_indices(entities: Seq<EntityRecord>, faction: u32, everyone: bool) -> Seq<usize>
    decreases entities.len(),
{
    if entities.len() == 0 {
        Seq::empty()
    } else {
        let rest = kill_indices(entities.drop_last(), faction, everyone);
        if everyone || entities.last().faction_id == faction {
            rest.push((entities.len() - 1) as usize)
        } else {
            rest
        }
    }
}

/// Ids of the entities at `idx`.
pub open spec fn ids_at(entities: Seq<EntityRecord>, idx: Seq<usize>) -> Seq<u32> {
    idx.map_values(|i: usize| entities[i as int].id)
}

/// Despawn edits for the entities at `idx`.
pub open spec fn despawns<F>(idx: Seq<usize>) -> Seq<WorldEdit<F>> {
    idx.map_values(|i: usize| WorldEdit::<F>::Despawn(i))
}

/// Hard costs after painting `cells` in order onto a `width` x `height` grid.
pub open spec fn painted_hard(costs: Seq<u16>, width: u32, height: u32, cells: Seq<TerrainCellEdit>) -> Seq<u16>
    decreases cells.len(),
{
    if cells.len() == 0 {
        costs
    } else {
        let rest = painted_hard(costs, width, height, cells.drop_last());
        let c = cells.last();
        if (c.x as u32) < width && (c.y as u32) < height {
            rest.update(row_major(width as int, (c.x as u32) as int, (c.y as u32) as int), c.hard as u16)
        } else {
            rest
        }
    }
}

/// Soft costs after painting `cells` in order onto a `width` x `height` grid.
pub open spec fn painted_soft(costs: Seq<u16>, width: u32, height: u32, cells: Seq<TerrainCellEdit>) -> Seq<u16>
    decreases cells.len(),
{
    if cells.len() == 0 {
        costs
    } else {
        let rest = painted_soft(costs, width, height, cells.drop_last());
        let c = cells.last();
        if (c.x as u32) < width && (c.y as u32) < height {
            rest.update(row_major(width as int, (c.x as u32) as int, (c.y as u32) as int), c.soft as u16)
        } else {
            rest
        }
    }
}

/// The largest loaded id, truncated to `u32`, or 0 without entities.
pub open spec fn max_loaded_id<F>(loaded: Seq<LoadedEntity<F>>) -> u32
    decreases loaded.len(),
{
    if loaded.len() == 0 {
        0
    } else {
        let rest = max_loaded_id(loaded.drop_last());
        let id = loaded.last().id as u32;
        if id > rest { id } else { rest }
    }
}

/// Spawns of a scenario load, one per loaded entity.
pub open spec fn load_orders<F>(loaded: Seq<LoadedEntity<F>>) -> Seq<SpawnOrder<F>> {
    Seq::new(loaded.len(), |i: int| SpawnOrder {
        id: loaded[i].id as u32,
        x: loaded[i].x,
        y: loaded[i].y,
        faction_id: loaded[i].faction_id as u32,
        loaded: Some(i as usize),
    })
}

/// Index of the first entity with id `id`.
pub open spec fn first_with_id(entities: Seq<EntityRecord>, id: u32) -> Option<int>
    decreases entities.len(),
{
    if entities.len() == 0 {
        None
    } else {
        match first_with_id(entities.drop_last(), id) {
            Some(i) => Some(i),
            None => if entities.last().id == id { Some(entities.len() - 1) } else { None },
        }
    }
}

// ── Single commands ────────────────────────────────────────────────────

/// Steps requested by a step command: the count, truncated to `u32`, or 1.
pub fn step_count(count: Option<u64>) -> (n: u32)
    ensures
        n == match count {
            Some(c) => c as u32,
            None => 1u32,
        },
{
    match count {
        Some(c) => c as u32,
        None => 1,
    }
}

/// Spawns the wave candidates that are not in walls, with consecutive ids.
pub fn spawn_wave<F: Copy, G>(
    next_id: &mut NextEntityId,
    terrain: &TerrainGrid<G>,
    faction_id: u32,
    candidates: &Vec<SpawnCandidate<F>>,
) -> (orders: Vec<SpawnOrder<F>>)
    requires
        terrain.wf(),
        old(next_id).0 + wave_orders(candidates@, *terrain, old(next_id).0, faction_id).len() <= u32::MAX,
    ensures
        orders@ == wave_orders(candidates@, *terrain, old(next_id).0, faction_id),
        final(next_id).0 == old(next_id).0 + orders@.len(),
{
    let ghost start = next_id.0;
    let mut orders: Vec<SpawnOrder<F>> = Vec::new();
    let n = candidates.len();
    let mut i: usize = 0;
    assert(candidates@.take(0) =~= Seq::<SpawnCandidate<F>>::empty());
    while i < n
        invariant
            n == candidates@.len(),
            i <= n,
            terrain.wf(),
            start + wave_orders(candidates@, *terrain, start, faction_id).len() <= u32::MAX,
            orders@ == wave_orders(candidates@.take(i as int), *terrain, start, faction_id),
            next_id.0 == start + orders@.len(),
        decreases n - i,
    {
        let c = candidates[i];
        assert(candidates@.take(i + 1).drop_last() =~= candidates@.take(i as int));
        proof {
            lemma_wave_prefix(candidates@, *terrain, start, faction_id, (i + 1) as nat);
        }
        if terrain.get_hard_cost(c.cell) != WALL {
            orders.push(SpawnOrder { id: next_id.0, x: c.x, y: c.y, faction_id, loaded: None });
            next_id.0 = next_id.0 + 1;
        }
        i = i + 1;
    }
    assert(candidates@.take(n as int) =~= candidates@);
    orders
}

/// A wave of a prefix of the candidates spawns no more than the whole wave.
proof fn lemma_wave_prefix<F, G>(cands: Seq<SpawnCandidate<F>>, terrain: TerrainGrid<G>, start: u32, faction: u32, k: nat)
    requires
        k <= cands.len(),
    ensures
        wave_orders(cands.take(k as int), terrain, start, faction).len() <= wave_orders(cands, terrain, start, faction).len(),
    decreases cands.len(),
{
    if k < cands.len() {
        assert(cands.drop_last().take(k as int) =~= cands.take(k as int));
        lemma_wave_prefix(cands.drop_last(), terrain, start, faction, k);
    } else {
        assert(cands.take(k as int) =~= cands);
    }
}

/// Indices of the entities of `faction` (of all entities when `everyone`).
pub fn select_entities(entities: &Vec<EntityRecord>, faction: u32, everyone: bool) -> (idx: Vec<usize>)
    ensures
        idx@ == kill_indices(entities@, faction, everyone),
{
    let mut idx: Vec<usize> = Vec::new();
    let n = entities.len();
    let mut i: usize = 0;
    assert(entities@.take(0) =~= Seq::<EntityRecord>::empty());
    while i < n
        invariant
            n == entities@.len(),
            i <= n,
            idx@ == kill_indices(entities@.take(i as int), faction, everyone),
        decreases n - i,
    {
        assert(entities@.take(i + 1).drop_last() =~= entities@.take(i as int));
        if everyone || entities[i].faction_id == faction {
            idx.push(i);
        }
        i = i + 1;
    }
    assert(entities@.take(n as int) =~= entities@);
    idx
}

/// Despawns the entities at `idx` and records their ids as removed.
fn despawn_all<F>(entities: &Vec<EntityRecord>, idx: &Vec<usize>, removal: &mut RemovalEvents) -> (edits: Vec<WorldEdit<F>>)
    requires
        forall|j: int| 0 <= j < idx@.len() ==> (#[trigger] idx@[j]) < entities@.len(),
    ensures
        edits@ == despawns::<F>(idx@),
        final(removal).removed_ids@ == old(removal).removed_ids@ + ids_at(entities@, idx@),
{
    let mut edits: Vec<WorldEdit<F>> = Vec::new();
    let n = idx.len();
    let mut j: usize = 0;
    while j < n
        invariant
            n == idx@.len(),
            j <= n,
            forall|q: int| 0 <= q < idx@.len() ==> (#[trigger] idx@[q]) < entities@.len(),
            edits@ == despawns::<F>(idx@.take(j as int)),
            removal.removed_ids@ == old(removal).removed_ids@ + ids_at(entities@, idx@.take(j as int)),
        decreases n - j,
    {
        let i = idx[j];
        edits.push(WorldEdit::Despawn(i));
        removal.removed_ids.push(entities[i].id);
        assert(idx@.take(j + 1) =~= idx@.take(j as int).push(i));
        assert(despawns::<F>(idx@.take(j + 1)) =~= despawns::<F>(idx@.take(j as int)).push(WorldEdit::Despawn(i)));
        assert(ids_at(entities@, idx@.take(j + 1)) =~= ids_at(entities@, idx@.take(j as int)).push(entities@[i as int].id));
        j = j + 1;
    }
    assert(idx@.take(n as int) =~= idx@);
    edits
}

/// Every index `kill_indices` yields is an index of the list.
proof fn lemma_kill_indices_bounded(entities: Seq<EntityRecord>, faction: u32, everyone: bool)
    requires
        entities.len() <= usize::MAX,
    ensures
        forall|j: int| 0 <= j < kill_indices(entities, faction, everyone).len()
            ==> (#[trigger] kill_indices(entities, faction, everyone)[j]) < entities.len(),
    decreases entities.len(),
{
    if entities.len() > 0 {
        let rest = kill_indices(entities.drop_last(), faction, everyone);
        lemma_kill_indices_bounded(entities.drop_last(), faction, everyone);
        assert forall|j: int| 0 <= j < kill_indices(entities, faction, everyone).len()
            implies (#[trigger] kill_indices(entities, faction, everyone)[j]) < entities.len() by {
            if j < rest.len() {
                assert(rest[j] < entities.len() - 1);
            }
        }
    }
}

/// Kills every entity of `faction`: despawns them and records their ids.
pub fn kill_faction<F>(entities: &Vec<EntityRecord>, faction: u32, removal: &mut RemovalEvents) -> (edits: Vec<WorldEdit<F>>)
    ensures
        edits@ == despawns::<F>(kill_indices(entities@, faction, false)),
        final(removal).removed_ids@ == old(removal).removed_ids@ + ids_at(entities@, kill_indices(entities@, faction, false)),
{
    let idx = select_entities(entities, faction, false);
    let count: usize = entities.len();
    proof {
        assert(entities@.len() == count);
        lemma_kill_indices_bounded(entities@, faction, false);
    }
    despawn_all(entities, &idx, removal)
}

/// Indices of the entities a kill request for `faction_id` removes: those of
/// that faction, or every entity when `faction_id` is `u32::MAX`.
pub fn kill_targets(entities: &Vec<EntityRecord>, faction_id: u32) -> (idx: Vec<usize>)
    ensures
        idx@ == kill_indices(entities@, faction_id, faction_id == u32::MAX),
{
    select_entities(entities, faction_id, faction_id == u32::MAX)
}

/// Puts `faction_id` into or out of the static set; an unknown mode changes nothing.
pub fn set_faction_mode(behavior: &mut FactionBehaviorMode, faction_id: u32, mode: FactionMode)
    ensures
        final(behavior).static_factions@ == match mode {
            FactionMode::Static => old(behavior).static_factions@.insert(faction_id),
            FactionMode::Brain => old(behavior).static_factions@.remove(faction_id),
            FactionMode::Unknown => old(behavior).static_factions@,
        },
{
    match mode {
        FactionMode::Static => {
            behavior.static_factions.insert(faction_id);
        },
        FactionMode::Brain => {
            behavior.static_factions.remove(&faction_id);
        },
        FactionMode::Unknown => {},
    }
}

/// Paints the cells in order; coordinates and costs are truncated as received,
/// and cells outside the grid are skipped.
pub fn paint_terrain<G>(terrain: &mut TerrainGrid<G>, cells: &Vec<TerrainCellEdit>)
    requires
        old(terrain).wf(),
    ensures
        final(terrain).wf(),
        final(terrain).width == old(terrain).width,
        final(terrain).height == old(terrain).height,
        final(terrain).cell_size == old(terrain).cell_size,
        final(terrain).hard_costs@ == painted_hard(old(terrain).hard_costs@, old(terrain).width, old(terrain).height, cells@),
        final(terrain).soft_costs@ == painted_soft(old(terrain).soft_costs@, old(terrain).width, old(terrain).height, cells@),
{
    let n = cells.len();
    let mut i: usize = 0;
    assert(cells@.take(0) =~= Seq::<TerrainCellEdit>::empty());
    while i < n
        invariant
            n == cells@.len(),
            i <= n,
            terrain.wf(),
            terrain.width == old(terrain).width,
            terrain.height == old(terrain).height,
            terrain.cell_size == old(terrain).cell_size,
            terrain.hard_costs@ == painted_hard(old(terrain).hard_costs@, old(terrain).width, old(terrain).height, cells@.take(i as int)),
            terrain.soft_costs@ == painted_soft(old(terrain).soft_costs@, old(terrain).width, old(terrain).height, cells@.take(i as int)),
        decreases n - i,
    {
        let c = cells[i];
        assert(cells@.take(i + 1).drop_last() =~= cells@.take(i as int));
        terrain.set_cell(c.x as u32, c.y as u32, c.hard as u16, c.soft as u16);
        i = i + 1;
    }
    assert(cells@.take(n as int) =~= cells@);
}

/// Costs as received, truncated to `u16`.
fn truncated_costs(costs: &Vec<u64>) -> (out: Vec<u16>)
    ensures
        out@ == costs@.map_values(|c: u64| c as u16),
{
    let mut out: Vec<u16> = Vec::new();
    let n = costs.len();
    let mut i: usize = 0;
    while i < n
        invariant
            n == costs@.len(),
            i <= n,
            out@ == costs@.take(i as int).map_values(|c: u64| c as u16),
        decreases n - i,
    {
        out.push(costs[i] as u16);
        assert(costs@.take(i + 1).map_values(|c: u64| c as u16)
            =~= costs@.take(i as int).map_values(|c: u64| c as u16).push(costs@[i as int] as u16));
        i = i + 1;
    }
    assert(costs@.take(n as int) =~= costs@);
    out
}

/// Replaces the terrain with a saved one, dimensions truncated to `u32` and
/// costs to `u16`, taken as received.
pub fn load_terrain<G>(terrain: &mut TerrainGrid<G>, snapshot: TerrainSnapshot<G>)
    ensures
        final(terrain).width == snapshot.width as u32,
        final(terrain).height == snapshot.height as u32,
        final(terrain).cell_size == snapshot.cell_size,
        final(terrain).hard_costs@ == snapshot.hard_costs@.map_values(|c: u64| c as u16),
        final(terrain).soft_costs@ == snapshot.soft_costs@.map_values(|c: u64| c as u16),
{
    let hard = truncated_costs(&snapshot.hard_costs);
    let soft = truncated_costs(&snapshot.soft_costs);
    terrain.width = snapshot.width as u32;
    terrain.height = snapshot.height as u32;
    terrain.cell_size = snapshot.cell_size;
    terrain.hard_costs = hard;
    terrain.soft_costs = soft;
}

/// The id after the largest loaded id.
pub fn next_id_after_load<F>(loaded: &Vec<LoadedEntity<F>>) -> (next: u32)
    requires
        max_loaded_id(loaded@) < u32::MAX,
    ensures
        next == max_loaded_id(loaded@) + 1,
{
    let mut max_id: u32 = 0;
    let n = loaded.len();
    let mut i: usize = 0;
    assert(loaded@.take(0) =~= Seq::<LoadedEntity<F>>::empty());
    while i < n
        invariant
            n == loaded@.len(),
            i <= n,
            max_id == max_loaded_id(loaded@.take(i as int)),
        decreases n - i,
    {
        assert(loaded@.take(i + 1).drop_last() =~= loaded@.take(i as int));
        let id = loaded[i].id as u32;
        if id > max_id {
            max_id = id;
        }
        i = i + 1;
    }
    assert(loaded@.take(n as int) =~= loaded@);
    max_id + 1
}

/// Spawn orders for the loaded entities.
fn load_spawns<F: Copy>(loaded: &Vec<LoadedEntity<F>>) -> (orders: Vec<WorldEdit<F>>)
    ensures
        orders@ == load_orders(loaded@).map_values(|o: SpawnOrder<F>| WorldEdit::Spawn(o)),
{
    let mut orders: Vec<WorldEdit<F>> = Vec::new();
    let n = loaded.len();
    let mut i: usize = 0;
    while i < n
        invariant
            n == loaded@.len(),
            i <= n,
            orders@ == load_orders(loaded@.take(i as int)).map_values(|o: SpawnOrder<F>| WorldEdit::Spawn(o)),
        decreases n - i,
    {
        let e = loaded[i];
        orders.push(WorldEdit::Spawn(SpawnOrder {
            id: e.id as u32,
            x: e.x,
            y: e.y,
            faction_id: e.faction_id as u32,
            loaded: Some(i),
        }));
        assert(load_orders(loaded@.take(i + 1)).map_values(|o: SpawnOrder<F>| WorldEdit::Spawn(o))
            =~= load_orders(loaded@.take(i as int)).map_values(|o: SpawnOrder<F>| WorldEdit::Spawn(o)).push(
                WorldEdit::Spawn(SpawnOrder { id: e.id as u32, x: e.x, y: e.y, faction_id: e.faction_id as u32, loaded: Some(i) })));
        i = i + 1;
    }
    assert(loaded@.take(n as int) =~= loaded@);
    orders
}

/// Index of the first entity with id `id`, if any.
pub fn find_entity(entities: &Vec<EntityRecord>, id: u32) -> (found: Option<usize>)
    ensures
        match first_with_id(entities@, id) {
            Some(i) => found == Some(i as usize),
            None => found is None,
        },
{
    let n = entities.len();
    let mut i: usize = 0;
    while i < n
        invariant
            n == entities@.len(),
            i <= n,
            first_with_id(entities@.take(i as int), id) is None,
        decreases n - i,
    {
        assert(entities@.take(i + 1).drop_last() =~= entities@.take(i as int));
        if entities[i].id == id {
            proof {
                lemma_first_with_id_prefix(entities@, (i + 1) as nat, id);
            }
            return Some(i);
        }
        i = i + 1;
    }
    assert(entities@.take(n as int) =~= entities@);
    None
}

/// A match found in a prefix is the first match of the whole list.
proof fn lemma_first_with_id_prefix(entities: Seq<EntityRecord>, k: nat, id: u32)
    requires
        k <= entities.len(),
        first_with_id(entities.take(k as int), id) is Some,
    ensures
        first_with_id(entities, id) == first_with_id(entities.take(k as int), id),
    decreases entities.len() - k,
{
    if k < entities.len() {
        assert(entities.take(k + 1 as int).drop_last() =~= entities.take(k as int));
        lemma_first_with_id_prefix(entities, (k + 1) as nat, id);
    } else {
        assert(entities.take(k as int) =~= entities);
    }
}

// ── One command against all resources ────────────────────────────────

/// The resources a command may change.
#[derive(Clone, Copy, Debug, PartialEq, Eq)]
pub enum WsField {
    NextId,
    Paused,
    Speed,
    Step,
    Behavior,
    Terrain,
    Fog,
    Removal,
    Zones,
    Directive,
    Aggro,
}

/// Every resource outside `touched` is the same in `a` and `b`.
pub open spec fn keeps<F>(a: WsResources<F>, b: WsResources<F>, touched: Set<WsField>) -> bool {
    &&& touched.contains(WsField::NextId) || b.next_id == a.next_id
    &&& touched.contains(WsField::Paused) || b.paused == a.paused
    &&& touched.contains(WsField::Speed) || b.speed == a.speed
    &&& touched.contains(WsField::Step) || b.step == a.step
    &&& touched.contains(WsField::Behavior) || b.behavior == a.behavior
    &&& touched.contains(WsField::Terrain) || b.terrain == a.terrain
    &&& touched.contains(WsField::Fog) || b.fog == a.fog
    &&& touched.contains(WsField::Removal) || b.removal == a.removal
    &&& touched.contains(WsField::Zones) || b.zones == a.zones
    &&& touched.contains(WsField::Directive) || b.directive == a.directive
    &&& touched.contains(WsField::Aggro) || b.aggro == a.aggro
}

/// The pending directives are replaced by `d`, when the directive resource exists.
pub open spec fn directive_replaced<F>(a: Option<LatestDirective<F>>, b: Option<LatestDirective<F>>, d: MacroDirective<F>) -> bool {
    match a {
        None => b is None,
        Some(la) => b matches Some(lb) && {
            &&& lb.directives@ == seq![d]
            &&& lb.last_received_tick == la.last_received_tick
            &&& lb.last_directive_json == la.last_directive_json
        },
    }
}

/// Whether `b` and `edits` are what command `action` makes of `a`, given the entity list.
pub open spec fn ws_effect<F>(
    a: WsResources<F>,
    b: WsResources<F>,
    entities: Seq<EntityRecord>,
    action: WsAction<F>,
    edits: Seq<WorldEdit<F>>,
) -> bool {
    match action {
        WsAction::ToggleSim => {
            &&& b.paused.0 == !a.paused.0
            &&& keeps(a, b, set![WsField::Paused])
            &&& edits.len() == 0
        },
        WsAction::Step { count } => {
            &&& b.step.0 == match count {
                Some(c) => c as u32,
                None => 1u32,
            }
            &&& keeps(a, b, set![WsField::Step])
            &&& edits.len() == 0
        },
        WsAction::SpawnWave { faction_id, candidates } => {
            let orders = wave_orders(candidates@, a.terrain, a.next_id.0, faction_id as u32);
            &&& edits == orders.map_values(|o: SpawnOrder<F>| WorldEdit::Spawn(o))
            &&& b.next_id.0 == a.next_id.0 + orders.len()
            &&& keeps(a, b, set![WsField::NextId])
        },
        WsAction::SetSpeed { multiplier } => {
            &&& b.speed == multiplier
            &&& keeps(a, b, set![WsField::Speed])
            &&& edits.len() == 0
        },
        WsAction::KillAll { faction_id } => {
            let idx = kill_indices(entities, faction_id as u32, false);
            &&& edits == despawns::<F>(idx)
            &&& b.removal.removed_ids@ == a.removal.removed_ids@ + ids_at(entities, idx)
            &&& keeps(a, b, set![WsField::Removal])
        },
        WsAction::SetFactionMode { faction_id, mode } => {
            &&& b.behavior.static_factions@ == match mode {
                FactionMode::Static => a.behavior.static_factions@.insert(faction_id as u32),
                FactionMode::Brain => a.behavior.static_factions@.remove(faction_id as u32),
                FactionMode::Unknown => a.behavior.static_factions@,
            }
            &&& keeps(a, b, set![WsField::Behavior])
            &&& edits.len() == 0
        },
        WsAction::SetTerrain { cells } => {
            &&& b.terrain.wf()
            &&& b.terrain.width == a.terrain.width
            &&& b.terrain.height == a.terrain.height
            &&& b.terrain.cell_size == a.terrain.cell_size
            &&& b.terrain.hard_costs@ == painted_hard(a.terrain.hard_costs@, a.terrain.width, a.terrain.height, cells@)
            &&& b.terrain.soft_costs@ == painted_soft(a.terrain.soft_costs@, a.terrain.width, a.terrain.height, cells@)
            &&& keeps(a, b, set![WsField::Terrain])
            &&& edits.len() == 0
        },
        WsAction::ClearTerrain => {
            &&& b.terrain.wf()
            &&& b.terrain.width == a.terrain.width
            &&& b.terrain.height == a.terrain.height
            &&& b.terrain.cell_size == a.terrain.cell_size
            &&& forall|i: int| 0 <= i < b.terrain.cell_count() ==> b.terrain.hard_costs@[i] == crate::terrain::DEFAULT_COST
            &&& forall|i: int| 0 <= i < b.terrain.cell_count() ==> b.terrain.soft_costs@[i] == crate::terrain::DEFAULT_COST
            &&& keeps(a, b, set![WsField::Terrain])
            &&& edits.len() == 0
        },
        WsAction::LoadScenario { terrain, entities: loaded } => {
            let all = kill_indices(entities, 0, true);
            &&& edits == despawns::<F>(all) + load_orders(loaded@).map_values(|o: SpawnOrder<F>| WorldEdit::Spawn(o))
            &&& b.removal.removed_ids@ == a.removal.removed_ids@ + ids_at(entities, all)
            &&& b.next_id.0 == max_loaded_id(loaded@) + 1
            &&& match terrain {
                Some(t) => {
                    &&& b.terrain.width == t.width as u32
                    &&& b.terrain.height == t.height as u32
                    &&& b.terrain.cell_size == t.cell_size
                    &&& b.terrain.hard_costs@ == t.hard_costs@.map_values(|c: u64| c as u16)
                    &&& b.terrain.soft_costs@ == t.soft_costs@.map_values(|c: u64| c as u16)
                },
                None => b.terrain == a.terrain,
            }
            &&& keeps(a, b, set![WsField::Removal, WsField::NextId, WsField::Terrain])
        },
        WsAction::SetFogFaction { request } => {
            &&& b.fog == match a.fog {
                None => None,
                Some(f) => match request {
                    FogRequest::Disable => Some(ActiveFogFaction(None)),
                    FogRequest::Show(id) => Some(ActiveFogFaction(Some(id as u32))),
                    FogRequest::Ignore => Some(f),
                },
            }
            &&& keeps(a, b, set![WsField::Fog])
            &&& edits.len() == 0
        },
        WsAction::PlaceZoneModifier { target_faction, x, y, radius, cost_modifier, ticks } => {
            &&& match a.zones {
                None => b.zones is None,
                Some(za) => b.zones matches Some(zb) && zb.zones@ == za.zones@.push(ZoneModifier {
                    target_faction: target_faction as u32,
                    x,
                    y,
                    radius,
                    cost_modifier,
                    ticks_remaining: ticks as u32,
                }),
            }
            &&& keeps(a, b, set![WsField::Zones])
            &&& edits.len() == 0
        },
        WsAction::SplitFaction { source_faction, new_sub_faction, percentage, epicenter } => {
            &&& directive_replaced(a.directive, b.directive, MacroDirective::SplitFaction {
                source_faction: source_faction as u32,
                new_sub_faction: new_sub_faction as u32,
                percentage,
                epicenter,
                class_filter: None,
            })
            &&& keeps(a, b, set![WsField::Directive])
            &&& edits.len() == 0
        },
        WsAction::MergeFaction { source_faction, target_faction } => {
            &&& directive_replaced(a.directive, b.directive, MacroDirective::MergeFaction {
                source_faction: source_faction as u32,
                target_faction: target_faction as u32,
            })
            &&& keeps(a, b, set![WsField::Directive])
            &&& edits.len() == 0
        },
        WsAction::InjectDirective { directive } => {
            &&& directive_replaced(a.directive, b.directive, directive)
            &&& keeps(a, b, set![WsField::Directive])
            &&& edits.len() == 0
        },
        WsAction::SetAggroMask { source_faction, target_faction, allow_combat } => {
            &&& match a.aggro {
                None => b.aggro is None,
                Some(ra) => b.aggro matches Some(rb)
                    && rb.masks@ == ra.masks@.insert(pair_key(source_faction as u32, target_faction as u32), allow_combat),
            }
            &&& keeps(a, b, set![WsField::Aggro])
            &&& edits.len() == 0
        },
        WsAction::SetEngineOverride { entity_id, vx, vy, ticks } => {
            &&& edits == match first_with_id(entities, entity_id as u32) {
                Some(i) => seq![WorldEdit::SetOverride {
                    index: i as usize,
                    vx,
                    vy,
                    ticks: if ticks > 0 { Some(ticks as u32) } else { None },
                }],
                None => Seq::empty(),
            }
            &&& keeps(a, b, Set::empty())
        },
        WsAction::ClearEngineOverride { entity_id } => {
            &&& edits == match first_with_id(entities, entity_id as u32) {
                Some(i) => seq![WorldEdit::<F>::ClearOverride(i as usize)],
                None => Seq::empty(),
            }
            &&& keeps(a, b, Set::empty())
        },
    }
}

/// What a command needs of the resources to run without overflow.
pub open spec fn ws_ready<F>(a: WsResources<F>, action: WsAction<F>) -> bool {
    match action {
        WsAction::SpawnWave { faction_id, candidates } => a.terrain.wf()
            && a.next_id.0 + wave_orders(candidates@, a.terrain, a.next_id.0, faction_id as u32).len() <= u32::MAX,
        WsAction::SetTerrain { .. } => a.terrain.wf(),
        WsAction::ClearTerrain => a.terrain.wf(),
        WsAction::LoadScenario { entities, .. } => max_loaded_id(entities@) < u32::MAX,
        _ => true,
    }
}

/// Carries out one visualizer command: updates the resources and returns the
/// changes to make to the entity list (indices refer to `entities`).
pub fn apply_ws_command<F: Copy>(res: &mut WsResources<F>, entities: &Vec<EntityRecord>, action: WsAction<F>) -> (edits: Vec<WorldEdit<F>>)
    requires
        ws_ready(*old(res), action),
    ensures
        ws_effect(*old(res), *final(res), entities@, action, edits@),
{
    match action {
        WsAction::ToggleSim => {
            res.paused.0 = !res.paused.0;
            Vec::new()
        },
        WsAction::Step { count } => {
            res.step.0 = step_count(count);
            Vec::new()
        },
        WsAction::SpawnWave { faction_id, candidates } => {
            let orders = spawn_wave(&mut res.next_id, &res.terrain, faction_id as u32, &candidates);
            let mut edits: Vec<WorldEdit<F>> = Vec::new();
            let n = orders.len();
            let mut i: usize = 0;
            while i < n
                invariant
                    n == orders@.len(),
                    i <= n,
                    edits@ == orders@.take(i as int).map_values(|o: SpawnOrder<F>| WorldEdit::Spawn(o)),
                decreases n - i,
            {
                edits.push(WorldEdit::Spawn(orders[i]));
                assert(orders@.take(i + 1).map_values(|o: SpawnOrder<F>| WorldEdit::Spawn(o))
                    =~= orders@.take(i as int).map_values(|o: SpawnOrder<F>| WorldEdit::Spawn(o)).push(WorldEdit::Spawn(orders@[i as int])));
                i = i + 1;
            }
            assert(orders@.take(n as int) =~= orders@);
            edits
        },
        WsAction::SetSpeed { multiplier } => {
            res.speed = multiplier;
            Vec::new()
        },
        WsAction::KillAll { faction_id } => {
            kill_faction(entities, faction_id as u32, &mut res.removal)
        },
        WsAction::SetFactionMode { faction_id, mode } => {
            set_faction_mode(&mut res.behavior, faction_id as u32, mode);
            Vec::new()
        },
        WsAction::SetTerrain { cells } => {
            paint_terrain(&mut res.terrain, &cells);
            Vec::new()
        },
        WsAction::ClearTerrain => {
            res.terrain.reset();
            Vec::new()
        },
        WsAction::LoadScenario { terrain, entities: loaded } => {
            let all = select_entities(entities, 0, true);
            let count: usize = entities.len();
            proof {
                assert(entities@.len() == count);
                lemma_kill_indices_bounded(entities@, 0, true);
            }
            let mut edits = despawn_all(entities, &all, &mut res.removal);
            match terrain {
                Some(t) => load_terrain(&mut res.terrain, t),
                None => {},
            }
            let mut spawns = load_spawns(&loaded);
            edits.append(&mut spawns);
            res.next_id.0 = next_id_after_load(&loaded);
            edits
        },
        WsAction::SetFogFaction { request } => {
            if res.fog.is_some() {
                match request {
                    FogRequest::Disable => res.fog = Some(ActiveFogFaction(None)),
                    FogRequest::Show(id) => res.fog = Some(ActiveFogFaction(Some(id as u32))),
                    FogRequest::Ignore => {},
                }
            }
            Vec::new()
        },
        WsAction::PlaceZoneModifier { target_faction, x, y, radius, cost_modifier, ticks } => {
            if let Some(mut zones) = res.zones.take() {
                zones.zones.push(ZoneModifier {
                    target_faction: target_faction as u32,
                    x,
                    y,
                    radius,
                    cost_modifier,
                    ticks_remaining: ticks as u32,
                });
                res.zones = Some(zones);
            }
            Vec::new()
        },
        WsAction::SplitFaction { source_faction, new_sub_faction, percentage, epicenter } => {
            replace_directive(&mut res.directive, MacroDirective::SplitFaction {
                source_faction: source_faction as u32,
                new_sub_faction: new_sub_faction as u32,
                percentage,
                epicenter,
                class_filter: None,
            });
            Vec::new()
        },
        WsAction::MergeFaction { source_faction, target_faction } => {
            replace_directive(&mut res.directive, MacroDirective::MergeFaction {
                source_faction: source_faction as u32,
                target_faction: target_faction as u32,
            });
            Vec::new()
        },
        WsAction::InjectDirective { directive } => {
            replace_directive(&mut res.directive, directive);
            Vec::new()
        },
        WsAction::SetAggroMask { source_faction, target_faction, allow_combat } => {
            if let Some(mut masks) = res.aggro.take() {
                masks.set_mask(source_faction as u32, target_faction as u32, allow_combat);
                res.aggro = Some(masks);
            }
            Vec::new()
        },
        WsAction::SetEngineOverride { entity_id, vx, vy, ticks } => {
            let mut edits: Vec<WorldEdit<F>> = Vec::new();
            match find_entity(entities, entity_id as u32) {
                Some(i) => {
                    let t = if ticks > 0 { Some(ticks as u32) } else { None };
                    edits.push(WorldEdit::SetOverride { index: i, vx, vy, ticks: t });
                },
                None => {},
            }
            edits
        },
        WsAction::ClearEngineOverride { entity_id } => {
            let mut edits: Vec<WorldEdit<F>> = Vec::new();
            match find_entity(entities, entity_id as u32) {
                Some(i) => edits.push(WorldEdit::ClearOverride(i)),
                None => {},
            }
            edits
        },
    }
}

/// Replaces the pending directives with `d`, when the resource exists.
fn replace_directive<F>(slot: &mut Option<LatestDirective<F>>, d: MacroDirective<F>)
    ensures
        directive_replaced(*old(slot), *final(slot), d),
{
    if let Some(mut ld) = slot.take() {
        let mut v: Vec<MacroDirective<F>> = Vec::new();
        v.push(d);
        ld.directives = v;
        *slot = Some(ld);
    }
}

// ── Initial population ────────────────────────────────────────────────

/// Ids and factions of the initial population: consecutive ids from the next
/// id, factions cycling through `0 .. faction_count`.
pub fn initial_spawn_plan(next_id: &mut NextEntityId, count: u32, faction_count: u32) -> (plan: Vec<EntityRecord>)
    requires
        count == 0 || faction_count > 0,
        old(next_id).0 + count <= u32::MAX,
    ensures
        plan@.len() == count,
        forall|i: int| 0 <= i < count ==> #[trigger] plan@[i] == (EntityRecord {
            id: (old(next_id).0 + i) as u32,
            faction_id: (i % faction_count as int) as u32,
        }),
        final(next_id).0 == old(next_id).0 + count,
{
    let mut plan: Vec<EntityRecord> = Vec::new();
    let mut i: u32 = 0;
    while i < count
        invariant
            i <= count,
            count == 0 || faction_count > 0,
            old(next_id).0 + count <= u32::MAX,
            next_id.0 == old(next_id).0 + i,
            plan@.len() == i,
            forall|j: int| 0 <= j < i ==> #[trigger] plan@[j] == (EntityRecord {
                id: (old(next_id).0 + j) as u32,
                faction_id: (j % faction_count as int) as u32,
            }),
        decreases count - i,
    {
        plan.push(EntityRecord { id: next_id.0, faction_id: i % faction_count });
        next_id.0 = next_id.0 + 1;
        i = i + 1;
    }
    plan
}

} // verus!
