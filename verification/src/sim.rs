//! Simulation clock, pause and step control, tick-scheduled work,
//! engine-override countdowns and removal bookkeeping.

use vstd::prelude::*;

verus! {

/// Ticks elapsed since the simulation started.
#[derive(Clone, Copy, Debug, Default, PartialEq, Eq)]
pub struct TickCounter {
    pub tick: u64,
}

/// Whether the simulation is paused.
#[derive(Clone, Copy, Debug, Default, PartialEq, Eq)]
pub struct SimPaused(pub bool);

/// Ticks still to run in step mode.
#[derive(Clone, Copy, Debug, Default, PartialEq, Eq)]
pub struct SimStepRemaining(pub u32);

/// Whether any engine override was active this tick.
#[derive(Clone, Copy, Debug, Default, PartialEq, Eq)]
pub struct InterventionTracker {
    pub active: bool,
}

/// Ids of the entities removed this tick.
#[derive(Clone, Debug, Default, PartialEq, Eq)]
pub struct RemovalEvents {
    pub removed_ids: Vec<u32>,
}

/// Advances the clock by one tick.
pub fn tick_counter_system(counter: &mut TickCounter)
    requires
        old(counter).tick < u64::MAX,
    ensures
        final(counter).tick == old(counter).tick + 1,
{
    counter.tick = counter.tick + 1;
}

/// Steps left and pause flag after one tick of step mode.
pub open spec fn step_after(step: u32, paused: bool) -> (u32, bool) {
    if step > 0 {
        ((step - 1) as u32, paused || step == 1)
    } else {
        (step, paused)
    }
}

/// Steps left and pause flag after `n` ticks of step mode.
pub open spec fn step_after_ticks(step: u32, paused: bool, n: nat) -> (u32, bool)
    decreases n,
{
    if n == 0 {
        (step, paused)
    } else {
        let s = step_after_ticks(step, paused, (n - 1) as nat);
        step_after(s.0, s.1)
    }
}

/// In step mode, consumes one step and pauses when the last step is used.
/// Returns whether this call paused the simulation.
pub fn step_tick_system(step: &mut SimStepRemaining, paused: &mut SimPaused) -> (auto_paused: bool)
    ensures
        (final(step).0, final(paused).0) == step_after(old(step).0, old(paused).0),
        auto_paused == (old(step).0 == 1),
{
    if step.0 > 0 {
        step.0 = step.0 - 1;
        if step.0 == 0 {
            paused.0 = true;
            return true;
        }
    }
    false
}

/// Whether the flow fields are recomputed at `tick`: never at tick 0, then
/// every `interval` ticks (never, for an interval of 0).
pub open spec fn spec_flow_field_due(tick: u64, interval: u64) -> bool {
    tick != 0 && interval != 0 && tick % interval == 0
}

pub fn flow_field_due(tick: u64, interval: u64) -> (due: bool)
    ensures
        due == spec_flow_field_due(tick, interval),
{
    tick != 0 && interval != 0 && tick % interval == 0
}

/// Ticks between full state snapshots to observers.
pub const FULL_SYNC_PERIOD: u64 = 60;

/// Ticks between fog, zone, mask and heat-map overlays to observers.
pub const OVERLAY_PERIOD: u64 = 6;

/// What an observer broadcast carries at a given tick.
#[derive(Clone, Copy, Debug, PartialEq, Eq)]
pub struct SyncPlan {
    /// Every entity rather than only those that changed.
    pub full_snapshot: bool,
    /// Debug overlays (fog, zones, masks, density maps).
    pub overlays: bool,
}

pub fn sync_plan(tick: u64) -> (p: SyncPlan)
    ensures
        p.full_snapshot == (tick % FULL_SYNC_PERIOD == 0),
        p.overlays == (tick % OVERLAY_PERIOD == 0),
{
    SyncPlan { full_snapshot: tick % FULL_SYNC_PERIOD == 0, overlays: tick % OVERLAY_PERIOD == 0 }
}

/// Hands out the ids removed since the last call and forgets them.
pub fn drain_removed(events: &mut RemovalEvents) -> (removed: Vec<u32>)
    ensures
        removed@ == old(events).removed_ids@,
        final(events).removed_ids@.len() == 0,
{
    let mut removed: Vec<u32> = Vec::new();
    std::mem::swap(&mut removed, &mut events.removed_ids);
    removed
}

/// One tick of a timed engine override: the remaining ticks, decremented
/// without going below 0, and whether the override ends now. An override
/// without a duration never ends.
pub fn override_countdown(ticks_remaining: Option<u32>) -> (r: (Option<u32>, bool))
    ensures
        match ticks_remaining {
            Some(t) => r.0 == Some(if t > 0 { (t - 1) as u32 } else { 0u32 }) && r.1 == (t <= 1),
            None => r.0 is None && !r.1,
        },
{
    match ticks_remaining {
        Some(t) => {
            let left = if t > 0 { t - 1 } else { 0 };
            (Some(left), left == 0)
        },
        None => (None, false),
    }
}

/// Ticks after which a unit no longer counts as recently damaged.
pub const RECENT_DAMAGE_THRESHOLD: u64 = 30;

/// Whether a unit last damaged at `last_damaged_tick` counts as recently
/// damaged at `now`; 0 means it was never damaged.
pub fn recently_damaged(last_damaged_tick: u64, now: u64) -> (b: bool)
    ensures
        b == (last_damaged_tick != 0 && (if now >= last_damaged_tick {
            now - last_damaged_tick
        } else {
            0
        }) <= RECENT_DAMAGE_THRESHOLD),
{
    let elapsed = if now >= last_damaged_tick { now - last_damaged_tick } else { 0 };
    last_damaged_tick != 0 && elapsed <= RECENT_DAMAGE_THRESHOLD
}

/// Number of shards the tactical sensor spreads its units over.
pub const SENSOR_SHARDS: u64 = 6;

/// Whether the unit with entity index `entity_index` is evaluated at `tick`.
pub fn in_sensor_shard(entity_index: u32, tick: u64) -> (b: bool)
    ensures
        b == (entity_index as u64 % SENSOR_SHARDS == tick % SENSOR_SHARDS),
{
    entity_index as u64 % SENSOR_SHARDS == tick % SENSOR_SHARDS
}

/// Takes a value and does nothing with it.
pub fn foo(b: u32) {
}

/// Stepping `k > 0` ticks runs exactly `k` ticks unpaused-by-step and then
/// pauses: before the `k`-th tick the pause flag is untouched and `k - n`
/// steps remain, after it none remain and the simulation is paused.
pub proof fn law_step_runs_then_pauses(k: u32, paused: bool, n: nat)
    requires
        0 < k,
        n <= k,
    ensures
        n < k ==> step_after_ticks(k, paused, n) == ((k - n) as u32, paused),
        n == k ==> step_after_ticks(k, paused, n) == (0u32, true),
    decreases n,
{
    if n > 0 {
        law_step_runs_then_pauses(k, paused, (n - 1) as nat);
    }
}

} // verus!
