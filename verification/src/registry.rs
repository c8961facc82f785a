//! Faction-keyed registries that directives write and timers wear down:
//! zone cost modifiers, aggro masks, sub-factions, buff groups with cooldowns,
//! and tactical behaviour overrides. Float parameters are carried as an opaque `F`.

use vstd::prelude::*;
use std::collections::HashMap;
use crate::keys::key_list;
use crate::seqs::retain_by;

verus! {

broadcast use vstd::std_specs::hash::group_hash_axioms;

// ── Zone modifiers ─────────────────────────────────────────────────────

/// A temporary path-cost overlay for `target_faction` around (`x`, `y`).
#[derive(Clone, Copy, Debug, PartialEq)]
pub struct ZoneModifier<F> {
    pub target_faction: u32,
    pub x: F,
    pub y: F,
    pub radius: F,
    pub cost_modifier: F,
    pub ticks_remaining: u32,
}

#[derive(Clone, Debug, PartialEq)]
pub struct ActiveZoneModifiers<F> {
    pub zones: Vec<ZoneModifier<F>>,
}

impl<F> Default for ActiveZoneModifiers<F> {
    fn default() -> (z: Self)
        ensures
            z.zones@ == Seq::<ZoneModifier<F>>::empty(),
    {
        ActiveZoneModifiers { zones: Vec::new() }
    }
}

/// A zone one tick later.
pub open spec fn zone_after_tick<F>(z: ZoneModifier<F>) -> ZoneModifier<F> {
    ZoneModifier {
        target_faction: z.target_faction,
        x: z.x,
        y: z.y,
        radius: z.radius,
        cost_modifier: z.cost_modifier,
        ticks_remaining: (z.ticks_remaining - 1) as u32,
    }
}

/// Whether a zone outlives the next tick.
pub open spec fn zone_survives<F>(z: ZoneModifier<F>) -> bool {
    z.ticks_remaining > 1
}

/// Decrements every zone's remaining duration and drops the zones that reach 0.
pub fn zone_tick_system<F: Copy>(zones: &mut ActiveZoneModifiers<F>)
    ensures
        final(zones).zones@ == old(zones).zones@.filter(|z: ZoneModifier<F>| zone_survives(z)).map_values(
            |z: ZoneModifier<F>| zone_after_tick(z),
        ),
{
    let ghost pred = |z: ZoneModifier<F>| zone_survives(z);
    let survives = |z: &ZoneModifier<F>| -> (b: bool)
        ensures
            b == zone_survives(*z),
    {
        z.ticks_remaining > 1
    };
    retain_by(&mut zones.zones, survives, Ghost(pred));
    let ghost kept = zones.zones@;
    proof {
        assert forall|k: int| 0 <= k < kept.len() implies #[trigger] kept[k].ticks_remaining > 1 by {
            broadcast use vstd::seq_lib::group_filter_ensures;
            assert(old(zones).zones@.filter(pred).contains(kept[k]));
        }
    }
    let n = zones.zones.len();
    let mut i: usize = 0;
    while i < n
        invariant
            n == kept.len(),
            zones.zones@.len() == n,
            i <= n,
            forall|k: int| 0 <= k < kept.len() ==> #[trigger] kept[k].ticks_remaining > 1,
            forall|k: int| 0 <= k < i ==> zones.zones@[k] == zone_after_tick(kept[k]),
            forall|k: int| i <= k < n ==> zones.zones@[k] == kept[k],
        decreases n - i,
    {
        let z = zones.zones[i];
        assert(kept[i as int].ticks_remaining > 1);
        zones.zones.set(
            i,
            ZoneModifier {
                target_faction: z.target_faction,
                x: z.x,
                y: z.y,
                radius: z.radius,
                cost_modifier: z.cost_modifier,
                ticks_remaining: z.ticks_remaining - 1,
            },
        );
        i = i + 1;
    }
    assert(zones.zones@ =~= kept.map_values(|z: ZoneModifier<F>| zone_after_tick(z)));
}

// ── Aggro masks ────────────────────────────────────────────────────────

/// Map key of the ordered faction pair (`source`, `target`).
pub open spec fn pair_key(source: u32, target: u32) -> u64 {
    (source as int * 0x1_0000_0000 + target as int) as u64
}

pub open spec fn key_source(k: u64) -> u32 {
    (k / 0x1_0000_0000u64) as u32
}

pub open spec fn key_target(k: u64) -> u32 {
    (k % 0x1_0000_0000u64) as u32
}

/// A pair key decodes back to its pair, and fits in `u64`.
pub proof fn lemma_pair_key(source: u32, target: u32)
    ensures
        key_source(pair_key(source, target)) == source,
        key_target(pair_key(source, target)) == target,
        source as int * 0x1_0000_0000 + target as int <= u64::MAX,
{
    vstd::arithmetic::div_mod::lemma_fundamental_div_mod_converse(
        source as int * 0x1_0000_0000 + target as int,
        0x1_0000_0000,
        source as int,
        target as int,
    );
}

/// Whether the mask stored under key `k` survives the removal of `faction`.
pub open spec fn mask_kept(k: u64, faction: u32) -> bool {
    key_source(k) != faction && key_target(k) != faction
}

/// Per ordered faction pair, whether combat is allowed; pairs without an entry allow it.
#[derive(Clone, Debug)]
pub struct AggroMaskRegistry {
    pub masks: HashMap<u64, bool>,
}

impl Default for AggroMaskRegistry {
    fn default() -> (r: Self)
        ensures
            r.masks@ == Map::<u64, bool>::empty(),
    {
        AggroMaskRegistry { masks: HashMap::new() }
    }
}

impl AggroMaskRegistry {
    /// The mask stored for (`source`, `target`), if any.
    pub open spec fn mask(&self, source: u32, target: u32) -> Option<bool> {
        if self.masks@.contains_key(pair_key(source, target)) {
            Some(self.masks@[pair_key(source, target)])
        } else {
            None
        }
    }

    pub open spec fn spec_combat_allowed(&self, source: u32, target: u32) -> bool {
        match self.mask(source, target) {
            Some(b) => b,
            None => true,
        }
    }

    fn key(source: u32, target: u32) -> (k: u64)
        ensures
            k == pair_key(source, target),
    {
        proof {
            lemma_pair_key(source, target);
            assert(source as int * 0x1_0000_0000 <= 0xFFFF_FFFF * 0x1_0000_0000) by (nonlinear_arith)
                requires
                    source <= 0xFFFF_FFFFu32,
            ;
        }
        source as u64 * 0x1_0000_0000 + target as u64
    }

    /// Whether `source` may fight `target`: the stored mask, or `true` without one.
    pub fn is_combat_allowed(&self, source: u32, target: u32) -> (b: bool)
        ensures
            b == self.spec_combat_allowed(source, target),
    {
        match self.masks.get(&Self::key(source, target)) {
            Some(allowed) => *allowed,
            None => true,
        }
    }

    /// Stores the mask for (`source`, `target`).
    pub fn set_mask(&mut self, source: u32, target: u32, allow_combat: bool)
        ensures
            final(self).masks@ == old(self).masks@.insert(pair_key(source, target), allow_combat),
    {
        let k = Self::key(source, target);
        self.masks.insert(k, allow_combat);
    }

    /// Number of stored masks.
    pub fn len(&self) -> (n: usize)
        ensures
            n == self.masks@.len(),
    {
        self.masks.len()
    }

    /// Drops every mask whose source or target is `faction`.
    pub fn remove_faction(&mut self, faction: u32)
        ensures
            final(self).masks@ == old(self).masks@.restrict(
                old(self).masks@.dom().filter(|k: u64| mask_kept(k, faction)),
            ),
    {
        let keys = key_list(&self.masks);
        let n = keys.len();
        let mut i: usize = 0;
        while i < n
            invariant
                n == keys@.len(),
                i <= n,
                keys@.to_set() == old(self).masks@.dom(),
                keys@.no_duplicates(),
                forall|k: u64| #[trigger] self.masks@.contains_key(k) ==> old(self).masks@.contains_key(k)
                    && self.masks@[k] == old(self).masks@[k],
                forall|k: u64| #[trigger] old(self).masks@.contains_key(k) && mask_kept(k, faction)
                    ==> self.masks@.contains_key(k),
                forall|j: int| 0 <= j < i && !mask_kept(keys@[j], faction) ==> !self.masks@.contains_key(#[trigger] keys@[j]),
                forall|j: int| i <= j < n ==> (old(self).masks@.contains_key(#[trigger] keys@[j])
                    ==> self.masks@.contains_key(keys@[j])),
            decreases n - i,
        {
            let k = keys[i];
            assert(keys@.to_set().contains(k));
            let s = (k / 0x1_0000_0000u64) as u32;
            let t = (k % 0x1_0000_0000u64) as u32;
            assert(k / 0x1_0000_0000 < 0x1_0000_0000) by (nonlinear_arith)
                requires
                    k <= 0xFFFF_FFFF_FFFF_FFFFu64,
            ;
            assert(s == key_source(k));
            assert(t == key_target(k));
            assert(mask_kept(k, faction) == !(s == faction || t == faction));
            if s == faction || t == faction {
                self.masks.remove(&k);
            }
            i = i + 1;
            assert forall|j: int| i <= j < n implies (old(self).masks@.contains_key(#[trigger] keys@[j])
                ==> self.masks@.contains_key(keys@[j])) by {
                assert(keys@[j] != k);
            }
            assert forall|j: int| 0 <= j < i && !mask_kept(keys@[j], faction) implies !self.masks@.contains_key(#[trigger] keys@[j]) by {
            }
        }
        assert forall|k: u64| #[trigger] self.masks@.contains_key(k) implies mask_kept(k, faction) by {
            assert(keys@.to_set().contains(k));
            let j = choose|j: int| 0 <= j < keys@.len() && keys@[j] == k;
        }
        assert(self.masks@ =~= old(self).masks@.restrict(old(self).masks@.dom().filter(|k: u64| mask_kept(k, faction))));
    }
}

// ── Sub-factions ──────────────────────────────────────────────────────

/// Factions created by splitting another faction.
#[derive(Clone, Debug, PartialEq)]
pub struct ActiveSubFactions {
    pub factions: Vec<u32>,
}

impl Default for ActiveSubFactions {
    fn default() -> (s: Self)
        ensures
            s.factions@ == Seq::<u32>::empty(),
    {
        ActiveSubFactions { factions: Vec::new() }
    }
}

// ── Tactical overrides ────────────────────────────────────────────────

/// A steering behaviour: flee from enemies, or rush to a distressed ally.
#[derive(Clone, Copy, Debug, PartialEq)]
pub enum TacticalBehavior<F> {
    Kite { trigger_radius: F, weight: F },
    PeelForAlly { target_class: u32, search_radius: F, require_recent_damage: bool, weight: F },
}

/// Per faction, behaviours that replace those of its unit classes.
#[derive(Clone, Debug)]
pub struct FactionTacticalOverrides<F> {
    pub overrides: HashMap<u32, Vec<TacticalBehavior<F>>>,
}

impl<F> Default for FactionTacticalOverrides<F> {
    fn default() -> (o: Self)
        ensures
            o.overrides@ == Map::<u32, Vec<TacticalBehavior<F>>>::empty(),
    {
        FactionTacticalOverrides { overrides: HashMap::new() }
    }
}

// ── Buffs ──────────────────────────────────────────────────────────────

#[derive(Clone, Copy, Debug, PartialEq, Eq)]
pub enum ModifierType {
    Multiplier,
    FlatAdd,
}

/// A change to one stat while a buff group is active.
#[derive(Clone, Copy, Debug, PartialEq)]
pub struct ActiveModifier<F> {
    pub stat_index: usize,
    pub modifier_type: ModifierType,
    pub value: F,
}

/// Modifiers granted together for `remaining_ticks` ticks, to the listed
/// entity ids or (without a list) to the whole faction.
#[derive(Clone, Debug, PartialEq)]
pub struct ActiveBuffGroup<F> {
    pub modifiers: Vec<ActiveModifier<F>>,
    pub remaining_ticks: u32,
    pub targets: Option<Vec<u32>>,
}

/// Active buff groups and post-buff cooldowns, per faction.
#[derive(Clone, Debug)]
pub struct FactionBuffs<F> {
    pub buffs: HashMap<u32, Vec<ActiveBuffGroup<F>>>,
    pub cooldowns: HashMap<u32, u32>,
}

impl<F> Default for FactionBuffs<F> {
    fn default() -> (b: Self)
        ensures
            b.buffs@ == Map::<u32, Vec<ActiveBuffGroup<F>>>::empty(),
            b.cooldowns@ == Map::<u32, u32>::empty(),
    {
        FactionBuffs { buffs: HashMap::new(), cooldowns: HashMap::new() }
    }
}

/// Which stats buffs act on, how long zones last and how long a faction
/// waits after its buffs expire.
#[derive(Clone, Copy, Debug, PartialEq, Eq)]
pub struct BuffConfig {
    pub cooldown_ticks: u32,
    pub movement_speed_stat: Option<usize>,
    pub combat_damage_stat: Option<usize>,
    pub zone_modifier_duration_ticks: u32,
}

/// Zone duration when no other is configured: about 2 seconds at 60 ticks per second.
pub const DEFAULT_ZONE_DURATION_TICKS: u32 = 120;

impl Default for BuffConfig {
    fn default() -> (c: Self)
        ensures
            c.cooldown_ticks == 0,
            c.movement_speed_stat is None,
            c.combat_damage_stat is None,
            c.zone_modifier_duration_ticks == DEFAULT_ZONE_DURATION_TICKS,
    {
        BuffConfig {
            cooldown_ticks: 0,
            movement_speed_stat: None,
            combat_damage_stat: None,
            zone_modifier_duration_ticks: DEFAULT_ZONE_DURATION_TICKS,
        }
    }
}

/// A buff group one tick later.
pub open spec fn group_after_tick<F>(g: ActiveBuffGroup<F>) -> ActiveBuffGroup<F> {
    ActiveBuffGroup {
        modifiers: g.modifiers,
        remaining_ticks: (g.remaining_ticks - 1) as u32,
        targets: g.targets,
    }
}

pub open spec fn group_survives<F>(g: ActiveBuffGroup<F>) -> bool {
    g.remaining_ticks > 1
}

/// The groups of a faction one tick later: expiring groups dropped, the rest decremented.
pub open spec fn groups_after_tick<F>(gs: Seq<ActiveBuffGroup<F>>) -> Seq<ActiveBuffGroup<F>> {
    gs.filter(|g: ActiveBuffGroup<F>| group_survives(g)).map_values(|g: ActiveBuffGroup<F>| group_after_tick(g))
}

/// Whether faction `f` has buff groups now and none after the next tick.
pub open spec fn buffs_expire<F>(buffs: Map<u32, Vec<ActiveBuffGroup<F>>>, f: u32) -> bool {
    buffs.contains_key(f) && groups_after_tick(buffs[f]@).len() == 0
}

/// Cooldowns once factions whose buffs expire have started theirs, before ticking.
pub open spec fn cooldowns_started<F>(
    buffs: Map<u32, Vec<ActiveBuffGroup<F>>>,
    cooldowns: Map<u32, u32>,
    cooldown_ticks: u32,
) -> Map<u32, u32> {
    if cooldown_ticks > 0 {
        Map::new(
            |f: u32| cooldowns.contains_key(f) || buffs_expire(buffs, f),
            |f: u32| if buffs_expire(buffs, f) { cooldown_ticks } else { cooldowns[f] },
        )
    } else {
        cooldowns
    }
}

/// Cooldowns one tick later: decremented, those reaching 0 dropped.
pub open spec fn cooldowns_after_tick(cooldowns: Map<u32, u32>) -> Map<u32, u32> {
    Map::new(|f: u32| cooldowns.contains_key(f) && cooldowns[f] > 1, |f: u32| (cooldowns[f] - 1) as u32)
}

/// Ticks one faction's groups down in place.
fn tick_groups<F>(gs: &mut Vec<ActiveBuffGroup<F>>)
    ensures
        final(gs)@ == groups_after_tick(old(gs)@),
{
    let ghost pred = |g: ActiveBuffGroup<F>| group_survives(g);
    let survives = |g: &ActiveBuffGroup<F>| -> (b: bool)
        ensures
            b == group_survives(*g),
    {
        g.remaining_ticks > 1
    };
    retain_by(gs, survives, Ghost(pred));
    let ghost kept = gs@;
    proof {
        assert forall|k: int| 0 <= k < kept.len() implies #[trigger] kept[k].remaining_ticks > 1 by {
            broadcast use vstd::seq_lib::group_filter_ensures;
            assert(old(gs)@.filter(pred).contains(kept[k]));
        }
    }
    let n = gs.len();
    let mut i: usize = 0;
    while i < n
        invariant
            n == kept.len(),
            gs@.len() == n,
            i <= n,
            forall|k: int| 0 <= k < kept.len() ==> #[trigger] kept[k].remaining_ticks > 1,
            forall|k: int| 0 <= k < i ==> gs@[k] == group_after_tick(kept[k]),
            forall|k: int| i <= k < n ==> gs@[k] == kept[k],
        decreases n - i,
    {
        let g = gs.remove(i);
        assert(g == kept[i as int]);
        gs.insert(
            i,
            ActiveBuffGroup {
                modifiers: g.modifiers,
                remaining_ticks: g.remaining_ticks - 1,
                targets: g.targets,
            },
        );
        i = i + 1;
    }
    assert(gs@ =~= kept.map_values(|g: ActiveBuffGroup<F>| group_after_tick(g)));
}

/// Ticks every buff group down; a faction left without groups is removed and,
/// when `cooldown_ticks > 0`, starts a cooldown; then every cooldown ticks down
/// (a cooldown started this tick included) and those reaching 0 end.
pub fn buff_tick_system<F>(buffs: &mut FactionBuffs<F>, config: &BuffConfig)
    ensures
        final(buffs).buffs@.dom() == old(buffs).buffs@.dom().filter(|f: u32| !buffs_expire(old(buffs).buffs@, f)),
        forall|f: u32| #[trigger] final(buffs).buffs@.contains_key(f)
            ==> final(buffs).buffs@[f]@ == groups_after_tick(old(buffs).buffs@[f]@),
        final(buffs).cooldowns@ == cooldowns_after_tick(
            cooldowns_started(old(buffs).buffs@, old(buffs).cooldowns@, config.cooldown_ticks),
        ),
{
    let ghost b0 = old(buffs).buffs@;
    let ghost c0 = old(buffs).cooldowns@;
    let ghost started = cooldowns_started(b0, c0, config.cooldown_ticks);
    let keys = key_list(&buffs.buffs);
    let n = keys.len();
    let mut i: usize = 0;
    while i < n
        invariant
            n == keys@.len(),
            i <= n,
            keys@.to_set() == b0.dom(),
            keys@.no_duplicates(),
            forall|j: int| i <= j < n ==> #[trigger] buffs.buffs@.contains_key(keys@[j])
                && buffs.buffs@[keys@[j]] == b0[keys@[j]],
            forall|j: int| 0 <= j < i ==> (#[trigger] buffs.buffs@.contains_key(keys@[j])
                <==> !buffs_expire(b0, keys@[j])),
            forall|j: int| 0 <= j < i && buffs.buffs@.contains_key(#[trigger] keys@[j])
                ==> buffs.buffs@[keys@[j]]@ == groups_after_tick(b0[keys@[j]]@),
            buffs.buffs@.dom().subset_of(b0.dom()),
            forall|f: u32| #[trigger] buffs.cooldowns@.contains_key(f) <==> (c0.contains_key(f) || (
                config.cooldown_ticks > 0 && exists|j: int| 0 <= j < i && keys@[j] == f && buffs_expire(b0, f))),
            forall|f: u32| #[trigger] buffs.cooldowns@.contains_key(f) ==> buffs.cooldowns@[f] == (
                if config.cooldown_ticks > 0 && (exists|j: int| 0 <= j < i && keys@[j] == f && buffs_expire(b0, f)) {
                    config.cooldown_ticks
                } else {
                    c0[f]
                }),
        decreases n - i,
    {
        let f = keys[i];
        let ghost before = buffs.buffs@;
        let ghost i0 = i as int;
        assert(forall|j: int| i0 <= j < n ==> #[trigger] before.contains_key(keys@[j])
            && before[keys@[j]] == b0[keys@[j]]);
        assert(keys@.to_set().contains(f));
        let mut gs = buffs.buffs.remove(&f).unwrap();
        tick_groups(&mut gs);
        if gs.len() == 0 {
            if config.cooldown_ticks > 0 {
                buffs.cooldowns.insert(f, config.cooldown_ticks);
            }
        } else {
            buffs.buffs.insert(f, gs);
        }
        i = i + 1;
        assert forall|j: int| i <= j < n implies #[trigger] buffs.buffs@.contains_key(keys@[j])
            && buffs.buffs@[keys@[j]] == b0[keys@[j]] by {
            assert(i0 <= j < n);
            assert(keys@[j] != f);
            assert(before.contains_key(keys@[j]));
            assert(before[keys@[j]] == b0[keys@[j]]);
        }
        assert forall|j: int| 0 <= j < i implies (#[trigger] buffs.buffs@.contains_key(keys@[j])
            <==> !buffs_expire(b0, keys@[j])) by {
            if j < i - 1 {
                assert(keys@[j] != f);
            }
        }
        assert forall|j: int| 0 <= j < i && buffs.buffs@.contains_key(#[trigger] keys@[j])
            implies buffs.buffs@[keys@[j]]@ == groups_after_tick(b0[keys@[j]]@) by {
            if j < i - 1 {
                assert(keys@[j] != f);
            }
        }
        assert forall|g: u32| #[trigger] buffs.cooldowns@.contains_key(g) <==> (c0.contains_key(g) || (
            config.cooldown_ticks > 0 && exists|j: int| 0 <= j < i && keys@[j] == g && buffs_expire(b0, g))) by {
            if g == f && config.cooldown_ticks > 0 && buffs_expire(b0, g) {
                assert(keys@[i - 1] == g);
            }
        }
        assert forall|g: u32| #[trigger] buffs.cooldowns@.contains_key(g) implies buffs.cooldowns@[g] == (
            if config.cooldown_ticks > 0 && (exists|j: int| 0 <= j < i && keys@[j] == g && buffs_expire(b0, g)) {
                config.cooldown_ticks
            } else {
                c0[g]
            }) by {
            if g == f && config.cooldown_ticks > 0 && buffs_expire(b0, g) {
                assert(keys@[i - 1] == g);
            }
        }
    }
    assert forall|f: u32| #[trigger] buffs.buffs@.contains_key(f) <==> (b0.contains_key(f) && !buffs_expire(b0, f)) by {
        if b0.contains_key(f) {
            assert(keys@.to_set().contains(f));
            let j = choose|j: int| 0 <= j < keys@.len() && keys@[j] == f;
        }
    }
    assert(buffs.buffs@.dom() =~= b0.dom().filter(|f: u32| !buffs_expire(b0, f)));
    assert forall|f: u32| #[trigger] buffs.buffs@.contains_key(f)
        implies buffs.buffs@[f]@ == groups_after_tick(b0[f]@) by {
        assert(keys@.to_set().contains(f));
        let j = choose|j: int| 0 <= j < keys@.len() && keys@[j] == f;
    }
    assert forall|f: u32| (exists|j: int| 0 <= j < n && keys@[j] == f && buffs_expire(b0, f)) <==> buffs_expire(b0, f) by {
        if buffs_expire(b0, f) {
            assert(keys@.to_set().contains(f));
            let j = choose|j: int| 0 <= j < keys@.len() && keys@[j] == f;
        }
    }
    assert(buffs.cooldowns@ =~= started);
    // Tick every cooldown down.
    let ckeys = key_list(&buffs.cooldowns);
    let m = ckeys.len();
    let mut k: usize = 0;
    while k < m
        invariant
            m == ckeys@.len(),
            k <= m,
            ckeys@.to_set() == started.dom(),
            ckeys@.no_duplicates(),
            buffs.buffs@.dom() == b0.dom().filter(|f: u32| !buffs_expire(b0, f)),
            forall|f: u32| #[trigger] buffs.buffs@.contains_key(f)
                ==> buffs.buffs@[f]@ == groups_after_tick(b0[f]@),
            forall|j: int| k <= j < m ==> #[trigger] buffs.cooldowns@.contains_key(ckeys@[j])
                && buffs.cooldowns@[ckeys@[j]] == started[ckeys@[j]],
            forall|j: int| 0 <= j < k ==> (#[trigger] buffs.cooldowns@.contains_key(ckeys@[j])
                <==> started[ckeys@[j]] > 1),
            forall|j: int| 0 <= j < k && buffs.cooldowns@.contains_key(#[trigger] ckeys@[j])
                ==> buffs.cooldowns@[ckeys@[j]] == started[ckeys@[j]] - 1,
            buffs.cooldowns@.dom().subset_of(started.dom()),
        decreases m - k,
    {
        let f = ckeys[k];
        assert(ckeys@.to_set().contains(f));
        let ticks = buffs.cooldowns.remove(&f).unwrap();
        if ticks > 1 {
            buffs.cooldowns.insert(f, ticks - 1);
        }
        k = k + 1;
        assert forall|j: int| k <= j < m implies #[trigger] buffs.cooldowns@.contains_key(ckeys@[j])
            && buffs.cooldowns@[ckeys@[j]] == started[ckeys@[j]] by {
            assert(ckeys@[j] != f);
        }
        assert forall|j: int| 0 <= j < k implies (#[trigger] buffs.cooldowns@.contains_key(ckeys@[j])
            <==> started[ckeys@[j]] > 1) by {
            if j < k - 1 {
                assert(ckeys@[j] != f);
            }
        }
        assert forall|j: int| 0 <= j < k && buffs.cooldowns@.contains_key(#[trigger] ckeys@[j])
            implies buffs.cooldowns@[ckeys@[j]] == started[ckeys@[j]] - 1 by {
            if j < k - 1 {
                assert(ckeys@[j] != f);
            }
        }
    }
    assert forall|f: u32| #[trigger] buffs.cooldowns@.contains_key(f) <==> (started.contains_key(f) && started[f] > 1) by {
        if started.contains_key(f) {
            assert(ckeys@.to_set().contains(f));
            let j = choose|j: int| 0 <= j < ckeys@.len() && ckeys@[j] == f;
        }
    }
    assert forall|f: u32| #[trigger] buffs.cooldowns@.contains_key(f)
        implies buffs.cooldowns@[f] == (started[f] - 1) as u32 by {
        assert(ckeys@.to_set().contains(f));
        let j = choose|j: int| 0 <= j < ckeys@.len() && ckeys@[j] == f;
    }
    assert(buffs.cooldowns@ =~= cooldowns_after_tick(started));
}

// ── Speed buffs ────────────────────────────────────────────────────────

/// Per faction, a speed multiplier and the ticks it still lasts.
#[derive(Clone, Debug)]
pub struct FactionSpeedBuffs<F> {
    pub buffs: HashMap<u32, (F, u32)>,
}

impl<F> Default for FactionSpeedBuffs<F> {
    fn default() -> (b: Self)
        ensures
            b.buffs@ == Map::<u32, (F, u32)>::empty(),
    {
        FactionSpeedBuffs { buffs: HashMap::new() }
    }
}

/// Speed buffs one tick later: each counts down (never below 0), and those
/// reaching 0 end.
pub open spec fn speed_buffs_after_tick<F>(buffs: Map<u32, (F, u32)>) -> Map<u32, (F, u32)> {
    Map::new(
        |f: u32| buffs.contains_key(f) && buffs[f].1 > 1,
        |f: u32| (buffs[f].0, (buffs[f].1 - 1) as u32),
    )
}

/// Counts every speed buff down by one tick and drops the expired ones.
pub fn speed_buff_tick_system<F: Copy>(buffs: &mut FactionSpeedBuffs<F>)
    ensures
        final(buffs).buffs@ == speed_buffs_after_tick(old(buffs).buffs@),
{
    let ghost b0 = old(buffs).buffs@;
    let keys = key_list(&buffs.buffs);
    let m = keys.len();
    let mut k: usize = 0;
    while k < m
        invariant
            m == keys@.len(),
            k <= m,
            keys@.to_set() == b0.dom(),
            keys@.no_duplicates(),
            forall|j: int| k <= j < m ==> #[trigger] buffs.buffs@.contains_key(keys@[j])
                && buffs.buffs@[keys@[j]] == b0[keys@[j]],
            forall|j: int| 0 <= j < k ==> (#[trigger] buffs.buffs@.contains_key(keys@[j])
                <==> b0[keys@[j]].1 > 1),
            forall|j: int| 0 <= j < k && buffs.buffs@.contains_key(#[trigger] keys@[j])
                ==> buffs.buffs@[keys@[j]] == (b0[keys@[j]].0, (b0[keys@[j]].1 - 1) as u32),
            buffs.buffs@.dom().subset_of(b0.dom()),
        decreases m - k,
    {
        let f = keys[k];
        assert(keys@.to_set().contains(f));
        let (mult, ticks) = buffs.buffs.remove(&f).unwrap();
        let left = ticks.saturating_sub(1);
        if left > 0 {
            buffs.buffs.insert(f, (mult, left));
        }
        k = k + 1;
        assert forall|j: int| k <= j < m implies #[trigger] buffs.buffs@.contains_key(keys@[j])
            && buffs.buffs@[keys@[j]] == b0[keys@[j]] by {
            assert(keys@[j] != f);
        }
        assert forall|j: int| 0 <= j < k implies (#[trigger] buffs.buffs@.contains_key(keys@[j])
            <==> b0[keys@[j]].1 > 1) by {
            if j < k - 1 {
                assert(keys@[j] != f);
            }
        }
        assert forall|j: int| 0 <= j < k && buffs.buffs@.contains_key(#[trigger] keys@[j])
            implies buffs.buffs@[keys@[j]] == (b0[keys@[j]].0, (b0[keys@[j]].1 - 1) as u32) by {
            if j < k - 1 {
                assert(keys@[j] != f);
            }
        }
    }
    assert forall|f: u32| #[trigger] buffs.buffs@.contains_key(f) <==> (b0.contains_key(f) && b0[f].1 > 1) by {
        if b0.contains_key(f) {
            assert(keys@.to_set().contains(f));
            let j = choose|j: int| 0 <= j < keys@.len() && keys@[j] == f;
        }
    }
    assert forall|f: u32| #[trigger] buffs.buffs@.contains_key(f)
        implies buffs.buffs@[f] == (b0[f].0, (b0[f].1 - 1) as u32) by {
        assert(keys@.to_set().contains(f));
        let j = choose|j: int| 0 <= j < keys@.len() && keys@[j] == f;
    }
    assert(buffs.buffs@ =~= speed_buffs_after_tick(b0));
}

} // verus!
