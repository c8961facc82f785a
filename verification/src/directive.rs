//! Macro directives from the strategy layer and their effect on the
//! faction registries and on the faction of every unit.
//!
//! Float parameters are carried as an opaque copyable `F`; the part of a
//! split that measures distances is left to the caller, who is handed the
//! candidate units and answers with the units to split off.

use vstd::prelude::*;
use std::collections::HashMap;
use crate::rules::{
    InteractionRule, InteractionRuleSet, NavigationRule, NavigationRuleSet, NavigationTarget,
    upsert_navigation,
};
use crate::registry::{
    ActiveBuffGroup, ActiveModifier, ActiveSubFactions, ActiveZoneModifiers, AggroMaskRegistry,
    BuffConfig, FactionBuffs, FactionTacticalOverrides, ModifierType, TacticalBehavior,
    ZoneModifier, mask_kept, pair_key,
};
use crate::seqs::retain_by;

verus! {

broadcast use vstd::std_specs::hash::group_hash_axioms;

/// A stat change requested by an `ActivateBuff` directive.
#[derive(Clone, Copy, Debug, PartialEq)]
pub struct StatModifierPayload<F> {
    pub stat_index: usize,
    pub modifier_type: ModifierType,
    pub value: F,
}

#[derive(Clone, Debug, PartialEq)]
pub enum MacroDirective<F> {
    /// Does nothing.
    Idle,
    /// Drops every navigation rule of the faction.
    Hold { faction_id: u32 },
    /// Points the faction at a target.
    UpdateNavigation { follower_faction: u32, target: NavigationTarget<F> },
    /// Grants a buff group, unless the faction is cooling down.
    ActivateBuff {
        faction: u32,
        modifiers: Vec<StatModifierPayload<F>>,
        duration_ticks: u32,
        targets: Option<Vec<u32>>,
    },
    /// Points the faction at a retreat waypoint.
    Retreat { faction: u32, retreat_x: F, retreat_y: F },
    /// Places a temporary path-cost zone for the faction.
    SetZoneModifier { target_faction: u32, x: F, y: F, radius: F, cost_modifier: F },
    /// Moves the units of the source faction nearest the epicenter into a new sub-faction.
    SplitFaction {
        source_faction: u32,
        new_sub_faction: u32,
        percentage: F,
        epicenter: [F; 2],
        class_filter: Option<u32>,
    },
    /// Dissolves the source faction into the target faction.
    MergeFaction { source_faction: u32, target_faction: u32 },
    /// Allows or forbids combat between two factions, both ways.
    SetAggroMask { source_faction: u32, target_faction: u32, allow_combat: bool },
    /// Replaces (or, with `None`, clears) the faction's tactical behaviours.
    SetTacticalOverride { faction: u32, behavior: Option<TacticalBehavior<F>> },
}

/// Directives received since the last run of the executor.
#[derive(Clone, Debug)]
pub struct LatestDirective<F> {
    pub directives: Vec<MacroDirective<F>>,
    /// Tick at which the last directive arrived.
    pub last_received_tick: u64,
    /// The last directive as received, for display.
    pub last_directive_json: Option<String>,
}

impl<F> Default for LatestDirective<F> {
    fn default() -> (l: Self)
        ensures
            l.directives@ == Seq::<MacroDirective<F>>::empty(),
            l.last_received_tick == 0,
            l.last_directive_json is None,
    {
        LatestDirective { directives: Vec::new(), last_received_tick: 0, last_directive_json: None }
    }
}

/// The faction and class of one unit.
#[derive(Clone, Copy, Debug, PartialEq, Eq)]
pub struct Unit {
    pub faction_id: u32,
    pub class_id: u32,
}

/// Everything directives act on.
pub struct DirectiveState<F, P> {
    pub nav_rules: NavigationRuleSet<F>,
    pub int_rules: InteractionRuleSet<P>,
    pub buffs: FactionBuffs<F>,
    pub zones: ActiveZoneModifiers<F>,
    pub aggro: AggroMaskRegistry,
    pub sub_factions: ActiveSubFactions,
    pub tactical_overrides: FactionTacticalOverrides<F>,
    pub units: Vec<Unit>,
}

/// The directive inbox and an empty directive state: no rules, buffs,
/// zones, masks, sub-factions, overrides or units.
pub fn setup_app<F, P>() -> (app: (LatestDirective<F>, DirectiveState<F, P>))
    ensures
        app.0.directives@.len() == 0,
        app.1.nav_rules.rules@.len() == 0,
        app.1.int_rules.rules@.len() == 0,
        app.1.buffs.buffs@ == Map::<u32, Vec<ActiveBuffGroup<F>>>::empty(),
        app.1.buffs.cooldowns@ == Map::<u32, u32>::empty(),
        app.1.zones.zones@.len() == 0,
        app.1.aggro.masks@ == Map::<u64, bool>::empty(),
        app.1.sub_factions.factions@.len() == 0,
        app.1.tactical_overrides.overrides@ == Map::<u32, Vec<TacticalBehavior<F>>>::empty(),
        app.1.units@.len() == 0,
{
    let state = DirectiveState {
        nav_rules: NavigationRuleSet { rules: Vec::new() },
        int_rules: InteractionRuleSet { rules: Vec::new() },
        buffs: FactionBuffs::default(),
        zones: ActiveZoneModifiers::default(),
        aggro: AggroMaskRegistry::default(),
        sub_factions: ActiveSubFactions::default(),
        tactical_overrides: FactionTacticalOverrides::default(),
        units: Vec::new(),
    };
    (LatestDirective::default(), state)
}

// ── Semantics ──────────────────────────────────────────────────────────

/// Whether a unit is split off by a split of `source` restricted to `class_filter`.
pub open spec fn split_eligible(u: Unit, source: u32, class_filter: Option<u32>) -> bool {
    u.faction_id == source && match class_filter {
        Some(c) => u.class_id == c,
        None => true,
    }
}

/// Indices, in order, of the units eligible for a split.
pub open spec fn split_candidates_of(units: Seq<Unit>, source: u32, class_filter: Option<u32>) -> Seq<usize>
    decreases units.len(),
{
    if units.len() == 0 {
        Seq::empty()
    } else {
        let rest = split_candidates_of(units.drop_last(), source, class_filter);
        if split_eligible(units.last(), source, class_filter) {
            rest.push((units.len() - 1) as usize)
        } else {
            rest
        }
    }
}

/// Whether a split with this choice of units happens at all: the choice is
/// non-empty, no larger than the candidate list, names no unit twice and
/// names only candidates.
pub open spec fn split_proceeds(candidates: Seq<usize>, choice: Seq<usize>) -> bool {
    &&& 0 < choice.len() <= candidates.len()
    &&& choice.no_duplicates()
    &&& forall|k: int| 0 <= k < choice.len() ==> candidates.contains(#[trigger] choice[k])
}

/// The copies of interaction rules a split of `source` adds, in order:
/// per rule, `(index, true)` when `source` is its source and then
/// `(index, false)` when `source` is its target.
pub open spec fn duplicated_rules<P>(rules: Seq<InteractionRule<P>>, source: u32) -> Seq<(int, bool)>
    decreases rules.len(),
{
    if rules.len() == 0 {
        Seq::empty()
    } else {
        let i = rules.len() - 1;
        let rest = duplicated_rules(rules.drop_last(), source);
        let with_source = if rules.last().source_faction == source { rest.push((i, true)) } else { rest };
        if rules.last().target_faction == source { with_source.push((i, false)) } else { with_source }
    }
}

/// Whether `after` extends `before` with the rule copies a split of `source` into `sub` makes.
pub open spec fn rules_duplicated<P: Clone>(before: Seq<InteractionRule<P>>, after: Seq<InteractionRule<P>>, source: u32, sub: u32) -> bool {
    let dups = duplicated_rules(before, source);
    &&& after.len() == before.len() + dups.len()
    &&& forall|j: int| 0 <= j < before.len() ==> after[j] == before[j]
    &&& forall|k: int| 0 <= k < dups.len() ==> {
        let (o, as_source) = #[trigger] dups[k];
        let copy = after[before.len() + k];
        &&& copy.source_faction == (if as_source { sub } else { before[o].source_faction })
        &&& copy.target_faction == (if as_source { before[o].target_faction } else { sub })
        &&& cloned(before[o].params, copy.params)
    }
}

/// Whether an interaction rule survives the dissolution of `faction`.
pub open spec fn rule_spares<P>(r: InteractionRule<P>, faction: u32) -> bool {
    r.source_faction != faction && r.target_faction != faction
}

pub open spec fn nav_spares<F>(r: NavigationRule<F>, faction: u32) -> bool {
    r.follower_faction != faction
}

pub open spec fn zone_spares<F>(z: ZoneModifier<F>, faction: u32) -> bool {
    z.target_faction != faction
}

/// The active modifier a payload turns into.
pub open spec fn active_modifier<F>(m: StatModifierPayload<F>) -> ActiveModifier<F> {
    ActiveModifier { stat_index: m.stat_index, modifier_type: m.modifier_type, value: m.value }
}

/// Units after a split moves the chosen indices into `sub`.
pub open spec fn units_split(units: Seq<Unit>, choice: Seq<usize>, sub: u32) -> Seq<Unit> {
    Seq::new(units.len(), |i: int| if choice.contains(i as usize) {
        Unit { faction_id: sub, class_id: units[i].class_id }
    } else {
        units[i]
    })
}

/// Units after `source` is merged into `target`.
pub open spec fn units_merged(units: Seq<Unit>, source: u32, target: u32) -> Seq<Unit> {
    Seq::new(units.len(), |i: int| if units[i].faction_id == source {
        Unit { faction_id: target, class_id: units[i].class_id }
    } else {
        units[i]
    })
}

/// Registry fields that a directive leaves alone are equal before and after.
pub open spec fn same_nav<F, P>(a: DirectiveState<F, P>, b: DirectiveState<F, P>) -> bool {
    a.nav_rules.rules@ == b.nav_rules.rules@
}

pub open spec fn same_int<F, P>(a: DirectiveState<F, P>, b: DirectiveState<F, P>) -> bool {
    a.int_rules.rules@ == b.int_rules.rules@
}

pub open spec fn same_buffs<F, P>(a: DirectiveState<F, P>, b: DirectiveState<F, P>) -> bool {
    a.buffs.buffs@ == b.buffs.buffs@ && a.buffs.cooldowns@ == b.buffs.cooldowns@
}

pub open spec fn same_zones<F, P>(a: DirectiveState<F, P>, b: DirectiveState<F, P>) -> bool {
    a.zones.zones@ == b.zones.zones@
}

pub open spec fn same_aggro<F, P>(a: DirectiveState<F, P>, b: DirectiveState<F, P>) -> bool {
    a.aggro.masks@ == b.aggro.masks@
}

pub open spec fn same_subs<F, P>(a: DirectiveState<F, P>, b: DirectiveState<F, P>) -> bool {
    a.sub_factions.factions@ == b.sub_factions.factions@
}

pub open spec fn same_overrides<F, P>(a: DirectiveState<F, P>, b: DirectiveState<F, P>) -> bool {
    a.tactical_overrides.overrides@ == b.tactical_overrides.overrides@
}

pub open spec fn same_units<F, P>(a: DirectiveState<F, P>, b: DirectiveState<F, P>) -> bool {
    a.units@ == b.units@
}

/// Whether `after` is `before` with directive `d` applied; for a split,
/// `choice` lists the units the caller chose to split off.
pub open spec fn applied<F, P: Clone>(
    before: DirectiveState<F, P>,
    d: MacroDirective<F>,
    choice: Seq<usize>,
    config: BuffConfig,
    after: DirectiveState<F, P>,
) -> bool {
    match d {
        MacroDirective::Idle => {
            &&& same_nav(before, after) &&& same_int(before, after) &&& same_buffs(before, after)
            &&& same_zones(before, after) &&& same_aggro(before, after) &&& same_subs(before, after)
            &&& same_overrides(before, after) &&& same_units(before, after)
        },
        MacroDirective::Hold { faction_id } => {
            &&& after.nav_rules.rules@ == before.nav_rules.rules@.filter(
                |r: NavigationRule<F>| nav_spares(r, faction_id))
            &&& same_int(before, after) &&& same_buffs(before, after)
            &&& same_zones(before, after) &&& same_aggro(before, after) &&& same_subs(before, after)
            &&& same_overrides(before, after) &&& same_units(before, after)
        },
        MacroDirective::UpdateNavigation { follower_faction, target } => {
            &&& after.nav_rules.rules@ == upsert_navigation(before.nav_rules.rules@, follower_faction, target)
            &&& same_int(before, after) &&& same_buffs(before, after)
            &&& same_zones(before, after) &&& same_aggro(before, after) &&& same_subs(before, after)
            &&& same_overrides(before, after) &&& same_units(before, after)
        },
        MacroDirective::ActivateBuff { faction, modifiers, duration_ticks, targets } => {
            &&& same_nav(before, after) &&& same_int(before, after)
            &&& same_zones(before, after) &&& same_aggro(before, after) &&& same_subs(before, after)
            &&& same_overrides(before, after) &&& same_units(before, after)
            &&& if before.buffs.cooldowns@.contains_key(faction) {
                same_buffs(before, after)
            } else {
                let groups = after.buffs.buffs@[faction]@;
                let prior = if before.buffs.buffs@.contains_key(faction) {
                    before.buffs.buffs@[faction]@
                } else {
                    Seq::empty()
                };
                &&& after.buffs.cooldowns@ == before.buffs.cooldowns@
                &&& after.buffs.buffs@.dom() == before.buffs.buffs@.dom().insert(faction)
                &&& forall|f: u32| #[trigger] before.buffs.buffs@.contains_key(f) && f != faction
                    ==> after.buffs.buffs@[f] == before.buffs.buffs@[f]
                &&& groups.len() == prior.len() + 1
                &&& groups.take(prior.len() as int) == prior
                &&& groups.last().remaining_ticks == duration_ticks
                &&& groups.last().targets == targets
                &&& groups.last().modifiers@ == modifiers@.map_values(|m: StatModifierPayload<F>| active_modifier(m))
            }
        },
        MacroDirective::Retreat { faction, retreat_x, retreat_y } => {
            &&& after.nav_rules.rules@ == upsert_navigation(
                before.nav_rules.rules@, faction, NavigationTarget::Waypoint { x: retreat_x, y: retreat_y })
            &&& same_int(before, after) &&& same_buffs(before, after)
            &&& same_zones(before, after) &&& same_aggro(before, after) &&& same_subs(before, after)
            &&& same_overrides(before, after) &&& same_units(before, after)
        },
        MacroDirective::SetZoneModifier { target_faction, x, y, radius, cost_modifier } => {
            &&& after.zones.zones@ == before.zones.zones@.push(ZoneModifier {
                target_faction,
                x,
                y,
                radius,
                cost_modifier,
                ticks_remaining: config.zone_modifier_duration_ticks,
            })
            &&& same_nav(before, after) &&& same_int(before, after) &&& same_buffs(before, after)
            &&& same_aggro(before, after) &&& same_subs(before, after)
            &&& same_overrides(before, after) &&& same_units(before, after)
        },
        MacroDirective::SplitFaction { source_faction, new_sub_faction, percentage, epicenter, class_filter } => {
            let candidates = split_candidates_of(before.units@, source_faction, class_filter);
            if split_proceeds(candidates, choice) {
                &&& after.units@ == units_split(before.units@, choice, new_sub_faction)
                &&& after.sub_factions.factions@ == if before.sub_factions.factions@.contains(new_sub_faction) {
                    before.sub_factions.factions@
                } else {
                    before.sub_factions.factions@.push(new_sub_faction)
                }
                &&& after.nav_rules.rules@ == before.nav_rules.rules@.push(NavigationRule {
                    follower_faction: new_sub_faction,
                    target: NavigationTarget::Waypoint { x: epicenter[0], y: epicenter[1] },
                })
                &&& rules_duplicated(before.int_rules.rules@, after.int_rules.rules@, source_faction, new_sub_faction)
                &&& same_buffs(before, after) &&& same_zones(before, after) &&& same_aggro(before, after)
                &&& same_overrides(before, after)
            } else {
                &&& same_nav(before, after) &&& same_int(before, after) &&& same_buffs(before, after)
                &&& same_zones(before, after) &&& same_aggro(before, after) &&& same_subs(before, after)
                &&& same_overrides(before, after) &&& same_units(before, after)
            }
        },
        MacroDirective::MergeFaction { source_faction, target_faction } => {
            &&& after.units@ == units_merged(before.units@, source_faction, target_faction)
            &&& after.sub_factions.factions@ == before.sub_factions.factions@.filter(|f: u32| f != source_faction)
            &&& after.nav_rules.rules@ == before.nav_rules.rules@.filter(
                |r: NavigationRule<F>| nav_spares(r, source_faction))
            &&& after.zones.zones@ == before.zones.zones@.filter(|z: ZoneModifier<F>| zone_spares(z, source_faction))
            &&& after.buffs.buffs@ == before.buffs.buffs@.remove(source_faction)
            &&& after.buffs.cooldowns@ == before.buffs.cooldowns@
            &&& after.tactical_overrides.overrides@ == before.tactical_overrides.overrides@.remove(source_faction)
            &&& after.aggro.masks@ == before.aggro.masks@.restrict(
                before.aggro.masks@.dom().filter(|k: u64| mask_kept(k, source_faction)))
            &&& after.int_rules.rules@ == before.int_rules.rules@.filter(
                |r: InteractionRule<P>| rule_spares(r, source_faction))
        },
        MacroDirective::SetAggroMask { source_faction, target_faction, allow_combat } => {
            &&& after.aggro.masks@ == before.aggro.masks@.insert(pair_key(source_faction, target_faction), allow_combat)
                .insert(pair_key(target_faction, source_faction), allow_combat)
            &&& same_nav(before, after) &&& same_int(before, after) &&& same_buffs(before, after)
            &&& same_zones(before, after) &&& same_subs(before, after)
            &&& same_overrides(before, after) &&& same_units(before, after)
        },
        MacroDirective::SetTacticalOverride { faction, behavior } => {
            &&& match behavior {
                Some(b) => {
                    &&& after.tactical_overrides.overrides@.dom()
                        == before.tactical_overrides.overrides@.dom().insert(faction)
                    &&& forall|f: u32| #[trigger] before.tactical_overrides.overrides@.contains_key(f) && f != faction
                        ==> after.tactical_overrides.overrides@[f] == before.tactical_overrides.overrides@[f]
                    &&& after.tactical_overrides.overrides@[faction]@ == seq![b]
                },
                None => after.tactical_overrides.overrides@
                    == before.tactical_overrides.overrides@.remove(faction),
            }
            &&& same_nav(before, after) &&& same_int(before, after) &&& same_buffs(before, after)
            &&& same_zones(before, after) &&& same_aggro(before, after) &&& same_subs(before, after)
            &&& same_units(before, after)
        },
    }
}

// ── Execution ──────────────────────────────────────────────────────────

/// Indices, in order, of the units of `source` (of class `class_filter`, when given).
pub fn split_candidates(units: &Vec<Unit>, source: u32, class_filter: Option<u32>) -> (c: Vec<usize>)
    ensures
        c@ == split_candidates_of(units@, source, class_filter),
{
    let mut c: Vec<usize> = Vec::new();
    let n = units.len();
    let mut i: usize = 0;
    assert(units@.take(0) =~= Seq::<Unit>::empty());
    while i < n
        invariant
            n == units@.len(),
            i <= n,
            c@ == split_candidates_of(units@.take(i as int), source, class_filter),
        decreases n - i,
    {
        let u = units[i];
        assert(units@.take(i + 1).drop_last() =~= units@.take(i as int));
        let eligible = u.faction_id == source && match class_filter {
            Some(cf) => u.class_id == cf,
            None => true,
        };
        if eligible {
            c.push(i);
        }
        i = i + 1;
    }
    assert(units@.take(n as int) =~= units@);
    c
}

proof fn lemma_candidates_in_range(units: Seq<Unit>, source: u32, class_filter: Option<u32>)
    ensures
        split_candidates_of(units, source, class_filter).len() <= units.len(),
    decreases units.len(),
{
    if units.len() > 0 {
        lemma_candidates_in_range(units.drop_last(), source, class_filter);
    }
}

fn contains_faction(v: &Vec<u32>, x: u32) -> (b: bool)
    ensures
        b == v@.contains(x),
{
    let n = v.len();
    let mut i: usize = 0;
    while i < n
        invariant
            n == v@.len(),
            i <= n,
            forall|j: int| 0 <= j < i ==> v@[j] != x,
        decreases n - i,
    {
        if v[i] == x {
            return true;
        }
        i = i + 1;
    }
    false
}

/// Whether `v` holds `x`.
fn contains_index(v: &Vec<usize>, x: usize) -> (b: bool)
    ensures
        b == v@.contains(x),
{
    let n = v.len();
    let mut i: usize = 0;
    while i < n
        invariant
            n == v@.len(),
            i <= n,
            forall|j: int| 0 <= j < i ==> v@[j] != x,
        decreases n - i,
    {
        if v[i] == x {
            return true;
        }
        i = i + 1;
    }
    false
}

/// Whether a split may go ahead with `choice` (see `split_proceeds`).
fn valid_split_choice(candidates: &Vec<usize>, choice: &Vec<usize>) -> (b: bool)
    ensures
        b == split_proceeds(candidates@, choice@),
{
    let m = choice.len();
    if m == 0 || m > candidates.len() {
        return false;
    }
    let mut k: usize = 0;
    while k < m
        invariant
            m == choice@.len(),
            k <= m,
            forall|j: int| 0 <= j < k ==> candidates@.contains(#[trigger] choice@[j]),
            forall|i: int, j: int| 0 <= i < j < k ==> choice@[i] != choice@[j],
        decreases m - k,
    {
        let c = choice[k];
        if !contains_index(candidates, c) {
            return false;
        }
        let mut j: usize = 0;
        while j < k
            invariant
                m == choice@.len(),
                k < m,
                c == choice@[k as int],
                j <= k,
                forall|i: int| 0 <= i < j ==> choice@[i] != c,
            decreases k - j,
        {
            if choice[j] == c {
                assert(!choice@.no_duplicates()) by {
                    assert(choice@[j as int] == choice@[k as int]);
                }
                return false;
            }
            j = j + 1;
        }
        k = k + 1;
    }
    assert(choice@.no_duplicates());
    true
}

/// Moves every chosen unit index that exists into `sub`.
fn relabel_chosen(units: &mut Vec<Unit>, choice: &Vec<usize>, sub: u32)
    ensures
        final(units)@ == units_split(old(units)@, choice@, sub),
{
    let m = choice.len();
    let mut k: usize = 0;
    let ghost u0 = units@;
    while k < m
        invariant
            m == choice@.len(),
            k <= m,
            units@ == units_split(u0, choice@.take(k as int), sub),
        decreases m - k,
    {
        let c = choice[k];
        if c < units.len() {
            let u = units[c];
            units.set(c, Unit { faction_id: sub, class_id: u.class_id });
        }
        proof {
            let next = choice@.take(k + 1);
            assert(next =~= choice@.take(k as int).push(c));
            assert forall|i: int| 0 <= i < u0.len() implies #[trigger] next.contains(i as usize)
                == (choice@.take(k as int).contains(i as usize) || i as usize == c) by {
                if next.contains(i as usize) {
                    let j = choose|j: int| 0 <= j < next.len() && next[j] == i as usize;
                    if j < k {
                        assert(choice@.take(k as int)[j] == i as usize);
                    }
                }
                if choice@.take(k as int).contains(i as usize) {
                    let j = choose|j: int| 0 <= j < k && choice@.take(k as int)[j] == i as usize;
                    assert(next[j] == i as usize);
                }
                if i as usize == c {
                    assert(next[k as int] == c);
                }
            }
            assert(units@ =~= units_split(u0, next, sub));
        }
        k = k + 1;
    }
    assert(choice@.take(m as int) =~= choice@);
}

/// Moves every unit of `source` into `target`.
fn relabel_merged(units: &mut Vec<Unit>, source: u32, target: u32)
    ensures
        final(units)@ == units_merged(old(units)@, source, target),
{
    let n = units.len();
    let mut i: usize = 0;
    while i < n
        invariant
            n == units@.len(),
            n == old(units)@.len(),
            i <= n,
            forall|j: int| 0 <= j < i ==> units@[j] == (if old(units)@[j].faction_id == source {
                Unit { faction_id: target, class_id: old(units)@[j].class_id }
            } else {
                old(units)@[j]
            }),
            forall|j: int| i <= j < n ==> units@[j] == old(units)@[j],
        decreases n - i,
    {
        let u = units[i];
        if u.faction_id == source {
            units.set(i, Unit { faction_id: target, class_id: u.class_id });
        }
        i = i + 1;
    }
    assert(units@ =~= units_merged(old(units)@, source, target));
}

proof fn lemma_dup_step<P>(rules: Seq<InteractionRule<P>>, j: int, source: u32)
    requires
        0 <= j < rules.len(),
    ensures
        duplicated_rules(rules.take(j + 1), source) == {
            let rest = duplicated_rules(rules.take(j), source);
            let with_source = if rules[j].source_faction == source { rest.push((j, true)) } else { rest };
            if rules[j].target_faction == source { with_source.push((j, false)) } else { with_source }
        },
{
    assert(rules.take(j + 1).drop_last() =~= rules.take(j));
}

/// Appends, for every rule involving `source`, a copy with `source` replaced by `sub`.
fn duplicate_rules<P: Clone>(rules: &mut Vec<InteractionRule<P>>, source: u32, sub: u32)
    ensures
        rules_duplicated(old(rules)@, final(rules)@, source, sub),
{
    let ghost r0 = rules@;
    let n = rules.len();
    let mut j: usize = 0;
    assert(r0.take(0) =~= Seq::<InteractionRule<P>>::empty());
    while j < n
        invariant
            n == r0.len(),
            j <= n,
            rules@.len() == n + duplicated_rules(r0.take(j as int), source).len(),
            forall|i: int| 0 <= i < n ==> rules@[i] == r0[i],
            forall|k: int| 0 <= k < duplicated_rules(r0.take(j as int), source).len() ==> {
                let (o, as_source) = #[trigger] duplicated_rules(r0.take(j as int), source)[k];
                let copy = rules@[n + k];
                &&& 0 <= o < j
                &&& copy.source_faction == (if as_source { sub } else { r0[o].source_faction })
                &&& copy.target_faction == (if as_source { r0[o].target_faction } else { sub })
                &&& cloned(r0[o].params, copy.params)
            },
        decreases n - j,
    {
        let ghost before = rules@;
        let ghost dups = duplicated_rules(r0.take(j as int), source);
        proof {
            lemma_dup_step(r0, j as int, source);
        }
        if rules[j].source_faction == source {
            let mut copy = rules[j].clone();
            copy.source_faction = sub;
            rules.push(copy);
        }
        let ghost mid = rules@;
        let ghost dups_mid = if r0[j as int].source_faction == source { dups.push((j as int, true)) } else { dups };
        if rules[j].target_faction == source {
            let mut copy = rules[j].clone();
            copy.target_faction = sub;
            rules.push(copy);
        }
        proof {
            let after = duplicated_rules(r0.take(j + 1), source);
            assert forall|k: int| 0 <= k < after.len() implies {
                let (o, as_source) = #[trigger] after[k];
                let copy = rules@[n + k];
                &&& 0 <= o < j + 1
                &&& copy.source_faction == (if as_source { sub } else { r0[o].source_faction })
                &&& copy.target_faction == (if as_source { r0[o].target_faction } else { sub })
                &&& cloned(r0[o].params, copy.params)
            } by {
                if k < dups.len() {
                    assert(after[k] == dups[k]);
                    assert(rules@[n + k] == before[n + k]);
                } else if k < dups_mid.len() {
                    assert(after[k] == dups_mid[k]);
                    assert(rules@[n + k] == mid[n + k]);
                }
            }
        }
        j = j + 1;
    }
    assert(r0.take(n as int) =~= r0);
}

/// Applies one directive. For a split, `choice` lists the units to move.
pub fn apply_directive<F: Copy, P: Clone>(
    state: &mut DirectiveState<F, P>,
    d: MacroDirective<F>,
    choice: &Vec<usize>,
    config: &BuffConfig,
)
    ensures
        applied(*old(state), d, choice@, *config, *final(state)),
{
    match d {
        MacroDirective::Idle => {},
        MacroDirective::Hold { faction_id } => {
            let spares = |r: &NavigationRule<F>| -> (b: bool)
                ensures
                    b == nav_spares(*r, faction_id),
            {
                r.follower_faction != faction_id
            };
            retain_by(&mut state.nav_rules.rules, spares, Ghost(|r: NavigationRule<F>| nav_spares(r, faction_id)));
        },
        MacroDirective::UpdateNavigation { follower_faction, target } => {
            state.nav_rules.upsert(follower_faction, target);
        },
        MacroDirective::ActivateBuff { faction, modifiers, duration_ticks, targets } => {
            if state.buffs.cooldowns.contains_key(&faction) {
                return;
            }
            let mut active: Vec<ActiveModifier<F>> = Vec::new();
            let m = modifiers.len();
            let mut i: usize = 0;
            while i < m
                invariant
                    m == modifiers@.len(),
                    i <= m,
                    active@ == modifiers@.take(i as int).map_values(
                        |p: StatModifierPayload<F>| active_modifier(p)),
                decreases m - i,
            {
                let p = modifiers[i];
                active.push(ActiveModifier { stat_index: p.stat_index, modifier_type: p.modifier_type, value: p.value });
                i = i + 1;
                assert(active@ =~= modifiers@.take(i as int).map_values(
                    |p: StatModifierPayload<F>| active_modifier(p)));
            }
            assert(modifiers@.take(m as int) =~= modifiers@);
            let group = ActiveBuffGroup { modifiers: active, remaining_ticks: duration_ticks, targets };
            let mut groups = match state.buffs.buffs.remove(&faction) {
                Some(g) => g,
                None => Vec::new(),
            };
            let ghost prior = groups@;
            groups.push(group);
            assert(groups@.take(prior.len() as int) =~= prior);
            state.buffs.buffs.insert(faction, groups);
            assert(state.buffs.buffs@.dom() =~= old(state).buffs.buffs@.dom().insert(faction));
        },
        MacroDirective::Retreat { faction, retreat_x, retreat_y } => {
            state.nav_rules.upsert(faction, NavigationTarget::Waypoint { x: retreat_x, y: retreat_y });
        },
        MacroDirective::SetZoneModifier { target_faction, x, y, radius, cost_modifier } => {
            state.zones.zones.push(ZoneModifier {
                target_faction,
                x,
                y,
                radius,
                cost_modifier,
                ticks_remaining: config.zone_modifier_duration_ticks,
            });
        },
        MacroDirective::SplitFaction { source_faction, new_sub_faction, percentage, epicenter, class_filter } => {
            let candidates = split_candidates(&state.units, source_faction, class_filter);
            if !valid_split_choice(&candidates, choice) {
                return;
            }
            relabel_chosen(&mut state.units, choice, new_sub_faction);
            if !contains_faction(&state.sub_factions.factions, new_sub_faction) {
                state.sub_factions.factions.push(new_sub_faction);
            }
            state.nav_rules.rules.push(NavigationRule {
                follower_faction: new_sub_faction,
                target: NavigationTarget::Waypoint { x: epicenter[0], y: epicenter[1] },
            });
            duplicate_rules(&mut state.int_rules.rules, source_faction, new_sub_faction);
        },
        MacroDirective::MergeFaction { source_faction, target_faction } => {
            relabel_merged(&mut state.units, source_faction, target_faction);
            let keeps_sub = |f: &u32| -> (b: bool)
                ensures
                    b == (*f != source_faction),
            {
                *f != source_faction
            };
            retain_by(&mut state.sub_factions.factions, keeps_sub, Ghost(|f: u32| f != source_faction));
            let spares_nav = |r: &NavigationRule<F>| -> (b: bool)
                ensures
                    b == nav_spares(*r, source_faction),
            {
                r.follower_faction != source_faction
            };
            retain_by(&mut state.nav_rules.rules, spares_nav, Ghost(|r: NavigationRule<F>| nav_spares(r, source_faction)));
            let spares_zone = |z: &ZoneModifier<F>| -> (b: bool)
                ensures
                    b == zone_spares(*z, source_faction),
            {
                z.target_faction != source_faction
            };
            retain_by(&mut state.zones.zones, spares_zone, Ghost(|z: ZoneModifier<F>| zone_spares(z, source_faction)));
            state.buffs.buffs.remove(&source_faction);
            state.tactical_overrides.overrides.remove(&source_faction);
            state.aggro.remove_faction(source_faction);
            let spares_rule = |r: &InteractionRule<P>| -> (b: bool)
                ensures
                    b == rule_spares(*r, source_faction),
            {
                r.source_faction != source_faction && r.target_faction != source_faction
            };
            retain_by(&mut state.int_rules.rules, spares_rule, Ghost(|r: InteractionRule<P>| rule_spares(r, source_faction)));
        },
        MacroDirective::SetAggroMask { source_faction, target_faction, allow_combat } => {
            state.aggro.set_mask(source_faction, target_faction, allow_combat);
            state.aggro.set_mask(target_faction, source_faction, allow_combat);
        },
        MacroDirective::SetTacticalOverride { faction, behavior } => {
            match behavior {
                Some(b) => {
                    let mut v: Vec<TacticalBehavior<F>> = Vec::new();
                    v.push(b);
                    assert(v@ =~= seq![b]);
                    state.tactical_overrides.overrides.insert(faction, v);
                    assert(state.tactical_overrides.overrides@.dom()
                        =~= old(state).tactical_overrides.overrides@.dom().insert(faction));
                },
                None => {
                    state.tactical_overrides.overrides.remove(&faction);
                },
            }
        },
    }
}

/// Whether `choice` is what `chooser` answered for directive `d` on `units`:
/// for a split, on that split's candidates, percentage and epicenter; otherwise
/// nothing is chosen.
pub open spec fn chosen_by<F, S: Fn(&Vec<usize>, F, [F; 2]) -> Vec<usize>>(
    chooser: S,
    units: Seq<Unit>,
    d: MacroDirective<F>,
    choice: Seq<usize>,
) -> bool {
    match d {
        MacroDirective::SplitFaction { source_faction, percentage, epicenter, class_filter, .. } =>
            exists|c: Vec<usize>, r: Vec<usize>| {
                &&& c@ == split_candidates_of(units, source_faction, class_filter)
                &&& #[trigger] chooser.ensures((&c, percentage, epicenter), r)
                &&& r@ == choice
            },
        _ => choice.len() == 0,
    }
}

/// Applies, in order, every directive received since the last run, and leaves
/// none pending: each directive is executed exactly once.
///
/// For a split, `chooser` is handed the candidate unit indices, the percentage
/// and the epicenter, and answers with the units to move (an empty answer, or
/// one longer than the candidate list, one naming a unit twice or naming a
/// non-candidate, cancels the split).
pub fn directive_executor_system<F: Copy, P: Clone, S: Fn(&Vec<usize>, F, [F; 2]) -> Vec<usize>>(
    latest: &mut LatestDirective<F>,
    state: &mut DirectiveState<F, P>,
    config: &BuffConfig,
    chooser: S,
)
    requires
        forall|c: &Vec<usize>, p: F, e: [F; 2]| #[trigger] chooser.requires((c, p, e)),
    ensures
        final(latest).directives@.len() == 0,
        final(latest).last_received_tick == old(latest).last_received_tick,
        final(latest).last_directive_json == old(latest).last_directive_json,
        exists|trace: Seq<DirectiveState<F, P>>, choices: Seq<Seq<usize>>| {
            &&& trace.len() == old(latest).directives@.len() + 1
            &&& choices.len() == old(latest).directives@.len()
            &&& trace[0] == *old(state)
            &&& trace.last() == *final(state)
            &&& forall|k: int| 0 <= k < old(latest).directives@.len() ==> {
                &&& applied(trace[k], old(latest).directives@[k], #[trigger] choices[k], *config, trace[k + 1])
                &&& chosen_by(chooser, trace[k].units@, old(latest).directives@[k], choices[k])
            }
        },
{
    let ghost ds = latest.directives@;
    let mut directives: Vec<MacroDirective<F>> = Vec::new();
    std::mem::swap(&mut directives, &mut latest.directives);
    let ghost mut trace: Seq<DirectiveState<F, P>> = seq![*state];
    let ghost mut choices: Seq<Seq<usize>> = Seq::empty();
    let n = directives.len();
    let mut k: usize = 0;
    while k < n
        invariant
            n == ds.len(),
            k <= n,
            directives@ == ds.skip(k as int),
            latest.directives@.len() == 0,
            latest.last_received_tick == old(latest).last_received_tick,
            latest.last_directive_json == old(latest).last_directive_json,
            trace.len() == k + 1,
            choices.len() == k,
            trace[0] == *old(state),
            trace.last() == *state,
            forall|c: &Vec<usize>, p: F, e: [F; 2]| #[trigger] chooser.requires((c, p, e)),
            forall|j: int| 0 <= j < k ==> {
                &&& applied(trace[j], ds[j], #[trigger] choices[j], *config, trace[j + 1])
                &&& chosen_by(chooser, trace[j].units@, ds[j], choices[j])
            },
        decreases n - k,
    {
        let d = directives.remove(0);
        assert(d == ds[k as int]);
        let ghost units_before = state.units@;
        let choice = match &d {
            MacroDirective::SplitFaction { source_faction, percentage, epicenter, class_filter, .. } => {
                let candidates = split_candidates(&state.units, *source_faction, *class_filter);
                chooser(&candidates, *percentage, *epicenter)
            },
            _ => Vec::new(),
        };
        assert(chosen_by(chooser, units_before, d, choice@));
        apply_directive(state, d, &choice, config);
        proof {
            let prev_trace = trace;
            let prev_choices = choices;
            trace = trace.push(*state);
            choices = choices.push(choice@);
            assert forall|j: int| 0 <= j < k + 1 implies {
                &&& applied(trace[j], ds[j], #[trigger] choices[j], *config, trace[j + 1])
                &&& chosen_by(chooser, trace[j].units@, ds[j], choices[j])
            } by {
                if j < k {
                    assert(trace[j] == prev_trace[j]);
                    assert(trace[j + 1] == prev_trace[j + 1]);
                    assert(choices[j] == prev_choices[j]);
                }
            }
        }
        assert(directives@ =~= ds.skip(k + 1));
        k = k + 1;
    }
}

} // verus!
