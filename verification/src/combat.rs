//! Which interaction rules fire for a unit and which units they may hit.
//! Range, damage and energy are float work left to the caller.

use vstd::prelude::*;
use crate::registry::{AggroMaskRegistry, pair_key};

verus! {

/// The integer part of an interaction rule that decides who it concerns.
#[derive(Clone, Copy, Debug, PartialEq, Eq)]
pub struct RuleFilter {
    pub source_faction: u32,
    pub target_faction: u32,
    pub source_class: Option<u32>,
    pub target_class: Option<u32>,
    /// Whether the rule has a cooldown.
    pub has_cooldown: bool,
}

/// Whether a unit's class passes an optional class filter.
pub open spec fn class_passes(filter: Option<u32>, class: u32) -> bool {
    match filter {
        Some(c) => class == c,
        None => true,
    }
}

/// Whether the rule fires for a unit of `faction` and `class`: the faction is
/// the rule's source, the class passes, combat between the rule's factions is
/// allowed, and the cooldown (when the rule has one) is ready.
pub open spec fn spec_rule_fires(rule: RuleFilter, faction: u32, class: u32, aggro: AggroMaskRegistry, cooldown_ready: bool) -> bool {
    &&& rule.source_faction == faction
    &&& class_passes(rule.source_class, class)
    &&& aggro.spec_combat_allowed(rule.source_faction, rule.target_faction)
    &&& (!rule.has_cooldown || cooldown_ready)
}

pub fn rule_fires(rule: &RuleFilter, faction: u32, class: u32, aggro: &AggroMaskRegistry, cooldown_ready: bool) -> (b: bool)
    ensures
        b == spec_rule_fires(*rule, faction, class, *aggro, cooldown_ready),
{
    if rule.source_faction != faction {
        return false;
    }
    if let Some(c) = rule.source_class {
        if class != c {
            return false;
        }
    }
    if !aggro.is_combat_allowed(rule.source_faction, rule.target_faction) {
        return false;
    }
    !rule.has_cooldown || cooldown_ready
}

/// Whether a unit of `faction` and `class` is a target of the rule.
pub fn is_target(rule: &RuleFilter, faction: u32, class: u32) -> (b: bool)
    ensures
        b == (faction == rule.target_faction && class_passes(rule.target_class, class)),
{
    if faction != rule.target_faction {
        return false;
    }
    match rule.target_class {
        Some(c) => class == c,
        None => true,
    }
}

/// Whether a ray that has hit `hits` targets may hit another under an optional cap.
pub fn under_target_cap(hits: u32, max_targets: Option<u32>) -> (b: bool)
    ensures
        b == match max_targets {
            Some(m) => hits < m,
            None => true,
        },
{
    match max_targets {
        Some(m) => hits < m,
        None => true,
    }
}

/// A rule fires for a unit exactly when the unit belongs to the rule's source
/// faction, its class passes the rule's class filter, no stored aggro mask
/// forbids combat from the rule's source to its target, and the cooldown
/// (only if the rule has one) is ready. In particular a mask forbidding the
/// pair stops the rule, with or without a cooldown.
pub proof fn law_rule_gate(rule: RuleFilter, faction: u32, class: u32, aggro: AggroMaskRegistry, cooldown_ready: bool)
    ensures
        spec_rule_fires(rule, faction, class, aggro, cooldown_ready) <==> {
            let k = pair_key(rule.source_faction, rule.target_faction);
            &&& faction == rule.source_faction
            &&& (rule.source_class matches Some(c) ==> class == c)
            &&& !(aggro.masks@.contains_key(k) && !aggro.masks@[k])
            &&& (rule.has_cooldown ==> cooldown_ready)
        },
        aggro.masks@.contains_key(pair_key(rule.source_faction, rule.target_faction))
            && !aggro.masks@[pair_key(rule.source_faction, rule.target_faction)]
            ==> !spec_rule_fires(rule, faction, class, aggro, cooldown_ready),
{
}

} // verus!
