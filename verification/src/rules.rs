//! Navigation and interaction rule sets, keyed by faction.
//!
//! Coordinates are carried as an opaque copyable scalar `F`, and everything an
//! interaction rule holds besides its two factions as an opaque `P`.

use vstd::prelude::*;

verus! {

/// Where a faction navigates: toward another faction, or to a fixed point.
#[derive(Clone, Copy, Debug, PartialEq)]
pub enum NavigationTarget<F> {
    Faction { faction_id: u32 },
    Waypoint { x: F, y: F },
}

#[derive(Clone, Copy, Debug, PartialEq)]
pub struct NavigationRule<F> {
    pub follower_faction: u32,
    pub target: NavigationTarget<F>,
}

#[derive(Clone, Debug, PartialEq)]
pub struct NavigationRuleSet<F> {
    pub rules: Vec<NavigationRule<F>>,
}

/// An interaction from `source_faction` to `target_faction`; `params` holds the
/// rest of the rule (ranges, effects, class filters, area and penetration settings).
#[derive(Debug, PartialEq)]
pub struct InteractionRule<P> {
    pub source_faction: u32,
    pub target_faction: u32,
    pub params: P,
}

impl<P: Clone> Clone for InteractionRule<P> {
    fn clone(&self) -> (r: Self)
        ensures
            r.source_faction == self.source_faction,
            r.target_faction == self.target_faction,
            cloned(self.params, r.params),
    {
        InteractionRule {
            source_faction: self.source_faction,
            target_faction: self.target_faction,
            params: self.params.clone(),
        }
    }
}

#[derive(Debug, PartialEq)]
pub struct InteractionRuleSet<P> {
    pub rules: Vec<InteractionRule<P>>,
}

/// Index of the first rule followed by `faction`, if any.
pub open spec fn first_follower_index<F>(rules: Seq<NavigationRule<F>>, faction: u32) -> Option<int>
    decreases rules.len(),
{
    if rules.len() == 0 {
        None
    } else {
        match first_follower_index(rules.drop_last(), faction) {
            Some(i) => Some(i),
            None => if rules.last().follower_faction == faction {
                Some(rules.len() - 1)
            } else {
                None
            },
        }
    }
}

/// The rules after pointing `faction` at `target`: its first rule is retargeted,
/// or a new rule is appended when it has none.
pub open spec fn upsert_navigation<F>(rules: Seq<NavigationRule<F>>, faction: u32, target: NavigationTarget<F>) -> Seq<NavigationRule<F>> {
    match first_follower_index(rules, faction) {
        Some(i) => rules.update(i, NavigationRule { follower_faction: faction, target }),
        None => rules.push(NavigationRule { follower_faction: faction, target }),
    }
}

proof fn lemma_first_follower_index<F>(rules: Seq<NavigationRule<F>>, faction: u32)
    ensures
        match first_follower_index(rules, faction) {
            Some(i) => 0 <= i < rules.len() && rules[i].follower_faction == faction
                && forall|j: int| 0 <= j < i ==> rules[j].follower_faction != faction,
            None => forall|j: int| 0 <= j < rules.len() ==> rules[j].follower_faction != faction,
        },
    decreases rules.len(),
{
    if rules.len() > 0 {
        let rest = rules.drop_last();
        lemma_first_follower_index(rest, faction);
        assert forall|j: int| 0 <= j < rest.len() implies rules[j] == rest[j] by {}
    }
}

impl<F: Copy> NavigationRuleSet<F> {
    /// Points `faction` at `target`: retargets its first rule, or appends a rule.
    pub fn upsert(&mut self, faction: u32, target: NavigationTarget<F>)
        ensures
            final(self).rules@ == upsert_navigation(old(self).rules@, faction, target),
    {
        let n = self.rules.len();
        let mut i: usize = 0;
        proof {
            lemma_first_follower_index(self.rules@, faction);
        }
        while i < n
            invariant
                n == self.rules@.len(),
                self.rules@ == old(self).rules@,
                i <= n,
                forall|j: int| 0 <= j < i ==> self.rules@[j].follower_faction != faction,
            decreases n - i,
        {
            if self.rules[i].follower_faction == faction {
                proof {
                    lemma_first_follower_index(self.rules@, faction);
                    assert(first_follower_index(self.rules@, faction) == Some(i as int));
                }
                self.rules.set(i, NavigationRule { follower_faction: faction, target });
                return;
            }
            i = i + 1;
        }
        proof {
            lemma_first_follower_index(self.rules@, faction);
            assert(first_follower_index(self.rules@, faction) is None);
        }
        self.rules.push(NavigationRule { follower_faction: faction, target });
    }
}

} // verus!
