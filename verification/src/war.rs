use vstd::prelude::*;

use crate::arith::{div_ceil_spec, div_ceil_u8};
use crate::disaster::clamped_severity;
use crate::disease::{canonical_town_ids, canonical_town_list};
use crate::id::TownId;
use crate::sorted_ids::town_ids_sorted;
use crate::town::{min_u8, TownDamage};

verus! {

/// An abstract war over a group of towns, without modelled states or armies.
#[derive(Clone, Debug, PartialEq, Eq)]
pub struct WarEvent {
    pub towns: Vec<TownId>,
    pub severity: u8,
    pub remaining_years: u8,
}

impl WarEvent {
    /// The towns are stored ascending, each once.
    pub fn new(towns: Vec<TownId>, severity: u8, remaining_years: u8) -> (war: Self)
        ensures
            canonical_town_ids(towns@, war.towns@),
            war.severity == clamped_severity(severity),
            war.remaining_years == (if remaining_years < 1 {
                1
            } else {
                remaining_years
            }),
    {
        WarEvent {
            towns: canonical_town_list(&towns),
            severity: crate::disaster::clamp_severity(severity),
            remaining_years: if remaining_years < 1 {
                1
            } else {
                remaining_years
            },
        }
    }

    /// Binary search in the ascending town list. A hit is always a member; on an
    /// ascending list the answer is exactly membership.
    pub fn includes(&self, town: TownId) -> (found: bool)
        ensures
            found ==> self.towns@.contains(town),
            town_ids_sorted(self.towns@) ==> (found == self.towns@.contains(town)),
    {
        let mut low: usize = 0;
        let mut high: usize = self.towns.len();
        while low < high
            invariant
                low <= high <= self.towns@.len(),
                town_ids_sorted(self.towns@) ==> forall|j: int|
                    0 <= j < low ==> (#[trigger] self.towns@[j]).0 < town.0,
                town_ids_sorted(self.towns@) ==> forall|j: int|
                    high <= j < self.towns@.len() ==> (#[trigger] self.towns@[j]).0 > town.0,
            decreases high - low,
        {
            let middle = low + (high - low) / 2;
            let candidate = self.towns[middle];
            if candidate.0 == town.0 {
                proof {
                    assert(self.towns@[middle as int] == town);
                }
                return true;
            } else if candidate.0 < town.0 {
                low = middle + 1;
            } else {
                high = middle;
            }
        }
        proof {
            if town_ids_sorted(self.towns@) && self.towns@.contains(town) {
                let k = choose|k: int| 0 <= k < self.towns@.len() && self.towns@[k] == town;
                assert(self.towns@[k].0 == town.0);
            }
        }
        false
    }

    /// What the war does to each of its towns: jobs lose `ceil(severity / 3)` and safety
    /// `ceil(severity / 2)` (severity capped at 10) for twelve months per remaining year,
    /// at least one year.
    pub open spec fn town_damage_spec(&self) -> TownDamage {
        TownDamage {
            jobs_loss: div_ceil_spec(min_u8(self.severity, 10) as int, 3) as u8,
            safety_loss: div_ceil_spec(min_u8(self.severity, 10) as int, 2) as u8,
            capacity_loss: 0,
            remaining_months: (12 * (if self.remaining_years < 1 {
                1
            } else {
                self.remaining_years
            })) as u16,
        }
    }

    pub fn town_damage(&self) -> (damage: TownDamage)
        ensures
            damage == self.town_damage_spec(),
    {
        let years: u16 = if self.remaining_years < 1 {
            1
        } else {
            self.remaining_years as u16
        };
        let severity: u8 = if self.severity < 10 {
            self.severity
        } else {
            10
        };
        TownDamage::new(div_ceil_u8(severity, 3), div_ceil_u8(severity, 2), 0, years * 12)
    }

    /// Advances one year; true while the war goes on.
    pub fn progress_year(&mut self) -> (ongoing: bool)
        ensures
            final(self).remaining_years == (if old(self).remaining_years > 0 {
                old(self).remaining_years - 1
            } else {
                0
            }),
            final(self).severity == old(self).severity,
            final(self).towns == old(self).towns,
            ongoing == (final(self).remaining_years > 0),
    {
        if self.remaining_years > 0 {
            self.remaining_years = self.remaining_years - 1;
        }
        self.remaining_years > 0
    }
}

/// A war damages each of its towns for twelve months per remaining year, one year at the
/// least; jobs lose a third and safety half of the severity (capped at ten), rounded up,
/// and capacity nothing.
pub proof fn law_war_damage(war: WarEvent)
    ensures
        war.remaining_years >= 1 ==> war.town_damage_spec().remaining_months == 12 * war.remaining_years,
        war.remaining_years == 0 ==> war.town_damage_spec().remaining_months == 12,
        war.town_damage_spec().remaining_months >= 12,
        war.town_damage_spec().capacity_loss == 0,
        ({
            let severity: int = if war.severity < 10 { war.severity as int } else { 10 };
            &&& severity <= 3 * war.town_damage_spec().jobs_loss < severity + 3
            &&& severity <= 2 * war.town_damage_spec().safety_loss < severity + 2
        }),
{
}

/// A year on, a war that goes on damages its towns for twelve months less, as hard as
/// before.
pub proof fn law_war_damage_shortens_yearly(before: WarEvent, after: WarEvent)
    requires
        before.remaining_years >= 2,
        after.remaining_years == before.remaining_years - 1,
        after.severity == before.severity,
    ensures
        after.town_damage_spec().remaining_months + 12 == before.town_damage_spec().remaining_months,
        after.town_damage_spec().jobs_loss == before.town_damage_spec().jobs_loss,
        after.town_damage_spec().safety_loss == before.town_damage_spec().safety_loss,
{
}

} // verus!
