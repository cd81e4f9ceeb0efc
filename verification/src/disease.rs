use vstd::prelude::*;

use crate::arith::{div_ceil_spec, div_ceil_u8};
use crate::disaster::clamped_severity;
use crate::id::TownId;
use crate::sorted_ids::{insert_town_id, town_ids_sorted};
use crate::town::{min_u8, TownDamage};

verus! {

/// A disease that can spread to several towns. The infected towns are kept ascending,
/// each once.
#[derive(Clone, Debug, PartialEq, Eq)]
pub struct DiseaseEvent {
    pub severity: u8,
    pub infected_towns: Vec<TownId>,
    pub remaining_months: u8,
}

/// The ids of `ids` ascending, each once.
pub open spec fn canonical_town_ids(ids: Seq<TownId>, canonical: Seq<TownId>) -> bool {
    &&& town_ids_sorted(canonical)
    &&& forall|x: TownId| #[trigger] canonical.contains(x) <==> ids.contains(x)
}

/// Sorts `ids` ascending and drops repeated ids.
pub fn canonical_town_list(ids: &Vec<TownId>) -> (canonical: Vec<TownId>)
    ensures
        canonical_town_ids(ids@, canonical@),
{
    let mut canonical: Vec<TownId> = Vec::new();
    let mut i: usize = 0;
    while i < ids.len()
        invariant
            i <= ids@.len(),
            town_ids_sorted(canonical@),
            forall|x: TownId| #[trigger] canonical@.contains(x) <==> ids@.take(i as int).contains(x),
        decreases ids.len() - i,
    {
        insert_town_id(&mut canonical, ids[i]);
        proof {
            broadcast use vstd::seq_lib::group_seq_properties;
            assert(ids@.take(i + 1) =~= ids@.take(i as int).push(ids@[i as int]));
        }
        i = i + 1;
    }
    proof {
        assert(ids@.take(ids@.len() as int) =~= ids@);
    }
    canonical
}

/// Whether `id` is in `ids`.
pub fn contains_town_id(ids: &Vec<TownId>, id: TownId) -> (found: bool)
    ensures
        found == ids@.contains(id),
{
    let mut i: usize = 0;
    while i < ids.len()
        invariant
            i <= ids@.len(),
            forall|j: int| 0 <= j < i ==> (#[trigger] ids@[j]) != id,
        decreases ids.len() - i,
    {
        if ids[i] == id {
            return true;
        }
        i = i + 1;
    }
    false
}

impl DiseaseEvent {
    pub open spec fn well_formed(&self) -> bool {
        town_ids_sorted(self.infected_towns@)
    }

    pub fn new(severity: u8, initial_town: TownId, remaining_months: u8) -> (event: Self)
        ensures
            event.severity == clamped_severity(severity),
            event.infected_towns@ == seq![initial_town],
            event.remaining_months == (if remaining_months < 1 {
                1
            } else {
                remaining_months
            }),
            event.well_formed(),
    {
        DiseaseEvent {
            severity: crate::disaster::clamp_severity(severity),
            infected_towns: vec![initial_town],
            remaining_months: if remaining_months < 1 {
                1
            } else {
                remaining_months
            },
        }
    }

    pub fn from_infected_towns(severity: u8, infected_towns: Vec<TownId>, remaining_months: u8) -> (event: Self)
        ensures
            event.severity == clamped_severity(severity),
            canonical_town_ids(infected_towns@, event.infected_towns@),
            event.remaining_months == (if remaining_months < 1 {
                1
            } else {
                remaining_months
            }),
            event.well_formed(),
    {
        DiseaseEvent {
            severity: crate::disaster::clamp_severity(severity),
            infected_towns: canonical_town_list(&infected_towns),
            remaining_months: if remaining_months < 1 {
                1
            } else {
                remaining_months
            },
        }
    }

    /// Infects `town`; true when it was not infected before.
    pub fn infect(&mut self, town: TownId) -> (newly_infected: bool)
        requires
            old(self).well_formed(),
        ensures
            newly_infected == !old(self).infected_towns@.contains(town),
            final(self).well_formed(),
            forall|x: TownId| #[trigger] final(self).infected_towns@.contains(x) <==> (
            old(self).infected_towns@.contains(x) || x == town),
            final(self).severity == old(self).severity,
            final(self).remaining_months == old(self).remaining_months,
    {
        let newly_infected = !contains_town_id(&self.infected_towns, town);
        insert_town_id(&mut self.infected_towns, town);
        newly_infected
    }

    pub fn is_infected(&self, town: TownId) -> (infected: bool)
        ensures
            infected == self.infected_towns@.contains(town),
    {
        contains_town_id(&self.infected_towns, town)
    }

    /// The infected towns in a stable ascending order.
    pub fn infected_towns_sorted(&self) -> (towns: Vec<TownId>)
        ensures
            canonical_town_ids(self.infected_towns@, towns@),
    {
        canonical_town_list(&self.infected_towns)
    }

    /// `ceil(severity / 3)`, with the severity capped at 10.
    pub fn job_penalty(&self) -> (penalty: u8)
        ensures
            penalty == div_ceil_spec(min_u8(self.severity, 10) as int, 3),
    {
        let severity: u8 = if self.severity < 10 {
            self.severity
        } else {
            10
        };
        div_ceil_u8(severity, 3)
    }

    /// What the disease does to an infected town: jobs lose the job penalty for as long as
    /// the disease lasts.
    pub open spec fn town_damage_spec(&self) -> TownDamage {
        TownDamage {
            jobs_loss: div_ceil_spec(min_u8(self.severity, 10) as int, 3) as u8,
            safety_loss: 0,
            capacity_loss: 0,
            remaining_months: self.remaining_months as u16,
        }
    }

    pub fn town_damage(&self) -> (damage: TownDamage)
        ensures
            damage == self.town_damage_spec(),
    {
        let penalty = self.job_penalty();
        TownDamage::new(penalty, 0, 0, self.remaining_months as u16)
    }

    /// Advances one month; true while the disease goes on.
    pub fn progress_month(&mut self) -> (ongoing: bool)
        ensures
            final(self).remaining_months == (if old(self).remaining_months > 0 {
                old(self).remaining_months - 1
            } else {
                0
            }),
            final(self).severity == old(self).severity,
            final(self).infected_towns == old(self).infected_towns,
            ongoing == (final(self).remaining_months > 0),
    {
        if self.remaining_months > 0 {
            self.remaining_months = self.remaining_months - 1;
        }
        self.remaining_months > 0
    }
}

} // verus!
