use vstd::prelude::*;

use crate::arith::{div_ceil_spec, div_ceil_u8};
use crate::id::TownId;
use crate::town::{min_u8, TownDamage};

verus! {

#[derive(Clone, Copy, Debug, PartialEq, Eq, Hash, Structural)]
pub enum NaturalDisaster {
    Earthquake,
    Flood,
    Fire,
    Storm,
}

impl NaturalDisaster {
    pub const ALL: [NaturalDisaster; 4] = [
        NaturalDisaster::Earthquake,
        NaturalDisaster::Flood,
        NaturalDisaster::Fire,
        NaturalDisaster::Storm,
    ];
}

/// Severity clamped into `1..=10`.
pub open spec fn clamped_severity(severity: u8) -> u8 {
    if severity < 1 {
        1
    } else if severity > 10 {
        10
    } else {
        severity
    }
}

pub fn clamp_severity(severity: u8) -> (clamped: u8)
    ensures
        clamped == clamped_severity(severity),
{
    if severity < 1 {
        1
    } else if severity > 10 {
        10
    } else {
        severity
    }
}

/// One month less, never below zero.
pub open spec fn month_after(remaining: u16) -> u16 {
    if remaining > 0 {
        (remaining - 1) as u16
    } else {
        0
    }
}

/// A natural disaster in one town. The severity is always within `1..=10`.
#[derive(Clone, Debug, PartialEq, Eq, Structural)]
pub struct NaturalDisasterEvent {
    pub kind: NaturalDisaster,
    pub town: TownId,
    pub severity: u8,
    pub remaining_months: u16,
}

/// Capacity lost to a disaster: 3% of the capacity per severity point, capped at `u32::MAX`.
pub open spec fn disaster_capacity_loss(population_capacity: u32, severity: u8) -> u32 {
    let loss = (population_capacity as int * severity as int * 3) / 100;
    if loss > u32::MAX {
        u32::MAX
    } else {
        loss as u32
    }
}

impl NaturalDisasterEvent {
    pub fn new(kind: NaturalDisaster, town: TownId, severity: u8) -> (event: Self)
        ensures
            event.kind == kind,
            event.town == town,
            event.severity == clamped_severity(severity),
            event.remaining_months == 6 + 2 * clamped_severity(severity),
    {
        let severity = clamp_severity(severity);
        NaturalDisasterEvent {
            kind,
            town,
            severity,
            remaining_months: 6 + (severity as u16) * 2,
        }
    }

    pub fn with_duration(kind: NaturalDisaster, town: TownId, severity: u8, remaining_months: u16) -> (event: Self)
        ensures
            event.kind == kind,
            event.town == town,
            event.severity == clamped_severity(severity),
            event.remaining_months == (if remaining_months < 1 {
                1
            } else {
                remaining_months
            }),
    {
        let mut event = Self::new(kind, town, severity);
        event.remaining_months = if remaining_months < 1 {
            1
        } else {
            remaining_months
        };
        event
    }

    /// Damage to a town of the given capacity: jobs lose `ceil(severity / 3)` (at most 4),
    /// safety `ceil(severity / 2)` (at most 5), and capacity 3% per severity point, for as
    /// long as the disaster lasts.
    pub fn town_damage(&self, population_capacity: u32) -> (damage: TownDamage)
        ensures
            damage == (TownDamage {
                jobs_loss: min_u8(div_ceil_spec(self.severity as int, 3) as u8, 4),
                safety_loss: min_u8(div_ceil_spec(self.severity as int, 2) as u8, 5),
                capacity_loss: disaster_capacity_loss(population_capacity, self.severity),
                remaining_months: self.remaining_months,
            }),
    {
        proof {
            assert(population_capacity as int * self.severity as int * 3 <= u32::MAX as int * 255 * 3)
                by (nonlinear_arith);
        }
        let raw: u64 = (population_capacity as u64) * (self.severity as u64) * 3 / 100;
        let capacity_loss: u32 = if raw > u32::MAX as u64 {
            u32::MAX
        } else {
            raw as u32
        };
        let jobs: u8 = div_ceil_u8(self.severity, 3);
        let safety: u8 = div_ceil_u8(self.severity, 2);
        TownDamage::new(
            if jobs < 4 {
                jobs
            } else {
                4
            },
            if safety < 5 {
                safety
            } else {
                5
            },
            capacity_loss,
            self.remaining_months,
        )
    }

    /// Advances one month; true while the disaster goes on.
    pub fn progress_month(&mut self) -> (ongoing: bool)
        ensures
            *final(self) == (NaturalDisasterEvent { remaining_months: month_after(old(self).remaining_months), ..*old(self) }),
            ongoing == (final(self).remaining_months > 0),
    {
        if self.remaining_months > 0 {
            self.remaining_months = self.remaining_months - 1;
        }
        self.remaining_months > 0
    }
}

/// A famine in one town, started by compound bad conditions.
#[derive(Clone, Debug, PartialEq, Eq, Structural)]
pub struct FamineEvent {
    pub town: TownId,
    pub severity: u8,
    pub remaining_months: u16,
}

impl FamineEvent {
    pub fn new(town: TownId, severity: u8, remaining_months: u16) -> (event: Self)
        ensures
            event.town == town,
            event.severity == clamped_severity(severity),
            event.remaining_months == (if remaining_months < 1 {
                1
            } else {
                remaining_months
            }),
    {
        FamineEvent {
            town,
            severity: clamp_severity(severity),
            remaining_months: if remaining_months < 1 {
                1
            } else {
                remaining_months
            },
        }
    }

    /// The famine that a risk-derived severity starts: it lasts `6 + 3 * severity` months.
    pub fn with_severity(town: TownId, severity: u8) -> (event: Self)
        ensures
            event.town == town,
            event.severity == clamped_severity(severity),
            event.remaining_months == 6 + 3 * clamped_severity(severity),
    {
        let severity = clamp_severity(severity);
        Self::new(town, severity, 6 + (severity as u16) * 3)
    }

    /// What the famine does to its town: jobs lose `ceil(severity / 3)` (at most 4) and
    /// safety `ceil(severity / 5)` (at most 2) for as long as it lasts.
    pub open spec fn town_damage_spec(&self) -> TownDamage {
        TownDamage {
            jobs_loss: min_u8(div_ceil_spec(self.severity as int, 3) as u8, 4),
            safety_loss: min_u8(div_ceil_spec(self.severity as int, 5) as u8, 2),
            capacity_loss: 0,
            remaining_months: self.remaining_months,
        }
    }

    pub fn town_damage(&self) -> (damage: TownDamage)
        ensures
            damage == self.town_damage_spec(),
    {
        let jobs: u8 = div_ceil_u8(self.severity, 3);
        let safety: u8 = div_ceil_u8(self.severity, 5);
        TownDamage::new(
            if jobs < 4 {
                jobs
            } else {
                4
            },
            if safety < 2 {
                safety
            } else {
                2
            },
            0,
            self.remaining_months,
        )
    }

    /// Advances one month; true while the famine goes on.
    pub fn progress_month(&mut self) -> (ongoing: bool)
        ensures
            *final(self) == (FamineEvent { remaining_months: month_after(old(self).remaining_months), ..*old(self) }),
            ongoing == (final(self).remaining_months > 0),
    {
        if self.remaining_months > 0 {
            self.remaining_months = self.remaining_months - 1;
        }
        self.remaining_months > 0
    }
}

/// A more severe disaster never takes less capacity from the same town.
pub proof fn lemma_disaster_damage_scales(population_capacity: u32, mild: u8, severe: u8)
    requires
        mild <= severe,
    ensures
        disaster_capacity_loss(population_capacity, mild) <= disaster_capacity_loss(
            population_capacity,
            severe,
        ),
{
    let a = population_capacity as int * mild as int * 3;
    let b = population_capacity as int * severe as int * 3;
    assert(a <= b) by (nonlinear_arith)
        requires
            a == population_capacity as int * mild as int * 3,
            b == population_capacity as int * severe as int * 3,
            mild <= severe,
    ;
    vstd::arithmetic::div_mod::lemma_div_is_ordered(a, b, 100);
}

} // verus!
