//! Running tallies for the command line reports: the counts of a reporting period, and
//! what a town saw in a year.

use vstd::prelude::*;

use crate::event::{TimedWorldEvent, WorldEvent};
use crate::id::{NpcId, TownId};
use crate::statistics::YearStatistics;
use crate::text::{append_decimal, decimal};
use crate::world::{npc_at, World};

verus! {

/// The counts of the years since the last report.
#[derive(Clone, Copy, Debug, PartialEq, Eq, Structural)]
pub struct PeriodSummary {
    pub births: usize,
    pub deaths: usize,
    pub external_immigration: usize,
    pub external_emigration: usize,
    pub internal_migrations: usize,
    pub partnerships: usize,
    pub belief_changes: usize,
    pub goal_changes: usize,
}

impl Default for PeriodSummary {
    fn default() -> (summary: Self)
        ensures
            summary == (PeriodSummary {
                births: 0,
                deaths: 0,
                external_immigration: 0,
                external_emigration: 0,
                internal_migrations: 0,
                partnerships: 0,
                belief_changes: 0,
                goal_changes: 0,
            }),
    {
        PeriodSummary {
            births: 0,
            deaths: 0,
            external_immigration: 0,
            external_emigration: 0,
            internal_migrations: 0,
            partnerships: 0,
            belief_changes: 0,
            goal_changes: 0,
        }
    }
}

impl PeriodSummary {
    /// Adds a year's counts, each saturating.
    pub fn add_year(&mut self, year: &YearStatistics)
        ensures
            *final(self) == (PeriodSummary {
                births: old(self).births.saturating_add(year.births),
                deaths: old(self).deaths.saturating_add(year.deaths),
                external_immigration: old(self).external_immigration.saturating_add(year.external_immigration),
                external_emigration: old(self).external_emigration.saturating_add(year.external_emigration),
                internal_migrations: old(self).internal_migrations.saturating_add(year.internal_migrations),
                partnerships: old(self).partnerships.saturating_add(year.partnerships),
                belief_changes: old(self).belief_changes.saturating_add(year.belief_changes),
                goal_changes: old(self).goal_changes.saturating_add(year.goal_changes),
            }),
    {
        self.births = self.births.saturating_add(year.births);
        self.deaths = self.deaths.saturating_add(year.deaths);
        self.external_immigration = self.external_immigration.saturating_add(year.external_immigration);
        self.external_emigration = self.external_emigration.saturating_add(year.external_emigration);
        self.internal_migrations = self.internal_migrations.saturating_add(year.internal_migrations);
        self.partnerships = self.partnerships.saturating_add(year.partnerships);
        self.belief_changes = self.belief_changes.saturating_add(year.belief_changes);
        self.goal_changes = self.goal_changes.saturating_add(year.goal_changes);
    }
}

/// A run reports after every tenth year and after its last one.
pub fn closes_period(elapsed_years: u64, target_years: Option<u64>) -> (report: bool)
    ensures
        report == (elapsed_years % 10 == 0 || target_years == Some(elapsed_years)),
{
    elapsed_years % 10 == 0 || target_years == Some(elapsed_years)
}

/// The status file is rewritten every `interval` years and after the last year.
pub fn status_due(elapsed_years: u64, interval: u64, target_years: Option<u64>) -> (due: bool)
    requires
        interval > 0,
    ensures
        due == (elapsed_years % interval == 0 || target_years == Some(elapsed_years)),
{
    elapsed_years % interval == 0 || target_years == Some(elapsed_years)
}

/// A label with the month it happened in, unless it belongs to the yearly processing.
pub open spec fn at_time_text(month: u8, label: Seq<char>) -> Seq<char> {
    if month == 0 {
        label
    } else {
        decimal(month as nat) + seq!['月', ' '] + label
    }
}

pub fn at_time(timed: &TimedWorldEvent, label: &str) -> (text: String)
    ensures
        text@ == at_time_text(timed.month, label@),
{
    let mut text = String::new();
    if timed.month == 0 {
        text.append(label);
        proof {
            assert(text@ =~= label@);
        }
        return text;
    }
    append_decimal(&mut text, timed.month as u64);
    proof {
        reveal_strlit("月 ");
    }
    text.append("月 ");
    text.append(label);
    proof {
        assert(text@ =~= decimal(timed.month as nat) + seq!['月', ' '] + label@);
    }
    text
}

/// The NPC is in the world's list and lives in `town`.
pub open spec fn lives_in(world: World, npc: NpcId, town: TownId) -> bool {
    npc_at(world.npcs@, npc) && world.npcs@[npc.0 as int].town == town
}

fn npc_is_in_town(world: &World, npc: NpcId, town: TownId) -> (found: bool)
    ensures
        found == lives_in(*world, npc, town),
{
    match world.npc(npc) {
        Some(found) => found.town == town,
        None => false,
    }
}

/// What a town saw in a year, for its timeline.
#[derive(Clone, Debug, Default, PartialEq, Eq)]
pub struct TownYearEntry {
    pub year: u64,
    pub population: usize,
    pub population_change: i64,
    pub births: usize,
    pub deaths: usize,
    pub arrivals: usize,
    pub departures: usize,
    pub partnerships: usize,
    pub notable: Vec<String>,
}

pub open spec fn count_if(condition: bool) -> int {
    if condition {
        1
    } else {
        0
    }
}

/// The label a town's timeline notes for an event in that town: a disaster, or a famine
/// starting or ending.
pub open spec fn town_notable_label(event: WorldEvent, town: TownId) -> Option<Seq<char>> {
    match event {
        WorldEvent::NaturalDisaster { town: affected } => if affected == town {
            Some(seq!['自', '然', '災', '害'])
        } else {
            None
        },
        WorldEvent::FamineStarted { town: affected } => if affected == town {
            Some(seq!['飢', '饉', '発', '生'])
        } else {
            None
        },
        WorldEvent::FamineEnded { town: affected } => if affected == town {
            Some(seq!['飢', '饉', '終', '息'])
        } else {
            None
        },
        _ => None,
    }
}

impl TownYearEntry {
    /// Counts an event of the year for the town: births and deaths of its residents,
    /// partnerships involving one, arrivals and departures, and notes disasters and
    /// famines.
    pub fn record_event(&mut self, world: &World, town: TownId, timed: &TimedWorldEvent)
        requires
            old(self).births < usize::MAX,
            old(self).deaths < usize::MAX,
            old(self).partnerships < usize::MAX,
            old(self).arrivals < usize::MAX,
            old(self).departures < usize::MAX,
        ensures
            final(self).year == old(self).year,
            final(self).population == old(self).population,
            final(self).population_change == old(self).population_change,
            final(self).births == old(self).births + (match timed.event {
                WorldEvent::Birth { npc } => count_if(lives_in(*world, npc, town)),
                _ => 0,
            }),
            final(self).deaths == old(self).deaths + (match timed.event {
                WorldEvent::Death { npc } => count_if(lives_in(*world, npc, town)),
                _ => 0,
            }),
            final(self).partnerships == old(self).partnerships + (match timed.event {
                WorldEvent::Partnership { a, b } => count_if(lives_in(*world, a, town) || lives_in(*world, b, town)),
                _ => 0,
            }),
            final(self).arrivals == old(self).arrivals + (match timed.event {
                WorldEvent::Migration { to, .. } => count_if(to == town),
                WorldEvent::ExternalImmigration { to, .. } => count_if(to == town),
                _ => 0,
            }),
            final(self).departures == old(self).departures + (match timed.event {
                WorldEvent::Migration { from, .. } => count_if(from == town),
                WorldEvent::ExternalEmigration { from, .. } => count_if(from == town),
                _ => 0,
            }),
            final(self).notable@.len() == old(self).notable@.len() + (if town_notable_label(timed.event, town) is Some {
                1int
            } else {
                0
            }),
            forall|i: int| 0 <= i < old(self).notable@.len() ==> #[trigger] final(self).notable@[i] == old(self).notable@[i],
            town_notable_label(timed.event, town) matches Some(label) ==> final(self).notable@[old(self).notable@.len() as int]@
                == at_time_text(timed.month, label),
    {
        match timed.event {
            WorldEvent::Birth { npc } => {
                if npc_is_in_town(world, npc, town) {
                    self.births = self.births + 1;
                }
            },
            WorldEvent::Death { npc } => {
                if npc_is_in_town(world, npc, town) {
                    self.deaths = self.deaths + 1;
                }
            },
            WorldEvent::Partnership { a, b } => {
                if npc_is_in_town(world, a, town) || npc_is_in_town(world, b, town) {
                    self.partnerships = self.partnerships + 1;
                }
            },
            WorldEvent::Migration { from, to, .. } => {
                if from == town {
                    self.departures = self.departures + 1;
                }
                if to == town {
                    self.arrivals = self.arrivals + 1;
                }
            },
            WorldEvent::ExternalImmigration { to, .. } => {
                if to == town {
                    self.arrivals = self.arrivals + 1;
                }
            },
            WorldEvent::ExternalEmigration { from, .. } => {
                if from == town {
                    self.departures = self.departures + 1;
                }
            },
            WorldEvent::NaturalDisaster { town: affected } => {
                if affected == town {
                    proof {
                        reveal_strlit("自然災害");
                    }
                    self.notable.push(at_time(timed, "自然災害"));
                }
            },
            WorldEvent::FamineStarted { town: affected } => {
                if affected == town {
                    proof {
                        reveal_strlit("飢饉発生");
                    }
                    self.notable.push(at_time(timed, "飢饉発生"));
                }
            },
            WorldEvent::FamineEnded { town: affected } => {
                if affected == town {
                    proof {
                        reveal_strlit("飢饉終息");
                    }
                    self.notable.push(at_time(timed, "飢饉終息"));
                }
            },
            _ => {},
        }
    }

    /// Whether the year is worth a line: anything changed or was noted.
    pub fn should_print(&self) -> (print: bool)
        ensures
            print == (self.population_change != 0 || self.births > 0 || self.deaths > 0 || self.arrivals > 0
                || self.departures > 0 || self.partnerships > 0 || self.notable@.len() > 0),
    {
        self.population_change != 0 || self.births > 0 || self.deaths > 0 || self.arrivals > 0 || self.departures > 0
            || self.partnerships > 0 || !self.notable.is_empty()
    }
}

/// What a town saw in the events, counted as `record_event` counts them: births, deaths,
/// partnerships, arrivals and departures.
pub open spec fn town_tallies(world: World, town: TownId, events: Seq<TimedWorldEvent>) -> (int, int, int, int, int)
    decreases events.len(),
{
    if events.len() == 0 {
        (0, 0, 0, 0, 0)
    } else {
        let earlier = town_tallies(world, town, events.drop_last());
        let event = events.last().event;
        (
            earlier.0 + (match event {
                WorldEvent::Birth { npc } => count_if(lives_in(world, npc, town)),
                _ => 0,
            }),
            earlier.1 + (match event {
                WorldEvent::Death { npc } => count_if(lives_in(world, npc, town)),
                _ => 0,
            }),
            earlier.2 + (match event {
                WorldEvent::Partnership { a, b } => count_if(lives_in(world, a, town) || lives_in(world, b, town)),
                _ => 0,
            }),
            earlier.3 + (match event {
                WorldEvent::Migration { to, .. } => count_if(to == town),
                WorldEvent::ExternalImmigration { to, .. } => count_if(to == town),
                _ => 0,
            }),
            earlier.4 + (match event {
                WorldEvent::Migration { from, .. } => count_if(from == town),
                WorldEvent::ExternalEmigration { from, .. } => count_if(from == town),
                _ => 0,
            }),
        )
    }
}

/// The notes a town's timeline takes from the events, in order.
pub open spec fn town_notes(town: TownId, events: Seq<TimedWorldEvent>) -> Seq<Seq<char>>
    decreases events.len(),
{
    if events.len() == 0 {
        Seq::empty()
    } else {
        let earlier = town_notes(town, events.drop_last());
        let timed = events.last();
        match town_notable_label(timed.event, town) {
            Some(label) => earlier.push(at_time_text(timed.month, label)),
            None => earlier,
        }
    }
}

impl TownYearEntry {
    /// The town's line for the year that just ended: its population, the change since the
    /// last recorded one (none when there is none), and what the year's events show.
    pub fn for_year(
        world: &World,
        town: TownId,
        year: u64,
        population: usize,
        previous_population: Option<usize>,
    ) -> (entry: Self)
        requires
            population <= i64::MAX,
            previous_population matches Some(previous) ==> previous <= i64::MAX,
        ensures
            entry.year == year,
            entry.population == population,
            entry.population_change == population - (match previous_population {
                Some(previous) => previous,
                None => population,
            }),
            ({
                let counts = town_tallies(*world, town, world.year_events@);
                &&& entry.births == counts.0
                &&& entry.deaths == counts.1
                &&& entry.partnerships == counts.2
                &&& entry.arrivals == counts.3
                &&& entry.departures == counts.4
            }),
            entry.notable@.map_values(|note: String| note@) == town_notes(town, world.year_events@),
    {
        let previous = match previous_population {
            Some(previous) => previous,
            None => population,
        };
        let mut entry = TownYearEntry {
            year,
            population,
            population_change: population as i64 - previous as i64,
            births: 0,
            deaths: 0,
            arrivals: 0,
            departures: 0,
            partnerships: 0,
            notable: Vec::new(),
        };
        let ghost events = world.year_events@;
        let mut k: usize = 0;
        while k < world.year_events.len()
            invariant
                k <= events.len(),
                events == world.year_events@,
                entry.year == year,
                entry.population == population,
                entry.population_change == population - previous,
                ({
                    let counts = town_tallies(*world, town, events.take(k as int));
                    &&& entry.births == counts.0
                    &&& entry.deaths == counts.1
                    &&& entry.partnerships == counts.2
                    &&& entry.arrivals == counts.3
                    &&& entry.departures == counts.4
                }),
                entry.births <= k && entry.deaths <= k && entry.partnerships <= k,
                entry.arrivals <= k && entry.departures <= k,
                entry.notable@.map_values(|note: String| note@) == town_notes(town, events.take(k as int)),
            decreases events.len() - k,
        {
            proof {
                assert(events.take(k as int + 1).drop_last() =~= events.take(k as int));
                assert(events.take(k as int + 1).last() == events[k as int]);
            }
            let ghost before = entry.notable@;
            entry.record_event(world, town, &world.year_events[k]);
            proof {
                assert(entry.notable@.map_values(|note: String| note@) =~= town_notes(town, events.take(k as int + 1)));
            }
            k = k + 1;
        }
        proof {
            assert(events.take(events.len() as int) =~= events);
        }
        entry
    }
}

} // verus!
