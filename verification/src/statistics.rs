use vstd::prelude::*;

use crate::economy::{Money, TownEconomicStatistics};
use crate::event::{DeathCause, WorldEvent};

verus! {

/// The changes of one year and the population snapshot at its end.
#[derive(Clone, Debug, PartialEq, Eq)]
pub struct YearStatistics {
    pub year: u64,
    pub total_population: usize,
    pub births: usize,
    pub deaths: usize,
    pub external_immigration: usize,
    pub external_emigration: usize,
    pub internal_migrations: usize,
    pub partnerships: usize,
    pub belief_changes: usize,
    pub goal_changes: usize,
    pub disaster_deaths: usize,
    pub disease_deaths: usize,
    pub war_deaths: usize,
    pub famine_deaths: usize,
    /// In the same stable order as the world's towns.
    pub town_populations: Vec<usize>,
    /// The towns' output over the year, summed (saturating).
    pub gross_product_cents: Money,
    /// The value of the towns' trades over the year, summed (saturating).
    pub trade_volume_cents: Money,
    pub economic_transactions: u64,
    pub money_transfers: u64,
    /// Each town's economy at the end of the year, in the order of the world's towns.
    pub town_economies: Vec<TownEconomicStatistics>,
}

/// Deaths not classified by a cause: `deaths` minus the classified ones, never below zero.
pub open spec fn unclassified_deaths(deaths: usize, disaster: usize, disease: usize, war: usize, famine: usize) -> usize {
    deaths.saturating_sub(disaster.saturating_add(disease).saturating_add(war).saturating_add(famine))
}

fn unclassified_deaths_of(deaths: usize, disaster: usize, disease: usize, war: usize, famine: usize) -> (natural: usize)
    ensures
        natural == unclassified_deaths(deaths, disaster, disease, war, famine),
{
    deaths.saturating_sub(disaster.saturating_add(disease).saturating_add(war).saturating_add(famine))
}

/// All counters of a year are zero.
pub open spec fn year_counters_zero(year: YearStatistics) -> bool {
    &&& year.births == 0
    &&& year.deaths == 0
    &&& year.external_immigration == 0
    &&& year.external_emigration == 0
    &&& year.internal_migrations == 0
    &&& year.partnerships == 0
    &&& year.belief_changes == 0
    &&& year.goal_changes == 0
    &&& year.disaster_deaths == 0
    &&& year.disease_deaths == 0
    &&& year.war_deaths == 0
    &&& year.famine_deaths == 0
}

/// The year after one death of the given cause.
pub open spec fn after_death(year: YearStatistics, cause: DeathCause) -> YearStatistics {
    let counted = YearStatistics { deaths: year.deaths.saturating_add(1), ..year };
    match cause {
        DeathCause::Disaster => YearStatistics {
            disaster_deaths: year.disaster_deaths.saturating_add(1),
            ..counted
        },
        DeathCause::Disease => YearStatistics {
            disease_deaths: year.disease_deaths.saturating_add(1),
            ..counted
        },
        DeathCause::War => YearStatistics { war_deaths: year.war_deaths.saturating_add(1), ..counted },
        DeathCause::Famine => YearStatistics {
            famine_deaths: year.famine_deaths.saturating_add(1),
            ..counted
        },
        DeathCause::Natural => counted,
    }
}

/// The year after an event: each event with a counter adds one to it; a death counts as
/// a natural death; other events change nothing.
pub open spec fn after_event(year: YearStatistics, event: WorldEvent) -> YearStatistics {
    match event {
        WorldEvent::Birth { .. } => YearStatistics { births: year.births.saturating_add(1), ..year },
        WorldEvent::Death { .. } => after_death(year, DeathCause::Natural),
        WorldEvent::Partnership { .. } => YearStatistics {
            partnerships: year.partnerships.saturating_add(1),
            ..year
        },
        WorldEvent::Migration { .. } => YearStatistics {
            internal_migrations: year.internal_migrations.saturating_add(1),
            ..year
        },
        WorldEvent::BeliefChanged { .. } => YearStatistics {
            belief_changes: year.belief_changes.saturating_add(1),
            ..year
        },
        WorldEvent::GoalChanged { .. } => YearStatistics {
            goal_changes: year.goal_changes.saturating_add(1),
            ..year
        },
        WorldEvent::ExternalImmigration { .. } => YearStatistics {
            external_immigration: year.external_immigration.saturating_add(1),
            ..year
        },
        WorldEvent::ExternalEmigration { .. } => YearStatistics {
            external_emigration: year.external_emigration.saturating_add(1),
            ..year
        },
        _ => year,
    }
}

impl YearStatistics {
    pub fn new(year: u64, total_population: usize, town_populations: Vec<usize>) -> (statistics: Self)
        ensures
            statistics.year == year,
            statistics.total_population == total_population,
            statistics.town_populations == town_populations,
            year_counters_zero(statistics),
            statistics.gross_product_cents == 0,
            statistics.trade_volume_cents == 0,
            statistics.economic_transactions == 0,
            statistics.money_transfers == 0,
            statistics.town_economies@.len() == 0,
    {
        YearStatistics {
            year,
            total_population,
            births: 0,
            deaths: 0,
            external_immigration: 0,
            external_emigration: 0,
            internal_migrations: 0,
            partnerships: 0,
            belief_changes: 0,
            goal_changes: 0,
            disaster_deaths: 0,
            disease_deaths: 0,
            war_deaths: 0,
            famine_deaths: 0,
            town_populations,
            gross_product_cents: 0,
            trade_volume_cents: 0,
            economic_transactions: 0,
            money_transfers: 0,
            town_economies: Vec::new(),
        }
    }

    /// Adds one to the counter the event directly tells; deaths with a known cause go
    /// through `record_death`.
    pub fn record_event(&mut self, event: &WorldEvent)
        ensures
            *final(self) == after_event(*old(self), *event),
    {
        match event {
            WorldEvent::Birth { .. } => self.births = self.births.saturating_add(1),
            WorldEvent::Death { .. } => self.record_death(DeathCause::Natural),
            WorldEvent::Partnership { .. } => self.partnerships = self.partnerships.saturating_add(1),
            WorldEvent::Migration { .. } => self.internal_migrations = self.internal_migrations.saturating_add(1),
            WorldEvent::BeliefChanged { .. } => self.belief_changes = self.belief_changes.saturating_add(1),
            WorldEvent::GoalChanged { .. } => self.goal_changes = self.goal_changes.saturating_add(1),
            WorldEvent::ExternalImmigration { .. } => {
                self.external_immigration = self.external_immigration.saturating_add(1)
            },
            WorldEvent::ExternalEmigration { .. } => {
                self.external_emigration = self.external_emigration.saturating_add(1)
            },
            _ => {},
        }
    }

    pub fn record_death(&mut self, cause: DeathCause)
        ensures
            *final(self) == after_death(*old(self), cause),
    {
        self.deaths = self.deaths.saturating_add(1);
        match cause {
            DeathCause::Disaster => self.disaster_deaths = self.disaster_deaths.saturating_add(1),
            DeathCause::Disease => self.disease_deaths = self.disease_deaths.saturating_add(1),
            DeathCause::War => self.war_deaths = self.war_deaths.saturating_add(1),
            DeathCause::Famine => self.famine_deaths = self.famine_deaths.saturating_add(1),
            DeathCause::Natural => {},
        }
    }

    /// Deaths without an explicit cause.
    pub fn natural_deaths(&self) -> (natural: usize)
        ensures
            natural == unclassified_deaths(
                self.deaths,
                self.disaster_deaths,
                self.disease_deaths,
                self.war_deaths,
                self.famine_deaths,
            ),
    {
        unclassified_deaths_of(
            self.deaths,
            self.disaster_deaths,
            self.disease_deaths,
            self.war_deaths,
            self.famine_deaths,
        )
    }
}

impl Default for YearStatistics {
    fn default() -> (statistics: Self)
        ensures
            statistics.year == 0,
            statistics.total_population == 0,
            statistics.town_populations@.len() == 0,
            year_counters_zero(statistics),
    {
        YearStatistics::new(0, 0, Vec::new())
    }
}

/// The sums over the yearly statistics: the final summary.
#[derive(Clone, Debug, PartialEq, Eq)]
pub struct CumulativeStatistics {
    pub initial_population: usize,
    pub final_population: usize,
    pub total_unique_npcs: usize,
    pub births: usize,
    pub deaths: usize,
    pub natural_deaths: usize,
    pub external_immigration: usize,
    pub external_emigration: usize,
    pub internal_migrations: usize,
    pub partnerships: usize,
    pub belief_changes: usize,
    pub goal_changes: usize,
    pub disaster_deaths: usize,
    pub disease_deaths: usize,
    pub war_deaths: usize,
    pub famine_deaths: usize,
    pub town_populations: Vec<usize>,
}

/// All summary fields are zero and no town populations are recorded.
pub open spec fn cumulative_is_empty(totals: CumulativeStatistics) -> bool {
    &&& totals.initial_population == 0
    &&& totals.final_population == 0
    &&& totals.total_unique_npcs == 0
    &&& totals.births == 0
    &&& totals.deaths == 0
    &&& totals.natural_deaths == 0
    &&& totals.external_immigration == 0
    &&& totals.external_emigration == 0
    &&& totals.internal_migrations == 0
    &&& totals.partnerships == 0
    &&& totals.belief_changes == 0
    &&& totals.goal_changes == 0
    &&& totals.disaster_deaths == 0
    &&& totals.disease_deaths == 0
    &&& totals.war_deaths == 0
    &&& totals.famine_deaths == 0
    &&& totals.town_populations@.len() == 0
}

/// `totals` with the counters of one year added, each saturating.
pub open spec fn add_year_spec(totals: CumulativeStatistics, year: YearStatistics) -> CumulativeStatistics {
    CumulativeStatistics {
        births: totals.births.saturating_add(year.births),
        deaths: totals.deaths.saturating_add(year.deaths),
        external_immigration: totals.external_immigration.saturating_add(year.external_immigration),
        external_emigration: totals.external_emigration.saturating_add(year.external_emigration),
        internal_migrations: totals.internal_migrations.saturating_add(year.internal_migrations),
        partnerships: totals.partnerships.saturating_add(year.partnerships),
        belief_changes: totals.belief_changes.saturating_add(year.belief_changes),
        goal_changes: totals.goal_changes.saturating_add(year.goal_changes),
        disaster_deaths: totals.disaster_deaths.saturating_add(year.disaster_deaths),
        disease_deaths: totals.disease_deaths.saturating_add(year.disease_deaths),
        war_deaths: totals.war_deaths.saturating_add(year.war_deaths),
        famine_deaths: totals.famine_deaths.saturating_add(year.famine_deaths),
        ..totals
    }
}

/// `totals` with the counters of every year added, in order.
pub open spec fn add_years_spec(totals: CumulativeStatistics, years: Seq<YearStatistics>) -> CumulativeStatistics
    decreases years.len(),
{
    if years.len() == 0 {
        totals
    } else {
        add_year_spec(add_years_spec(totals, years.drop_last()), years.last())
    }
}

/// The summary of a run: the counters carried over from dropped years plus those of the
/// kept years; the final population and town populations of the latest year (the initial
/// population and no towns when there is none); natural deaths as the unclassified rest.
/// The town populations are those of `carried` here; `Statistics::cumulative` states them
/// separately.
pub open spec fn summary_spec(
    initial_population: usize,
    total_unique_npcs: usize,
    carried: CumulativeStatistics,
    years: Seq<YearStatistics>,
) -> CumulativeStatistics {
    let sums = add_years_spec(carried, years);
    CumulativeStatistics {
        initial_population,
        final_population: if years.len() == 0 {
            initial_population
        } else {
            years.last().total_population
        },
        total_unique_npcs,
        natural_deaths: unclassified_deaths(
            sums.deaths,
            sums.disaster_deaths,
            sums.disease_deaths,
            sums.war_deaths,
            sums.famine_deaths,
        ),
        ..sums
    }
}

fn add_to_cumulative(result: &mut CumulativeStatistics, year: &YearStatistics)
    ensures
        *final(result) == add_year_spec(*old(result), *year),
{
    result.births = result.births.saturating_add(year.births);
    result.deaths = result.deaths.saturating_add(year.deaths);
    result.external_immigration = result.external_immigration.saturating_add(year.external_immigration);
    result.external_emigration = result.external_emigration.saturating_add(year.external_emigration);
    result.internal_migrations = result.internal_migrations.saturating_add(year.internal_migrations);
    result.partnerships = result.partnerships.saturating_add(year.partnerships);
    result.belief_changes = result.belief_changes.saturating_add(year.belief_changes);
    result.goal_changes = result.goal_changes.saturating_add(year.goal_changes);
    result.disaster_deaths = result.disaster_deaths.saturating_add(year.disaster_deaths);
    result.disease_deaths = result.disease_deaths.saturating_add(year.disease_deaths);
    result.war_deaths = result.war_deaths.saturating_add(year.war_deaths);
    result.famine_deaths = result.famine_deaths.saturating_add(year.famine_deaths);
}

fn copy_populations(populations: &Vec<usize>) -> (copy: Vec<usize>)
    ensures
        copy@ == populations@,
{
    let mut copy: Vec<usize> = Vec::new();
    let mut i: usize = 0;
    while i < populations.len()
        invariant
            i <= populations@.len(),
            copy@ == populations@.subrange(0, i as int),
        decreases populations.len() - i,
    {
        copy.push(populations[i]);
        i = i + 1;
    }
    copy
}

fn empty_cumulative() -> (totals: CumulativeStatistics)
    ensures
        cumulative_is_empty(totals),
{
    CumulativeStatistics {
        initial_population: 0,
        final_population: 0,
        total_unique_npcs: 0,
        births: 0,
        deaths: 0,
        natural_deaths: 0,
        external_immigration: 0,
        external_emigration: 0,
        internal_migrations: 0,
        partnerships: 0,
        belief_changes: 0,
        goal_changes: 0,
        disaster_deaths: 0,
        disease_deaths: 0,
        war_deaths: 0,
        famine_deaths: 0,
        town_populations: Vec::new(),
    }
}

impl Default for CumulativeStatistics {
    fn default() -> (totals: Self)
        ensures
            cumulative_is_empty(totals),
    {
        empty_cumulative()
    }
}

pub fn retain_history_by_default() -> (retain: bool)
    ensures
        retain,
{
    true
}

/// The yearly statistics of a run. In continuous mode only the latest year is kept, and
/// the counters of the dropped years are carried over so that the summary still covers
/// the whole run.
#[derive(Clone, Debug, PartialEq, Eq)]
pub struct Statistics {
    pub initial_population: usize,
    pub total_unique_npcs: usize,
    pub years: Vec<YearStatistics>,
    /// False once continuous mode is on: then only the latest year is kept.
    pub retain_year_history: bool,
    /// The counters of the years that are no longer kept.
    pub cumulative_before_retained: CumulativeStatistics,
    /// How many years are no longer kept (saturating).
    pub years_before_retained: u64,
}

impl Statistics {
    /// The summary over the whole run.
    pub open spec fn summary(&self) -> CumulativeStatistics {
        summary_spec(self.initial_population, self.total_unique_npcs, self.cumulative_before_retained, self.years@)
    }

    /// Years simulated over the whole run, kept or not (saturating).
    pub open spec fn total_years_spec(&self) -> u64 {
        if self.years_before_retained + self.years@.len() > u64::MAX {
            u64::MAX
        } else {
            (self.years_before_retained + self.years@.len()) as u64
        }
    }

    pub fn new(initial_population: usize) -> (statistics: Self)
        ensures
            statistics.initial_population == initial_population,
            statistics.total_unique_npcs == initial_population,
            statistics.years@.len() == 0,
            statistics.retain_year_history,
            cumulative_is_empty(statistics.cumulative_before_retained),
            statistics.years_before_retained == 0,
    {
        Statistics {
            initial_population,
            total_unique_npcs: initial_population,
            years: Vec::new(),
            retain_year_history: true,
            cumulative_before_retained: empty_cumulative(),
            years_before_retained: 0,
        }
    }

    /// Keeps only the latest year from now on, for runs without an end. The counters of
    /// the dropped years are carried over: the summary and the number of years stay the
    /// same.
    pub fn retain_only_latest_year(&mut self)
        ensures
            !final(self).retain_year_history,
            final(self).initial_population == old(self).initial_population,
            final(self).total_unique_npcs == old(self).total_unique_npcs,
            old(self).retain_year_history && old(self).years@.len() > 1 ==> {
                &&& final(self).years@ == seq![old(self).years@.last()]
                &&& final(self).cumulative_before_retained == add_years_spec(old(self).cumulative_before_retained, old(self).years@.drop_last())
            },
            !(old(self).retain_year_history && old(self).years@.len() > 1) ==> {
                &&& final(self).years@ == old(self).years@
                &&& final(self).cumulative_before_retained == old(self).cumulative_before_retained
                &&& final(self).years_before_retained == old(self).years_before_retained
            },
            final(self).summary() == old(self).summary(),
            final(self).total_years_spec() == old(self).total_years_spec(),
    {
        if self.retain_year_history {
            if self.years.len() > 1 {
                let ghost before = self.years@;
                let ghost carried_before = self.cumulative_before_retained;
                let ghost count_before = self.years_before_retained;
                let latest = self.years.pop().unwrap();
                let mut kept: Vec<YearStatistics> = Vec::new();
                std::mem::swap(&mut kept, &mut self.years);
                let mut i: usize = 0;
                while i < kept.len()
                    invariant
                        kept@ == before.drop_last(),
                        self.initial_population == old(self).initial_population,
                        self.total_unique_npcs == old(self).total_unique_npcs,
                        self.retain_year_history,
                        i <= kept@.len(),
                        self.cumulative_before_retained == add_years_spec(
                            carried_before,
                            kept@.subrange(0, i as int),
                        ),
                        self.years_before_retained == (if count_before + i > u64::MAX {
                            u64::MAX as int
                        } else {
                            count_before + i
                        }),
                    decreases kept.len() - i,
                {
                    add_to_cumulative(&mut self.cumulative_before_retained, &kept[i]);
                    self.years_before_retained = self.years_before_retained.saturating_add(1);
                    proof {
                        assert(kept@.subrange(0, i + 1).drop_last() =~= kept@.subrange(0, i as int));
                    }
                    i = i + 1;
                }
                proof {
                    assert(kept@.subrange(0, kept@.len() as int) =~= kept@);
                }
                self.years = Vec::new();
                self.years.push(latest);
                proof {
                    assert(before.drop_last().push(before.last()) =~= before);
                    assert(self.years@ =~= seq![before.last()]);
                    assert(seq![before.last()].drop_last() =~= Seq::<YearStatistics>::empty());
                    assert(add_years_spec(self.cumulative_before_retained, Seq::<YearStatistics>::empty())
                        == self.cumulative_before_retained);
                    assert(self.cumulative_before_retained == add_years_spec(carried_before, before.drop_last()));
                    assert(add_years_spec(self.cumulative_before_retained, self.years@) == add_year_spec(
                        add_years_spec(carried_before, before.drop_last()),
                        before.last(),
                    ));
                    assert(add_years_spec(self.cumulative_before_retained, self.years@) == add_years_spec(
                        carried_before,
                        before,
                    ));
                }
            }
            self.retain_year_history = false;
        }
    }

    /// Adds a year and counts its births and immigrants as new distinct NPCs. In
    /// continuous mode the previous latest year is folded into the carried counters.
    pub fn push(&mut self, year: YearStatistics)
        ensures
            final(self).initial_population == old(self).initial_population,
            final(self).total_unique_npcs == old(self).total_unique_npcs.saturating_add(year.births).saturating_add(
                year.external_immigration,
            ),
            final(self).retain_year_history == old(self).retain_year_history,
            old(self).retain_year_history || old(self).years@.len() == 0 ==> {
                &&& final(self).years@ == old(self).years@.push(year)
                &&& final(self).cumulative_before_retained == old(self).cumulative_before_retained
                &&& final(self).years_before_retained == old(self).years_before_retained
            },
            !old(self).retain_year_history && old(self).years@.len() > 0 ==> {
                &&& final(self).years@ == old(self).years@.drop_last().push(year)
                &&& final(self).cumulative_before_retained == add_year_spec(old(self).cumulative_before_retained, old(self).years@.last())
                &&& final(self).years_before_retained == old(self).years_before_retained.saturating_add(1)
            },
    {
        self.total_unique_npcs = self.total_unique_npcs.saturating_add(year.births).saturating_add(
            year.external_immigration,
        );
        if !self.retain_year_history {
            match self.years.pop() {
                Some(previous) => {
                    add_to_cumulative(&mut self.cumulative_before_retained, &previous);
                    self.years_before_retained = self.years_before_retained.saturating_add(1);
                },
                None => {},
            }
        }
        self.years.push(year);
    }

    pub fn push_year(&mut self, year: YearStatistics)
        ensures
            final(self).initial_population == old(self).initial_population,
            final(self).total_unique_npcs == old(self).total_unique_npcs.saturating_add(year.births).saturating_add(
                year.external_immigration,
            ),
            final(self).retain_year_history == old(self).retain_year_history,
            old(self).retain_year_history || old(self).years@.len() == 0 ==> {
                &&& final(self).years@ == old(self).years@.push(year)
                &&& final(self).cumulative_before_retained == old(self).cumulative_before_retained
                &&& final(self).years_before_retained == old(self).years_before_retained
            },
            !old(self).retain_year_history && old(self).years@.len() > 0 ==> {
                &&& final(self).years@ == old(self).years@.drop_last().push(year)
                &&& final(self).cumulative_before_retained == add_year_spec(old(self).cumulative_before_retained, old(self).years@.last())
                &&& final(self).years_before_retained == old(self).years_before_retained.saturating_add(1)
            },
    {
        self.push(year);
    }

    pub fn latest(&self) -> (latest: Option<&YearStatistics>)
        ensures
            self.years@.len() == 0 ==> latest is None,
            self.years@.len() > 0 ==> latest == Some(&self.years@.last()),
    {
        if self.years.len() == 0 {
            None
        } else {
            Some(&self.years[self.years.len() - 1])
        }
    }

    pub fn total_years(&self) -> (total: u64)
        ensures
            total == self.total_years_spec(),
    {
        self.years_before_retained.saturating_add(self.years.len() as u64)
    }

    /// The number of years simulated, capped at `usize::MAX`.
    pub fn len(&self) -> (count: usize)
        ensures
            count == (if self.total_years_spec() > usize::MAX {
                usize::MAX as int
            } else {
                self.total_years_spec() as int
            }),
    {
        let total = self.total_years();
        if total > usize::MAX as u64 {
            usize::MAX
        } else {
            total as usize
        }
    }

    pub fn is_empty(&self) -> (empty: bool)
        ensures
            empty == (self.total_years_spec() == 0),
    {
        self.total_years() == 0
    }

    /// The kept years, oldest first.
    pub fn iter(&self) -> (years: &[YearStatistics])
        ensures
            years@ == self.years@,
    {
        self.years.as_slice()
    }

    /// The summary over the whole run, dropped years included.
    pub fn cumulative(&self) -> (result: CumulativeStatistics)
        ensures
            result == (CumulativeStatistics { town_populations: result.town_populations, ..self.summary() }),
            result.town_populations@ == (if self.years@.len() == 0 {
                Seq::<usize>::empty()
            } else {
                self.years@.last().town_populations@
            }),
    {
        let carried = &self.cumulative_before_retained;
        let mut result = CumulativeStatistics {
            initial_population: self.initial_population,
            final_population: self.initial_population,
            total_unique_npcs: self.total_unique_npcs,
            births: carried.births,
            deaths: carried.deaths,
            natural_deaths: carried.natural_deaths,
            external_immigration: carried.external_immigration,
            external_emigration: carried.external_emigration,
            internal_migrations: carried.internal_migrations,
            partnerships: carried.partnerships,
            belief_changes: carried.belief_changes,
            goal_changes: carried.goal_changes,
            disaster_deaths: carried.disaster_deaths,
            disease_deaths: carried.disease_deaths,
            war_deaths: carried.war_deaths,
            famine_deaths: carried.famine_deaths,
            town_populations: Vec::new(),
        };
        match self.latest() {
            Some(year) => {
                result.final_population = year.total_population;
                result.town_populations = copy_populations(&year.town_populations);
            },
            None => {},
        }
        let ghost populations = result.town_populations;
        let ghost base = CumulativeStatistics { town_populations: populations, ..*carried };
        let mut i: usize = 0;
        while i < self.years.len()
            invariant
                i <= self.years@.len(),
                result == (CumulativeStatistics {
                    initial_population: self.initial_population,
                    final_population: if self.years@.len() == 0 {
                        self.initial_population
                    } else {
                        self.years@.last().total_population
                    },
                    total_unique_npcs: self.total_unique_npcs,
                    natural_deaths: carried.natural_deaths,
                    ..add_years_spec(base, self.years@.subrange(0, i as int))
                }),
            decreases self.years.len() - i,
        {
            add_to_cumulative(&mut result, &self.years[i]);
            proof {
                assert(self.years@.subrange(0, i + 1).drop_last() =~= self.years@.subrange(0, i as int));
            }
            i = i + 1;
        }
        proof {
            assert(self.years@.subrange(0, self.years@.len() as int) =~= self.years@);
            lemma_add_years_keeps_base(base, *carried, self.years@);
        }
        result.natural_deaths = unclassified_deaths_of(
            result.deaths,
            result.disaster_deaths,
            result.disease_deaths,
            result.war_deaths,
            result.famine_deaths,
        );
        result
    }
}

/// Adding years changes only the yearly counters, and does so the same way whatever the
/// other fields of the starting totals are.
proof fn lemma_add_years_keeps_base(a: CumulativeStatistics, b: CumulativeStatistics, years: Seq<YearStatistics>)
    requires
        a == (CumulativeStatistics { town_populations: a.town_populations, ..b }),
    ensures
        add_years_spec(a, years) == (CumulativeStatistics {
            town_populations: a.town_populations,
            ..add_years_spec(b, years)
        }),
        add_years_spec(b, years).town_populations == b.town_populations,
        add_years_spec(b, years).initial_population == b.initial_population,
        add_years_spec(b, years).natural_deaths == b.natural_deaths,
    decreases years.len(),
{
    if years.len() > 0 {
        lemma_add_years_keeps_base(a, b, years.drop_last());
    }
}

impl Default for Statistics {
    fn default() -> (statistics: Self)
        ensures
            statistics.initial_population == 0,
            statistics.total_unique_npcs == 0,
            statistics.years@.len() == 0,
            statistics.retain_year_history,
            cumulative_is_empty(statistics.cumulative_before_retained),
            statistics.years_before_retained == 0,
    {
        Statistics::new(0)
    }
}

/// `after` is `before` plus one, or `before` at the counter's limit.
pub open spec fn one_more(before: usize, after: usize) -> bool {
    if before < usize::MAX {
        after == before + 1
    } else {
        after == before
    }
}

/// Counting an event adds one, up to its limit, to the counter of its kind and changes no
/// other figure: births, deaths (of no stated cause), partnerships, internal migrations,
/// belief changes, goal changes, immigrants from outside and emigrants; events of other
/// kinds change nothing.
pub proof fn law_event_counted(year: YearStatistics, event: WorldEvent)
    ensures
        ({
            let after = after_event(year, event);
            &&& event is Birth ==> one_more(year.births, after.births) && after == (YearStatistics {
                births: after.births,
                ..year
            })
            &&& event is Death ==> one_more(year.deaths, after.deaths) && after == (YearStatistics {
                deaths: after.deaths,
                ..year
            })
            &&& event is Partnership ==> one_more(year.partnerships, after.partnerships) && after == (
            YearStatistics { partnerships: after.partnerships, ..year })
            &&& event is Migration ==> one_more(year.internal_migrations, after.internal_migrations) && after == (
            YearStatistics { internal_migrations: after.internal_migrations, ..year })
            &&& event is BeliefChanged ==> one_more(year.belief_changes, after.belief_changes) && after == (
            YearStatistics { belief_changes: after.belief_changes, ..year })
            &&& event is GoalChanged ==> one_more(year.goal_changes, after.goal_changes) && after == (
            YearStatistics { goal_changes: after.goal_changes, ..year })
            &&& event is ExternalImmigration ==> one_more(year.external_immigration, after.external_immigration)
                && after == (YearStatistics { external_immigration: after.external_immigration, ..year })
            &&& event is ExternalEmigration ==> one_more(year.external_emigration, after.external_emigration)
                && after == (YearStatistics { external_emigration: after.external_emigration, ..year })
            &&& (event is RelationshipChanged || event is NaturalDisaster || event is DiseaseOutbreak
                || event is WarStarted || event is WarEnded || event is FamineStarted || event is FamineEnded)
                ==> after == year
        }),
{
}

/// A death adds one, up to the limit, to the deaths and to the count of its cause (a
/// natural death has none), and changes no other figure.
pub proof fn law_death_counted(year: YearStatistics, cause: DeathCause)
    ensures
        ({
            let after = after_death(year, cause);
            &&& one_more(year.deaths, after.deaths)
            &&& cause is Disaster ==> one_more(year.disaster_deaths, after.disaster_deaths) && after == (
            YearStatistics { deaths: after.deaths, disaster_deaths: after.disaster_deaths, ..year })
            &&& cause is Disease ==> one_more(year.disease_deaths, after.disease_deaths) && after == (
            YearStatistics { deaths: after.deaths, disease_deaths: after.disease_deaths, ..year })
            &&& cause is War ==> one_more(year.war_deaths, after.war_deaths) && after == (YearStatistics {
                deaths: after.deaths,
                war_deaths: after.war_deaths,
                ..year
            })
            &&& cause is Famine ==> one_more(year.famine_deaths, after.famine_deaths) && after == (
            YearStatistics { deaths: after.deaths, famine_deaths: after.famine_deaths, ..year })
            &&& cause is Natural ==> after == (YearStatistics { deaths: after.deaths, ..year })
        }),
{
}

} // verus!
