//! Crises that strike towns: natural disasters and the outbreak of war, the alarm they
//! raise among the residents, and the monthly course of diseases and famines.

use vstd::prelude::*;

use crate::arith::div_ceil_spec;
use crate::belief::BeliefKind;
use crate::disaster::{disaster_capacity_loss, NaturalDisaster, NaturalDisasterEvent};
use crate::event::{TimedWorldEvent, WorldEvent};
use crate::disaster::{month_after, FamineEvent};
use crate::disease::{canonical_town_ids, DiseaseEvent};
use crate::goal::GoalKind;
use crate::id::{NpcId, TownId};
use crate::npc::{Npc, NpcState};
use crate::random::{random_u8_between, random_usize_below};
use crate::society::{
    all_beliefs_valid, belief_would_change, beliefs_after_change, change_belief, change_goal, counted_all,
    counts_agree_but_changes, goal_after_major, lemma_logged_first, lemma_one_more_counted, lemma_one_more_logged,
    log_all, logged_all, noted_all, only_npcs_and_events, stamped,
};
use crate::sorted_ids::town_ids_sorted;
use crate::statistics::YearStatistics;
use crate::town::{min_u8, Town, TownDamage};
use crate::war::WarEvent;
use crate::world::{npc_at, resident_in, town_at, World};

verus! {

/// Index `j` is the index of one of the listed NPCs.
pub open spec fn listed_index(listed: Seq<NpcId>, j: int) -> bool {
    exists|k: int| 0 <= k < listed.len() && (#[trigger] listed[k]).0 == j
}

/// Only goals and beliefs differ between the two, and only those of listed NPCs.
pub open spec fn only_listed_minds_change(before: Seq<Npc>, after: Seq<Npc>, listed: Seq<NpcId>) -> bool {
    &&& after.len() == before.len()
    &&& forall|j: int|
        0 <= j < before.len() ==> #[trigger] after[j] == (Npc {
            goal: after[j].goal,
            beliefs: after[j].beliefs,
            ..before[j]
        })
    &&& forall|j: int| 0 <= j < before.len() && !listed_index(listed, j) ==> #[trigger] after[j] == before[j]
}

/// Each listed NPC found in the world has the goal and the beliefs that the alarm gives it.
pub open spec fn alarm_reached(
    before: World,
    after: World,
    listed: Seq<NpcId>,
    goal: GoalKind,
    belief: BeliefKind,
    change: i8,
    max_beliefs: usize,
) -> bool {
    forall|k: int|
        0 <= k < listed.len() && npc_at(before.npcs@, #[trigger] listed[k]) ==> {
            let j = listed[k].0 as int;
            &&& after.npcs@[j].goal == goal_after_major(before.npcs@[j].goal, goal, before.year)
            &&& after.npcs@[j].beliefs@ == beliefs_after_change(before.npcs@[j].beliefs@, belief, change, max_beliefs)
        }
}

/// The events an alarm logs, NPC by NPC: a goal change unless the goal already is `goal`,
/// then a belief change when the belief moves.
pub open spec fn alarm_events(
    npcs: Seq<Npc>,
    listed: Seq<NpcId>,
    goal: GoalKind,
    belief: BeliefKind,
    change: i8,
    max_beliefs: usize,
) -> Seq<WorldEvent>
    decreases listed.len(),
{
    if listed.len() == 0 {
        Seq::empty()
    } else {
        let earlier = alarm_events(npcs, listed.drop_last(), goal, belief, change, max_beliefs);
        let id = listed.last();
        if npc_at(npcs, id) {
            let npc = npcs[id.0 as int];
            let with_goal = if npc.goal.kind != goal {
                earlier.push(WorldEvent::GoalChanged { npc: id, old: npc.goal.kind, new: goal })
            } else {
                earlier
            };
            if belief_would_change(npc.beliefs@, belief, change, max_beliefs) {
                with_goal.push(WorldEvent::BeliefChanged { npc: id, belief })
            } else {
                with_goal
            }
        } else {
            earlier
        }
    }
}

/// The event logs gained `first` and then the alarm's events, and the statistics counted
/// the alarm's events.
pub open spec fn logs_after_alarm(
    before: World,
    after: World,
    first: WorldEvent,
    alarmed: Seq<WorldEvent>,
    before_statistics: YearStatistics,
    after_statistics: YearStatistics,
) -> bool {
    let events = seq![first] + alarmed;
    &&& after.important_events@ == logged_all(before.important_events@, events)
    &&& after.year_events@ == (if before.capture_year_events {
        before.year_events@ + stamped(before.year, before.month, events)
    } else {
        before.year_events@
    })
    &&& after_statistics == counted_all(before_statistics, alarmed)
}

/// What logging `first` and then an alarm does to the logs and the statistics.
proof fn lemma_logs_after_alarm(
    start: World,
    logged: World,
    end: World,
    first: WorldEvent,
    alarmed: Seq<WorldEvent>,
    start_statistics: YearStatistics,
    end_statistics: YearStatistics,
)
    requires
        logged.important_events@ == crate::world::logged(start.important_events@, first),
        logged.year_events@ == (if start.capture_year_events {
            start.year_events@.push(TimedWorldEvent { year: start.year, month: start.month, event: first })
        } else {
            start.year_events@
        }),
        logged.capture_year_events == start.capture_year_events,
        logged.year == start.year,
        logged.month == start.month,
        noted_all((World { npcs: end.npcs, ..logged }), end, alarmed),
        end_statistics == counted_all(start_statistics, alarmed),
    ensures
        logs_after_alarm(start, end, first, alarmed, start_statistics, end_statistics),
{
    lemma_logged_first(start.important_events@, first, alarmed);
    if start.capture_year_events {
        let stamp = TimedWorldEvent { year: start.year, month: start.month, event: first };
        assert(start.year_events@.push(stamp) + stamped(start.year, start.month, alarmed) =~= start.year_events@ + (seq![
            stamp,
        ] + stamped(start.year, start.month, alarmed)));
    }
}

/// Keeping some of the entries of a list without repeats leaves none repeated.
pub proof fn lemma_filter_distinct(ids: Seq<NpcId>, pick: spec_fn(NpcId) -> bool)
    requires
        ids.no_duplicates(),
    ensures
        ids.filter(pick).no_duplicates(),
    decreases ids.len(),
{
    if ids.len() > 0 {
        let rest = ids.drop_last();
        let last = ids.last();
        assert(rest.no_duplicates());
        lemma_filter_distinct(rest, pick);
        assert(ids =~= rest.push(last));
        rest.lemma_filter_push(last, pick);
        if pick(last) && rest.filter(pick).contains(last) {
            rest.lemma_filter_contains_rev(pick, last);
            let i = choose|i: int| 0 <= i < rest.len() && rest[i] == last;
            assert(ids[i] == ids[ids.len() - 1]);
        }
    }
}

/// Each listed NPC turns to `goal` as after a major event, and its `belief` moves by
/// `change`; both changes are counted and logged as `change_goal` and `change_belief` do.
pub fn alarm(
    world: &mut World,
    residents: &Vec<NpcId>,
    goal: GoalKind,
    belief: BeliefKind,
    change: i8,
    cooldown_years: u16,
    max_beliefs: usize,
    statistics: &mut YearStatistics,
)
    requires
        all_beliefs_valid(old(world).npcs@),
    ensures
        all_beliefs_valid(final(world).npcs@),
        only_listed_minds_change(old(world).npcs@, final(world).npcs@, residents@),
        residents@.no_duplicates() ==> alarm_reached(
            *old(world),
            *final(world),
            residents@,
            goal,
            belief,
            change,
            max_beliefs,
        ),
        residents@.no_duplicates() ==> {
            let events = alarm_events(old(world).npcs@, residents@, goal, belief, change, max_beliefs);
            &&& noted_all((World { npcs: final(world).npcs, ..*old(world) }), *final(world), events)
            &&& *final(statistics) == counted_all(*old(statistics), events)
        },
        only_npcs_and_events(*old(world), *final(world)),
        counts_agree_but_changes(*old(statistics), *final(statistics)),
{
    let ghost start = *world;
    let ghost start_statistics = *statistics;
    let mut k: usize = 0;
    while k < residents.len()
        invariant
            k <= residents@.len(),
            all_beliefs_valid(world.npcs@),
            only_listed_minds_change(start.npcs@, world.npcs@, residents@.take(k as int)),
            residents@.no_duplicates() ==> alarm_reached(
                start,
                *world,
                residents@.take(k as int),
                goal,
                belief,
                change,
                max_beliefs,
            ),
            residents@.no_duplicates() ==> {
                let events = alarm_events(start.npcs@, residents@.take(k as int), goal, belief, change, max_beliefs);
                &&& noted_all((World { npcs: world.npcs, ..start }), *world, events)
                &&& *statistics == counted_all(start_statistics, events)
            },
            only_npcs_and_events(start, *world),
            counts_agree_but_changes(start_statistics, *statistics),
        decreases residents.len() - k,
    {
        let id = residents[k];
        let ghost before = *world;
        change_goal(world, id, goal, true, cooldown_years, statistics);
        let ghost middle = *world;
        let ghost middle_statistics = *statistics;
        change_belief(world, id, belief, change, max_beliefs, statistics);
        proof {
            let listed = residents@.take(k as int + 1);
            assert(listed[k as int] == id);
            if residents@.no_duplicates() {
                assert(!listed_index(residents@.take(k as int), id.0 as int)) by {
                    if listed_index(residents@.take(k as int), id.0 as int) {
                        let m = choose|m: int| 0 <= m < k && (#[trigger] residents@.take(k as int)[m]).0 == id.0;
                        assert(residents@[m] == residents@[k as int]);
                    }
                }
                assert(listed.drop_last() =~= residents@.take(k as int));
                let earlier = alarm_events(start.npcs@, residents@.take(k as int), goal, belief, change, max_beliefs);
                let found = npc_at(start.npcs@, id);
                assert(found == npc_at(before.npcs@, id)) by {
                    if 0 <= id.0 < start.npcs@.len() {
                        assert(before.npcs@[id.0 as int].id == start.npcs@[id.0 as int].id);
                    }
                }
                if found {
                    assert(before.npcs@[id.0 as int] == start.npcs@[id.0 as int]);
                    assert(middle.npcs@[id.0 as int].beliefs == before.npcs@[id.0 as int].beliefs);
                    assert(npc_at(middle.npcs@, id));
                }
                let npc = start.npcs@[id.0 as int];
                let goal_event = WorldEvent::GoalChanged { npc: id, old: npc.goal.kind, new: goal };
                let belief_event = WorldEvent::BeliefChanged { npc: id, belief };
                let with_goal = if found && npc.goal.kind != goal {
                    earlier.push(goal_event)
                } else {
                    earlier
                };
                lemma_one_more_logged(start.important_events@, earlier, goal_event);
                lemma_one_more_counted(start_statistics, earlier, goal_event);
                lemma_one_more_logged(start.important_events@, with_goal, belief_event);
                lemma_one_more_counted(start_statistics, with_goal, belief_event);
                assert(noted_all((World { npcs: middle.npcs, ..start }), middle, with_goal));
                assert(middle_statistics == counted_all(start_statistics, with_goal));
                assert(alarm_events(start.npcs@, listed, goal, belief, change, max_beliefs) == (if found
                    && belief_would_change(npc.beliefs@, belief, change, max_beliefs) {
                    with_goal.push(belief_event)
                } else {
                    with_goal
                }));
            }
            assert forall|j: int| 0 <= j < start.npcs@.len() && !listed_index(listed, j) implies #[trigger] world.npcs@[j]
                == start.npcs@[j] by {
                assert(j != id.0);
                if listed_index(residents@.take(k as int), j) {
                    let m = choose|m: int| 0 <= m < k && (#[trigger] residents@.take(k as int)[m]).0 == j;
                    assert(listed[m] == residents@.take(k as int)[m]);
                }
                assert(middle.npcs@[j] == before.npcs@[j]);
            }
            if residents@.no_duplicates() {
                assert forall|m: int|
                    0 <= m < listed.len() && npc_at(start.npcs@, #[trigger] listed[m]) implies ({
                    let j = listed[m].0 as int;
                    &&& world.npcs@[j].goal == goal_after_major(start.npcs@[j].goal, goal, start.year)
                    &&& world.npcs@[j].beliefs@ == beliefs_after_change(
                        start.npcs@[j].beliefs@,
                        belief,
                        change,
                        max_beliefs,
                    )
                }) by {
                    let j = listed[m].0 as int;
                    if m < k {
                        assert(listed[m] == residents@.take(k as int)[m]);
                        assert(residents@[m] != residents@[k as int]);
                        assert(j != id.0);
                        assert(world.npcs@[j] == middle.npcs@[j]);
                        assert(middle.npcs@[j] == before.npcs@[j]);
                    } else {
                        assert(listed[m] == id);
                        assert(before.npcs@[j].id == start.npcs@[j].id);
                        assert(npc_at(before.npcs@, id));
                        assert(middle.npcs@[j].beliefs == before.npcs@[j].beliefs);
                        assert(npc_at(middle.npcs@, id));
                    }
                }
            }
            assert forall|j: int| 0 <= j < start.npcs@.len() implies #[trigger] world.npcs@[j] == (Npc {
                goal: world.npcs@[j].goal,
                beliefs: world.npcs@[j].beliefs,
                ..start.npcs@[j]
            }) by {
                assert(before.npcs@[j] == (Npc {
                    goal: before.npcs@[j].goal,
                    beliefs: before.npcs@[j].beliefs,
                    ..start.npcs@[j]
                }));
                if j == id.0 {
                    assert(middle.npcs@[j] == (Npc {
                        goal: middle.npcs@[j].goal,
                        beliefs: middle.npcs@[j].beliefs,
                        ..before.npcs@[j]
                    }));
                } else {
                    assert(middle.npcs@[j] == before.npcs@[j]);
                }
            }
        }
        k = k + 1;
    }
    proof {
        assert(residents@.take(residents@.len() as int) =~= residents@);
    }
}

/// What a disaster of the given severity (within `1..=10`) does to a town of the given
/// capacity: jobs lose `ceil(severity / 3)` (at most 4), safety `ceil(severity / 2)` (at
/// most 5), capacity 3% per severity point, for `6 + 2 * severity` months.
pub open spec fn disaster_damage(population_capacity: u32, severity: u8) -> TownDamage {
    TownDamage {
        jobs_loss: min_u8(div_ceil_spec(severity as int, 3) as u8, 4),
        safety_loss: min_u8(div_ceil_spec(severity as int, 2) as u8, 5),
        capacity_loss: disaster_capacity_loss(population_capacity, severity),
        remaining_months: (6 + 2 * severity) as u16,
    }
}

/// The disaster struck the town at index `i` with the severity recorded there: that town
/// alone is damaged, its residents alone alarmed, and nothing else but the event logs
/// and the random stream differs.
pub open spec fn struck(before: World, after: World, severities: Seq<u8>, i: int) -> bool {
    let severity = severities[i];
    let town = before.towns@[i];
    &&& 1 <= severity <= 10
    &&& forall|j: int| 0 <= j < severities.len() && j != i ==> #[trigger] severities[j] == 0
    &&& after.towns@ == before.towns@.update(i, town.damaged(disaster_damage(town.population_capacity, severity)))
    &&& only_listed_minds_change(before.npcs@, after.npcs@, before.active_npcs@.filter(resident_in(before.npcs@, i)))
    &&& after == (World {
        npcs: after.npcs,
        towns: after.towns,
        important_events: after.important_events,
        year_events: after.year_events,
        rng: after.rng,
        ..before
    })
}

/// A natural disaster of a random kind and severity strikes a random town. It damages the
/// town, is logged, and its residents turn to survival (a major event) and to protecting
/// their hometown. Returns the severity for each town: zero but for the one struck.
pub fn strike_disaster(
    world: &mut World,
    cooldown_years: u16,
    max_beliefs: usize,
    statistics: &mut YearStatistics,
) -> (severities: Vec<u8>)
    requires
        old(world).towns@.len() > 0,
        all_beliefs_valid(old(world).npcs@),
    ensures
        severities@.len() == old(world).towns@.len(),
        exists|i: int| 0 <= i < severities@.len() && #[trigger] struck(*old(world), *final(world), severities@, i),
        old(world).active_npcs@.no_duplicates() ==> forall|i: int|
            0 <= i < severities@.len() && #[trigger] severities@[i] != 0 ==> {
                let residents = old(world).active_npcs@.filter(resident_in(old(world).npcs@, i));
                &&& alarm_reached(
                    *old(world),
                    *final(world),
                    residents,
                    GoalKind::Survive,
                    BeliefKind::ProtectHometown,
                    1,
                    max_beliefs,
                )
                &&& logs_after_alarm(
                    *old(world),
                    *final(world),
                    WorldEvent::NaturalDisaster { town: old(world).towns@[i].id },
                    alarm_events(old(world).npcs@, residents, GoalKind::Survive, BeliefKind::ProtectHometown, 1, max_beliefs),
                    *old(statistics),
                    *final(statistics),
                )
            },
        all_beliefs_valid(final(world).npcs@),
        counts_agree_but_changes(*old(statistics), *final(statistics)),
{
    let ghost start = *world;
    let count = world.towns.len();
    let mut severities: Vec<u8> = Vec::new();
    while severities.len() < count
        invariant
            severities@.len() <= count,
            forall|j: int| 0 <= j < severities@.len() ==> #[trigger] severities@[j] == 0,
        decreases count - severities@.len(),
    {
        severities.push(0);
    }
    let town_index = random_usize_below(&mut world.rng, 0, count);
    let severity = random_u8_between(&mut world.rng, 1, 10);
    let kind = NaturalDisaster::ALL[random_usize_below(&mut world.rng, 0, 4)];
    let town_id = world.towns[town_index].id;
    let event = NaturalDisasterEvent::new(kind, town_id, severity);
    let damage = event.town_damage(world.towns[town_index].population_capacity);
    world.towns[town_index].apply_damage(damage);
    severities.set(town_index, severity);
    world.push_event(WorldEvent::NaturalDisaster { town: town_id });
    let ghost drawn = *world;
    let residents = world.residents_by_town();
    let affected = residents[town_index].clone();
    proof {
        assert(drawn.npcs@ == start.npcs@);
        assert(drawn.active_npcs@ == start.active_npcs@);
        assert(affected@ == start.active_npcs@.filter(resident_in(start.npcs@, town_index as int)));
    }
    proof {
        if start.active_npcs@.no_duplicates() {
            lemma_filter_distinct(start.active_npcs@, resident_in(start.npcs@, town_index as int));
        }
    }
    let ghost drawn_statistics = *statistics;
    alarm(world, &affected, GoalKind::Survive, BeliefKind::ProtectHometown, 1, cooldown_years, max_beliefs, statistics);
    proof {
        assert(struck(start, *world, severities@, town_index as int));
        if start.active_npcs@.no_duplicates() {
            lemma_logs_after_alarm(
                start,
                drawn,
                *world,
                WorldEvent::NaturalDisaster { town: town_id },
                alarm_events(drawn.npcs@, affected@, GoalKind::Survive, BeliefKind::ProtectHometown, 1, max_beliefs),
                drawn_statistics,
                *statistics,
            );
        }
    }
    severities
}

/// The towns after each listed id's town, found at its index, takes the damage.
pub open spec fn towns_damaged(towns: Seq<Town>, ids: Seq<TownId>, damage: TownDamage) -> Seq<Town>
    decreases ids.len(),
{
    if ids.len() == 0 {
        towns
    } else {
        let earlier = towns_damaged(towns, ids.drop_last(), damage);
        let id = ids.last();
        if town_at(earlier, id) {
            earlier.update(id.0 as int, earlier[id.0 as int].damaged(damage))
        } else {
            earlier
        }
    }
}

/// The NPC with this id is in the world and lives in one of the towns.
pub open spec fn lives_in_any(npcs: Seq<Npc>, towns: Seq<TownId>) -> spec_fn(NpcId) -> bool {
    |id: NpcId| npc_at(npcs, id) && towns.contains(npcs[id.0 as int].town)
}

/// The listed NPCs are evacuating and may have new goals and beliefs; no other NPC differs.
pub open spec fn evacuated(before: Seq<Npc>, after: Seq<Npc>, listed: Seq<NpcId>) -> bool {
    &&& after.len() == before.len()
    &&& forall|j: int|
        0 <= j < before.len() && listed_index(listed, j) ==> #[trigger] after[j] == (Npc {
            goal: after[j].goal,
            beliefs: after[j].beliefs,
            state: NpcState::Evacuating,
            ..before[j]
        })
    &&& forall|j: int| 0 <= j < before.len() && !listed_index(listed, j) ==> #[trigger] after[j] == before[j]
}

/// The war's towns are the two given ones, ascending and each once.
pub open spec fn war_between(war: WarEvent, first: TownId, second: TownId) -> bool {
    canonical_town_ids(seq![first, second], war.towns@)
}

/// The war that broke out: between the town at index `first` and either a town it is
/// connected to or, when it has none, the next town in the list; of severity `2..=10`,
/// lasting one to three years.
pub open spec fn war_drawn(towns: Seq<Town>, first: int, war: WarEvent) -> bool {
    let town = towns[first];
    &&& 2 <= war.severity <= 10
    &&& 1 <= war.remaining_years <= 3
    &&& exists|second: TownId|
        {
            &&& (if town.neighbors@.len() == 0 {
                second == towns[(first + 1) % (towns.len() as int)].id
            } else {
                exists|e: int| 0 <= e < town.neighbors@.len() && #[trigger] town.neighbors@[e].destination == second
            })
            &&& #[trigger] war_between(war, town.id, second)
        }
}

/// A war broke out between towns drawn from the town at index `first`: it joined the
/// active wars, damaged its towns, and every active NPC of those towns is evacuating,
/// possibly with a new goal and belief; nothing else but the event logs and the random
/// stream differs.
pub open spec fn broke_out(before: World, after: World, first: int) -> bool {
    let war = after.active_wars@.last();
    &&& after.active_wars@ == before.active_wars@.push(war)
    &&& war_drawn(before.towns@, first, war)
    &&& after.towns@ == towns_damaged(before.towns@, war.towns@, war.town_damage_spec())
    &&& evacuated(
        before.npcs@,
        after.npcs@,
        before.active_npcs@.filter(lives_in_any(before.npcs@, war.towns@)),
    )
    &&& after == (World {
        npcs: after.npcs,
        towns: after.towns,
        active_wars: after.active_wars,
        important_events: after.important_events,
        year_events: after.year_events,
        rng: after.rng,
        ..before
    })
}

/// A war breaks out from a random town against one of its neighbours (or the next town
/// when it has none), with random severity and length. Its towns are damaged, it is
/// logged, and every active NPC living there turns to protecting the town (a major event),
/// is strengthened in protecting the hometown, and starts evacuating.
pub fn start_war(world: &mut World, cooldown_years: u16, max_beliefs: usize, statistics: &mut YearStatistics)
    requires
        old(world).towns@.len() >= 2,
        all_beliefs_valid(old(world).npcs@),
    ensures
        exists|first: int| 0 <= first < old(world).towns@.len() && #[trigger] broke_out(*old(world), *final(world), first),
        old(world).active_npcs@.no_duplicates() ==> {
            let residents = old(world).active_npcs@.filter(
                lives_in_any(old(world).npcs@, final(world).active_wars@.last().towns@),
            );
            &&& alarm_reached(
                *old(world),
                *final(world),
                residents,
                GoalKind::ProtectTown,
                BeliefKind::ProtectHometown,
                2,
                max_beliefs,
            )
            &&& logs_after_alarm(
                *old(world),
                *final(world),
                WorldEvent::WarStarted,
                alarm_events(old(world).npcs@, residents, GoalKind::ProtectTown, BeliefKind::ProtectHometown, 2, max_beliefs),
                *old(statistics),
                *final(statistics),
            )
        },
        all_beliefs_valid(final(world).npcs@),
        counts_agree_but_changes(*old(statistics), *final(statistics)),
{
    let ghost start = *world;
    let count = world.towns.len();
    let first_index = random_usize_below(&mut world.rng, 0, count);
    let first = world.towns[first_index].id;
    let ghost mut edge_drawn: int = 0;
    let second = if world.towns[first_index].neighbors.len() == 0 {
        world.towns[(first_index + 1) % count].id
    } else {
        let edge = random_usize_below(&mut world.rng, 0, world.towns[first_index].neighbors.len());
        proof {
            edge_drawn = edge as int;
        }
        world.towns[first_index].neighbors[edge].destination
    };
    proof {
        let town = start.towns@[first_index as int];
        if town.neighbors@.len() != 0 {
            assert(town.neighbors@[edge_drawn].destination == second);
        }
    }
    let severity = random_u8_between(&mut world.rng, 2, 10);
    let years = random_u8_between(&mut world.rng, 1, 3);
    let pair = vec![first, second];
    let war = WarEvent::new(pair, severity, years);
    proof {
        assert(seq![first, second] =~= pair@);
        assert(war_between(war, first, second));
        assert(war_drawn(start.towns@, first_index as int, war));
    }
    let damage = war.town_damage();
    let ghost drawn = *world;
    let mut i: usize = 0;
    while i < war.towns.len()
        invariant
            i <= war.towns@.len(),
            world.towns@ == towns_damaged(drawn.towns@, war.towns@.take(i as int), damage),
            *world == (World { towns: world.towns, ..drawn }),
        decreases war.towns.len() - i,
    {
        let town_id = war.towns[i];
        proof {
            assert(war.towns@.take(i as int + 1).drop_last() =~= war.towns@.take(i as int));
        }
        match world.town_mut(town_id) {
            Some(town) => town.apply_damage(damage),
            None => {},
        }
        i = i + 1;
    }
    proof {
        assert(war.towns@.take(war.towns@.len() as int) =~= war.towns@);
    }
    let mut affected: Vec<NpcId> = Vec::new();
    let mut k: usize = 0;
    while k < world.active_npcs.len()
        invariant
            k <= world.active_npcs@.len(),
            world.npcs == start.npcs,
            world.active_npcs == start.active_npcs,
            affected@ == start.active_npcs@.take(k as int).filter(lives_in_any(start.npcs@, war.towns@)),
            town_ids_sorted(war.towns@),
        decreases world.active_npcs.len() - k,
    {
        let id = world.active_npcs[k];
        proof {
            assert(start.active_npcs@.take(k as int + 1) =~= start.active_npcs@.take(k as int).push(id));
            start.active_npcs@.take(k as int).lemma_filter_push(id, lives_in_any(start.npcs@, war.towns@));
        }
        let inside = match world.npc(id) {
            Some(npc) => war.includes(npc.town),
            None => false,
        };
        if inside {
            affected.push(id);
        }
        k = k + 1;
    }
    proof {
        assert(start.active_npcs@.take(start.active_npcs@.len() as int) =~= start.active_npcs@);
    }
    world.active_wars.push(war);
    world.push_event(WorldEvent::WarStarted);
    let ghost alarmed_from = *world;
    let ghost alarmed_from_statistics = *statistics;
    proof {
        if start.active_npcs@.no_duplicates() {
            lemma_filter_distinct(start.active_npcs@, lives_in_any(start.npcs@, war.towns@));
        }
    }
    alarm(world, &affected, GoalKind::ProtectTown, BeliefKind::ProtectHometown, 2, cooldown_years, max_beliefs, statistics);
    let ghost alarmed = *world;
    proof {
        if start.active_npcs@.no_duplicates() {
            lemma_logs_after_alarm(
                start,
                alarmed_from,
                alarmed,
                WorldEvent::WarStarted,
                alarm_events(alarmed_from.npcs@, affected@, GoalKind::ProtectTown, BeliefKind::ProtectHometown, 2, max_beliefs),
                alarmed_from_statistics,
                *statistics,
            );
        }
    }
    proof {
        broadcast use vstd::seq_lib::group_filter_ensures;

        assert forall|n: int| 0 <= n < affected@.len() implies npc_at(alarmed.npcs@, #[trigger] affected@[n]) by {
            assert(lives_in_any(start.npcs@, war.towns@)(affected@[n]));
            let j = affected@[n].0 as int;
            assert(alarmed.npcs@[j] == (Npc {
                goal: alarmed.npcs@[j].goal,
                beliefs: alarmed.npcs@[j].beliefs,
                ..alarmed_from.npcs@[j]
            }));
        }
    }
    let mut m: usize = 0;
    while m < affected.len()
        invariant
            m <= affected@.len(),
            all_beliefs_valid(world.npcs@),
            *world == (World { npcs: world.npcs, ..alarmed }),
            world.npcs@.len() == alarmed.npcs@.len(),
            forall|n: int| 0 <= n < affected@.len() ==> npc_at(alarmed.npcs@, #[trigger] affected@[n]),
            forall|j: int|
                0 <= j < alarmed.npcs@.len() && listed_index(affected@.take(m as int), j) ==> #[trigger] world.npcs@[j]
                    == (Npc { state: NpcState::Evacuating, ..alarmed.npcs@[j] }),
            forall|j: int|
                0 <= j < alarmed.npcs@.len() && !listed_index(affected@.take(m as int), j) ==> #[trigger] world.npcs@[j]
                    == alarmed.npcs@[j],
        decreases affected.len() - m,
    {
        let id = affected[m];
        let ghost before = *world;
        match world.npc_mut(id) {
            Some(npc) => {
                npc.state = NpcState::Evacuating;
            },
            None => {},
        }
        proof {
            let listed = affected@.take(m as int + 1);
            assert(listed[m as int] == id);
            assert forall|j: int| 0 <= j < alarmed.npcs@.len() && listed_index(listed, j) implies #[trigger] world.npcs@[j]
                == (Npc { state: NpcState::Evacuating, ..alarmed.npcs@[j] }) by {
                assert(npc_at(alarmed.npcs@, affected@[m as int]));
                assert(before.npcs@[id.0 as int].id == alarmed.npcs@[id.0 as int].id);
                if j != id.0 {
                    let n = choose|n: int| 0 <= n < listed.len() && (#[trigger] listed[n]).0 == j;
                    assert(affected@.take(m as int)[n] == listed[n]);
                } else if listed_index(affected@.take(m as int), j) {
                    assert(before.npcs@[j] == (Npc { state: NpcState::Evacuating, ..alarmed.npcs@[j] }));
                } else {
                    assert(before.npcs@[j] == alarmed.npcs@[j]);
                }
            }
            assert forall|j: int| 0 <= j < alarmed.npcs@.len() && !listed_index(listed, j) implies #[trigger] world.npcs@[j]
                == alarmed.npcs@[j] by {
                assert(j != id.0);
                if listed_index(affected@.take(m as int), j) {
                    let n = choose|n: int| 0 <= n < m && (#[trigger] affected@.take(m as int)[n]).0 == j;
                    assert(listed[n] == affected@.take(m as int)[n]);
                }
            }
            assert forall|n: int, i: int|
                0 <= n < world.npcs@.len() && 0 <= i < world.npcs@[n].beliefs@.len() implies (
                #[trigger] world.npcs@[n].beliefs@[i]).valid() by {
                assert(world.npcs@[n].beliefs == before.npcs@[n].beliefs);
            }
        }
        m = m + 1;
    }
    proof {
        assert(affected@.take(affected@.len() as int) =~= affected@);
        assert(broke_out(start, *world, first_index as int));
        if start.active_npcs@.no_duplicates() {
            assert forall|k: int| 0 <= k < affected@.len() && npc_at(start.npcs@, #[trigger] affected@[k]) implies ({
                let j = affected@[k].0 as int;
                &&& world.npcs@[j].goal == goal_after_major(start.npcs@[j].goal, GoalKind::ProtectTown, start.year)
                &&& world.npcs@[j].beliefs@ == beliefs_after_change(
                    start.npcs@[j].beliefs@,
                    BeliefKind::ProtectHometown,
                    2,
                    max_beliefs,
                )
            }) by {
                let j = affected@[k].0 as int;
                assert(npc_at(alarmed_from.npcs@, affected@[k]));
                assert(listed_index(affected@, j));
            }
        }
    }
}

/// The diseases a month later: each loses a month, and those with none left end.
pub open spec fn diseases_after_month(diseases: Seq<DiseaseEvent>) -> Seq<DiseaseEvent>
    decreases diseases.len(),
{
    if diseases.len() == 0 {
        Seq::empty()
    } else {
        let rest = diseases_after_month(diseases.drop_last());
        let disease = diseases.last();
        if disease.remaining_months > 1 {
            rest.push(DiseaseEvent { remaining_months: (disease.remaining_months - 1) as u8, ..disease })
        } else {
            rest
        }
    }
}

/// The famines a month later: each loses a month, and those with none left end.
pub open spec fn famines_after_month(famines: Seq<FamineEvent>) -> Seq<FamineEvent>
    decreases famines.len(),
{
    if famines.len() == 0 {
        Seq::empty()
    } else {
        let rest = famines_after_month(famines.drop_last());
        let famine = famines.last();
        if famine.remaining_months > 1 {
            rest.push(FamineEvent { remaining_months: month_after(famine.remaining_months), ..famine })
        } else {
            rest
        }
    }
}

/// The towns whose famine ends this month, in the order of the famines.
pub open spec fn famines_ending(famines: Seq<FamineEvent>) -> Seq<TownId>
    decreases famines.len(),
{
    if famines.len() == 0 {
        Seq::empty()
    } else {
        let rest = famines_ending(famines.drop_last());
        if famines.last().remaining_months > 1 {
            rest
        } else {
            rest.push(famines.last().town)
        }
    }
}

/// The end of the famine in each of the towns, in turn.
pub open spec fn famine_end_events(towns: Seq<TownId>) -> Seq<WorldEvent> {
    towns.map_values(|town: TownId| WorldEvent::FamineEnded { town })
}

/// Diseases and famines advance by a month; those with no month left end, and the end of
/// each famine is logged. Returns the towns whose famine ended.
pub fn end_outbreak_month(world: &mut World) -> (ended: Vec<TownId>)
    ensures
        final(world).active_diseases@ == diseases_after_month(old(world).active_diseases@),
        final(world).active_famines@ == famines_after_month(old(world).active_famines@),
        ended@ == famines_ending(old(world).active_famines@),
        noted_all(
            (World {
                active_diseases: final(world).active_diseases,
                active_famines: final(world).active_famines,
                ..*old(world)
            }),
            *final(world),
            famine_end_events(ended@),
        ),
{
    let ghost start = *world;
    let mut diseases: Vec<DiseaseEvent> = Vec::new();
    std::mem::swap(&mut diseases, &mut world.active_diseases);
    let ghost all_diseases = diseases@;
    assert(all_diseases.len() == diseases.len());
    let mut kept_diseases: Vec<DiseaseEvent> = Vec::new();
    let mut i: usize = 0;
    while diseases.len() > 0
        invariant
            all_diseases.len() <= usize::MAX,
            i <= all_diseases.len(),
            diseases@ == all_diseases.skip(i as int),
            kept_diseases@ == diseases_after_month(all_diseases.take(i as int)),
        decreases diseases.len(),
    {
        assert(all_diseases.take(i as int + 1).drop_last() == all_diseases.take(i as int));
        assert(all_diseases.take(i as int + 1).last() == all_diseases[i as int]);
        let mut disease = diseases.remove(0);
        let ghost before = disease;
        if disease.progress_month() {
            assert(disease == (DiseaseEvent { remaining_months: (before.remaining_months - 1) as u8, ..before }));
            kept_diseases.push(disease);
        }
        assert(diseases@ =~= all_diseases.skip(i as int + 1));
        i = i + 1;
    }
    assert(all_diseases.take(i as int) =~= all_diseases);
    world.active_diseases = kept_diseases;
    let mut famines: Vec<FamineEvent> = Vec::new();
    std::mem::swap(&mut famines, &mut world.active_famines);
    let ghost all_famines = famines@;
    assert(all_famines.len() == famines.len());
    let mut kept_famines: Vec<FamineEvent> = Vec::new();
    let mut ended: Vec<TownId> = Vec::new();
    let mut f: usize = 0;
    while famines.len() > 0
        invariant
            all_famines.len() <= usize::MAX,
            f <= all_famines.len(),
            famines@ == all_famines.skip(f as int),
            kept_famines@ == famines_after_month(all_famines.take(f as int)),
            ended@ == famines_ending(all_famines.take(f as int)),
        decreases famines.len(),
    {
        assert(all_famines.take(f as int + 1).drop_last() == all_famines.take(f as int));
        assert(all_famines.take(f as int + 1).last() == all_famines[f as int]);
        let mut famine = famines.remove(0);
        let town = famine.town;
        if famine.progress_month() {
            kept_famines.push(famine);
        } else {
            ended.push(town);
        }
        assert(famines@ =~= all_famines.skip(f as int + 1));
        f = f + 1;
    }
    assert(all_famines.take(f as int) =~= all_famines);
    world.active_famines = kept_famines;
    let mut events: Vec<WorldEvent> = Vec::new();
    let mut e: usize = 0;
    while e < ended.len()
        invariant
            e <= ended@.len(),
            events@ == famine_end_events(ended@.take(e as int)),
        decreases ended.len() - e,
    {
        proof {
            assert(famine_end_events(ended@.take(e as int + 1)) =~= famine_end_events(ended@.take(e as int)).push(
                WorldEvent::FamineEnded { town: ended@[e as int] },
            ));
        }
        events.push(WorldEvent::FamineEnded { town: ended[e] });
        e = e + 1;
    }
    proof {
        assert(ended@.take(ended@.len() as int) =~= ended@);
    }
    log_all(world, &events);
    ended
}

/// The disease at `index` reaches the town: the town is infected, takes the damage that
/// the disease does, and its active residents turn to survival (a major event) and to
/// helping others; nothing else but the event logs differs.
pub fn infect_town(
    world: &mut World,
    index: usize,
    town: TownId,
    cooldown_years: u16,
    max_beliefs: usize,
    statistics: &mut YearStatistics,
)
    requires
        index < old(world).active_diseases@.len(),
        old(world).active_diseases@[index as int].well_formed(),
        town_at(old(world).towns@, town),
        all_beliefs_valid(old(world).npcs@),
    ensures
        ({
            let before = old(world).active_diseases@[index as int];
            let after = final(world).active_diseases@[index as int];
            &&& final(world).active_diseases@ == old(world).active_diseases@.update(index as int, after)
            &&& after.well_formed()
            &&& after.severity == before.severity
            &&& after.remaining_months == before.remaining_months
            &&& forall|x: TownId| #[trigger] after.infected_towns@.contains(x) <==> (before.infected_towns@.contains(x) || x
                == town)
            &&& final(world).towns@ == old(world).towns@.update(
                town.0 as int,
                old(world).towns@[town.0 as int].damaged(before.town_damage_spec()),
            )
        }),
        all_beliefs_valid(final(world).npcs@),
        only_listed_minds_change(
            old(world).npcs@,
            final(world).npcs@,
            old(world).active_npcs@.filter(resident_in(old(world).npcs@, town.0 as int)),
        ),
        old(world).active_npcs@.no_duplicates() ==> {
            let residents = old(world).active_npcs@.filter(resident_in(old(world).npcs@, town.0 as int));
            let events = alarm_events(old(world).npcs@, residents, GoalKind::Survive, BeliefKind::HelpOthers, 1, max_beliefs);
            &&& alarm_reached(
                *old(world),
                *final(world),
                residents,
                GoalKind::Survive,
                BeliefKind::HelpOthers,
                1,
                max_beliefs,
            )
            &&& final(world).important_events@ == logged_all(old(world).important_events@, events)
            &&& final(world).year_events@ == (if old(world).capture_year_events {
                old(world).year_events@ + stamped(old(world).year, old(world).month, events)
            } else {
                old(world).year_events@
            })
            &&& *final(statistics) == counted_all(*old(statistics), events)
        },
        *final(world) == (World {
            npcs: final(world).npcs,
            towns: final(world).towns,
            active_diseases: final(world).active_diseases,
            important_events: final(world).important_events,
            year_events: final(world).year_events,
            ..*old(world)
        }),
        counts_agree_but_changes(*old(statistics), *final(statistics)),
{
    let ghost start = *world;
    let damage = world.active_diseases[index].town_damage();
    let mut disease = world.active_diseases.remove(index);
    disease.infect(town);
    world.active_diseases.insert(index, disease);
    proof {
        assert(world.active_diseases@ =~= start.active_diseases@.update(index as int, world.active_diseases@[index as int]));
    }
    match world.town_mut(town) {
        Some(infected) => infected.apply_damage(damage),
        None => {},
    }
    let residents = world.residents_by_town();
    let affected = residents[town.0 as usize].clone();
    proof {
        if old(world).active_npcs@.no_duplicates() {
            lemma_filter_distinct(old(world).active_npcs@, resident_in(old(world).npcs@, town.0 as int));
        }
    }
    alarm(world, &affected, GoalKind::Survive, BeliefKind::HelpOthers, 1, cooldown_years, max_beliefs, statistics);
}

/// The town at `index` took the damage, the residents there were alarmed with `goal` and
/// `belief`, and nothing else but the listed changes, the event logs and the random stream
/// differs. Shared by the starts of famines and of diseases.
pub open spec fn town_hit(before: World, after: World, index: int, damage: TownDamage) -> bool {
    &&& after.towns@ == before.towns@.update(index, before.towns@[index].damaged(damage))
    &&& only_listed_minds_change(before.npcs@, after.npcs@, before.active_npcs@.filter(resident_in(before.npcs@, index)))
}

/// A famine starts in the town at `index`: the town takes its damage, the famine joins the
/// active ones and is logged, and the residents turn to survival (a major event) and to
/// protecting their families.
pub fn begin_famine(
    world: &mut World,
    index: usize,
    famine: FamineEvent,
    cooldown_years: u16,
    max_beliefs: usize,
    statistics: &mut YearStatistics,
)
    requires
        index < old(world).towns@.len(),
        all_beliefs_valid(old(world).npcs@),
    ensures
        town_hit(*old(world), *final(world), index as int, famine.town_damage_spec()),
        old(world).active_npcs@.no_duplicates() ==> {
            let residents = old(world).active_npcs@.filter(resident_in(old(world).npcs@, index as int));
            &&& alarm_reached(
                *old(world),
                *final(world),
                residents,
                GoalKind::Survive,
                BeliefKind::ProtectFamily,
                1,
                max_beliefs,
            )
            &&& logs_after_alarm(
                *old(world),
                *final(world),
                WorldEvent::FamineStarted { town: famine.town },
                alarm_events(old(world).npcs@, residents, GoalKind::Survive, BeliefKind::ProtectFamily, 1, max_beliefs),
                *old(statistics),
                *final(statistics),
            )
        },
        final(world).active_famines@ == old(world).active_famines@.push(famine),
        all_beliefs_valid(final(world).npcs@),
        *final(world) == (World {
            npcs: final(world).npcs,
            towns: final(world).towns,
            active_famines: final(world).active_famines,
            important_events: final(world).important_events,
            year_events: final(world).year_events,
            ..*old(world)
        }),
        counts_agree_but_changes(*old(statistics), *final(statistics)),
{
    let town = famine.town;
    let damage = famine.town_damage();
    world.towns[index].apply_damage(damage);
    world.active_famines.push(famine);
    world.push_event(WorldEvent::FamineStarted { town });
    let residents = world.residents_by_town();
    let affected = residents[index].clone();
    let ghost logged = *world;
    proof {
        if old(world).active_npcs@.no_duplicates() {
            lemma_filter_distinct(old(world).active_npcs@, resident_in(old(world).npcs@, index as int));
        }
    }
    alarm(world, &affected, GoalKind::Survive, BeliefKind::ProtectFamily, 1, cooldown_years, max_beliefs, statistics);
    proof {
        if old(world).active_npcs@.no_duplicates() {
            lemma_logs_after_alarm(
                *old(world),
                logged,
                *world,
                WorldEvent::FamineStarted { town },
                alarm_events(logged.npcs@, affected@, GoalKind::Survive, BeliefKind::ProtectFamily, 1, max_beliefs),
                *old(statistics),
                *statistics,
            );
        }
    }
}

/// A disease of random severity (`2..=10`) and length (6 to 24 months) breaks out in the
/// town at `index`: the town takes its damage, the disease joins the active ones and is
/// logged, and the residents turn to survival (a major event) and to helping others.
pub fn break_out_disease(
    world: &mut World,
    index: usize,
    cooldown_years: u16,
    max_beliefs: usize,
    statistics: &mut YearStatistics,
)
    requires
        index < old(world).towns@.len(),
        all_beliefs_valid(old(world).npcs@),
    ensures
        ({
            let disease = final(world).active_diseases@.last();
            &&& final(world).active_diseases@ == old(world).active_diseases@.push(disease)
            &&& disease.infected_towns@ == seq![old(world).towns@[index as int].id]
            &&& 2 <= disease.severity <= 10
            &&& 6 <= disease.remaining_months <= 24
            &&& town_hit(*old(world), *final(world), index as int, disease.town_damage_spec())
        }),
        old(world).active_npcs@.no_duplicates() ==> {
            let residents = old(world).active_npcs@.filter(resident_in(old(world).npcs@, index as int));
            &&& alarm_reached(
                *old(world),
                *final(world),
                residents,
                GoalKind::Survive,
                BeliefKind::HelpOthers,
                1,
                max_beliefs,
            )
            &&& logs_after_alarm(
                *old(world),
                *final(world),
                WorldEvent::DiseaseOutbreak,
                alarm_events(old(world).npcs@, residents, GoalKind::Survive, BeliefKind::HelpOthers, 1, max_beliefs),
                *old(statistics),
                *final(statistics),
            )
        },
        all_beliefs_valid(final(world).npcs@),
        *final(world) == (World {
            npcs: final(world).npcs,
            towns: final(world).towns,
            active_diseases: final(world).active_diseases,
            important_events: final(world).important_events,
            year_events: final(world).year_events,
            rng: final(world).rng,
            ..*old(world)
        }),
        counts_agree_but_changes(*old(statistics), *final(statistics)),
{
    let town = world.towns[index].id;
    let severity = random_u8_between(&mut world.rng, 2, 10);
    let months = random_u8_between(&mut world.rng, 6, 24);
    let disease = DiseaseEvent::new(severity, town, months);
    let damage = disease.town_damage();
    world.towns[index].apply_damage(damage);
    world.active_diseases.push(disease);
    world.push_event(WorldEvent::DiseaseOutbreak);
    let residents = world.residents_by_town();
    let affected = residents[index].clone();
    let ghost logged = *world;
    proof {
        if old(world).active_npcs@.no_duplicates() {
            lemma_filter_distinct(old(world).active_npcs@, resident_in(old(world).npcs@, index as int));
        }
    }
    alarm(world, &affected, GoalKind::Survive, BeliefKind::HelpOthers, 1, cooldown_years, max_beliefs, statistics);
    proof {
        if old(world).active_npcs@.no_duplicates() {
            lemma_logs_after_alarm(
                *old(world),
                logged,
                *world,
                WorldEvent::DiseaseOutbreak,
                alarm_events(logged.npcs@, affected@, GoalKind::Survive, BeliefKind::HelpOthers, 1, max_beliefs),
                *old(statistics),
                *statistics,
            );
        }
    }
}

/// The candidate a draw falls on: the first whose weight exceeds what is left of the draw
/// after the weights before it are taken away (never below zero); none when the draw
/// passes them all.
pub open spec fn weighted_pick(weights: Seq<usize>, draw: int) -> Option<int>
    decreases weights.len(),
{
    if weights.len() == 0 {
        None
    } else if draw < weights[0] {
        Some(0)
    } else {
        match weighted_pick(weights.skip(1), if draw >= weights[0] { draw - weights[0] } else { 0 }) {
            Some(k) => Some(k + 1),
            None => None,
        }
    }
}

/// The index a weighted draw picks; the first when the draw passes every weight.
pub fn pick_weighted(weights: &Vec<usize>, draw: usize) -> (index: usize)
    ensures
        index == (match weighted_pick(weights@, draw as int) {
            Some(k) => k,
            None => 0,
        }),
{
    let mut left = draw;
    let mut k: usize = 0;
    proof {
        assert(weights@.skip(0) =~= weights@);
        match weighted_pick(weights@, draw as int) {
            Some(m) => assert(m + 0 == m),
            None => {},
        }
    }
    while k < weights.len()
        invariant
            k <= weights@.len(),
            weighted_pick(weights@, draw as int) == (match weighted_pick(weights@.skip(k as int), left as int) {
                Some(m) => Some(m + k),
                None => None::<int>,
            }),
        decreases weights.len() - k,
    {
        proof {
            assert(weights@.skip(k as int).skip(1) =~= weights@.skip(k as int + 1));
        }
        if left < weights[k] {
            return k;
        }
        left = left - weights[k];
        k = k + 1;
    }
    0
}

} // verus!
