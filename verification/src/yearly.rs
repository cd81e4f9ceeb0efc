//! The bookkeeping of a simulated year: setup checks, the year counter, ageing, births' parents,
//! wars running out, the state an action leaves an NPC in, forgetting, and the
//! population balance that closes a year.

use vstd::prelude::*;

use crate::config::RelationshipDecayConfig;
use crate::event::{TimedWorldEvent, WorldEvent};
use crate::npc::Npc;
use crate::relationship::Relationship;
use crate::id::NpcId;
use crate::npc::{NpcState, Sex};
use crate::population::PopulationError;
use crate::statistics::YearStatistics;
use crate::utility::Action;
use crate::war::WarEvent;
use crate::world::{logged, npc_at, InvariantError, World};

verus! {

/// Why a simulation could not be set up or advanced.
#[derive(Clone, Debug, PartialEq, Eq)]
pub enum SimulationError {
    Population(PopulationError),
    Invariant(InvariantError),
    InvalidConfiguration(String),
    /// The active population at the end of a year differs from last year's plus births
    /// and immigrants less deaths and emigrants.
    PopulationConservation { year: u64, expected: i128, actual: usize },
    YearOverflow(u64),
}

/// Checks the size of a new simulation: at least one town, at most one per town id, and
/// no more NPCs than NPC ids.
pub fn check_simulation_size(towns: usize, population: usize) -> (result: Result<(), SimulationError>)
    ensures
        towns == 0 ==> (result matches Err(SimulationError::InvalidConfiguration(message))
            && message@ == "towns must be at least 1"@),
        towns > 65_536 ==> (result matches Err(SimulationError::InvalidConfiguration(message))
            && message@ == "towns must be at most 65536"@),
        1 <= towns <= 65_536 && population > u32::MAX ==> (result matches Err(
            SimulationError::InvalidConfiguration(message),
        ) && message@ == "population exceeds the NpcId range"@),
        1 <= towns <= 65_536 && population <= u32::MAX ==> result is Ok,
{
    if towns == 0 {
        return Err(SimulationError::InvalidConfiguration("towns must be at least 1".to_owned()));
    }
    if towns > 65_536 {
        return Err(SimulationError::InvalidConfiguration("towns must be at most 65536".to_owned()));
    }
    if population > 0xFFFF_FFFF {
        return Err(SimulationError::InvalidConfiguration("population exceeds the NpcId range".to_owned()));
    }
    Ok(())
}

/// The next year, or `YearOverflow` at the last one.
pub fn next_year(year: u64) -> (result: Result<u64, SimulationError>)
    ensures
        year < u64::MAX ==> result == Ok::<u64, SimulationError>((year + 1) as u64),
        year == u64::MAX ==> result == Err::<u64, SimulationError>(SimulationError::YearOverflow(u64::MAX)),
{
    match year.checked_add(1) {
        Some(next) => Ok(next),
        None => Err(SimulationError::YearOverflow(u64::MAX)),
    }
}

/// The population a year should end with: last year's plus births and immigrants, less
/// deaths and emigrants.
pub open spec fn expected_population(previous: usize, year: YearStatistics) -> int {
    previous + year.births + year.external_immigration - year.deaths - year.external_emigration
}

/// Closes a year's books: the active population must be the expected one.
pub fn check_population_balance(year: u64, previous_population: usize, statistics: &YearStatistics) -> (result: Result<(), SimulationError>)
    ensures
        expected_population(previous_population, *statistics) == statistics.total_population ==> result is Ok,
        expected_population(previous_population, *statistics) != statistics.total_population ==> result == Err::<
            (),
            SimulationError,
        >(
            SimulationError::PopulationConservation {
                year,
                expected: expected_population(previous_population, *statistics) as i128,
                actual: statistics.total_population,
            },
        ),
{
    let expected: i128 = previous_population as i128 + statistics.births as i128 + statistics.external_immigration as i128
        - statistics.deaths as i128 - statistics.external_emigration as i128;
    if expected != statistics.total_population as i128 {
        return Err(SimulationError::PopulationConservation { year, expected, actual: statistics.total_population });
    }
    Ok(())
}

/// The partner with whom an NPC may have a child this year: she is a woman of 18 to 45
/// with an active partner of 18 to 75 in her town.
pub open spec fn expecting_with(world: World, mother: NpcId) -> Option<NpcId> {
    if !npc_at(world.npcs@, mother) {
        None
    } else {
        let npc = world.npcs@[mother.0 as int];
        match npc.partner {
            Some(partner) => if npc.sex == Sex::Female && 18 <= npc.age <= 45 && npc_at(world.npcs@, partner)
                && world.npcs@[partner.0 as int].active() && world.npcs@[partner.0 as int].town == npc.town && 18
                <= world.npcs@[partner.0 as int].age <= 75 {
                Some(partner)
            } else {
                None
            },
            None => None,
        }
    }
}

pub fn expecting_partner(world: &World, mother: NpcId) -> (partner: Option<NpcId>)
    ensures
        partner == expecting_with(*world, mother),
{
    let npc = match world.npc(mother) {
        Some(npc) => npc,
        None => return None,
    };
    if npc.sex != Sex::Female || npc.age < 18 || npc.age > 45 {
        return None;
    }
    let partner_id = match npc.partner {
        Some(partner_id) => partner_id,
        None => return None,
    };
    match world.npc(partner_id) {
        Some(partner) => {
            if partner.is_active() && partner.town == npc.town && 18 <= partner.age && partner.age <= 75 {
                Some(partner_id)
            } else {
                None
            }
        },
        None => None,
    }
}

/// The state an NPC is left in by its month: evacuating when it flees or the danger is
/// eight or more, sick during an outbreak in its town, normal otherwise.
pub open spec fn state_after(action: Option<Action>, danger: u8, disease_outbreak: bool) -> NpcState {
    if action matches Some(Action::FleeTown(_)) || danger >= 8 {
        NpcState::Evacuating
    } else if disease_outbreak {
        NpcState::Sick
    } else {
        NpcState::Normal
    }
}

pub fn outcome_state(action: Option<Action>, danger: u8, disease_outbreak: bool) -> (state: NpcState)
    ensures
        state == state_after(action, danger, disease_outbreak),
{
    let fleeing = match action {
        Some(Action::FleeTown(_)) => true,
        _ => false,
    };
    if fleeing || danger >= 8 {
        NpcState::Evacuating
    } else if disease_outbreak {
        NpcState::Sick
    } else {
        NpcState::Normal
    }
}

/// How often the NPC stored at index `j` is listed among the ids.
pub open spec fn times_listed(npcs: Seq<Npc>, ids: Seq<NpcId>, j: int) -> nat {
    if npcs[j].id.0 == j {
        ids.filter(|id: NpcId| id == npcs[j].id).len()
    } else {
        0
    }
}

/// An age after `years` more years, never past 255.
pub open spec fn aged(age: u8, years: nat) -> u8 {
    if age + years > 255 {
        255
    } else {
        (age + years) as u8
    }
}

/// Every active NPC grows a year older (once for each time it is listed as active).
pub fn age_active_npcs(world: &mut World)
    ensures
        final(world).npcs@.len() == old(world).npcs@.len(),
        forall|j: int|
            0 <= j < old(world).npcs@.len() ==> #[trigger] final(world).npcs@[j] == (Npc {
                age: aged(old(world).npcs@[j].age, times_listed(old(world).npcs@, old(world).active_npcs@, j)),
                ..old(world).npcs@[j]
            }),
        *final(world) == (World { npcs: final(world).npcs, ..*old(world) }),
{
    let ghost start = *world;
    let ghost active = world.active_npcs@;
    let mut k: usize = 0;
    while k < world.active_npcs.len()
        invariant
            k <= active.len(),
            active == world.active_npcs@,
            world.npcs@.len() == start.npcs@.len(),
            *world == (World { npcs: world.npcs, ..start }),
            forall|j: int|
                0 <= j < start.npcs@.len() ==> #[trigger] world.npcs@[j] == (Npc {
                    age: aged(start.npcs@[j].age, times_listed(start.npcs@, active.take(k as int), j)),
                    ..start.npcs@[j]
                }),
        decreases active.len() - k,
    {
        let id = world.active_npcs[k];
        let ghost before = world.npcs@;
        proof {
            assert(active.take(k as int + 1) =~= active.take(k as int).push(id));
            assert forall|j: int| 0 <= j < start.npcs@.len() implies times_listed(start.npcs@, active.take(k as int + 1), j)
                == times_listed(start.npcs@, active.take(k as int), j) + (if start.npcs@[j].id.0 == j && id
                == start.npcs@[j].id {
                1nat
            } else {
                0nat
            }) by {
                let pick = |x: NpcId| x == start.npcs@[j].id;
                active.take(k as int).lemma_filter_push(id, pick);
            }
        }
        match world.npc_mut(id) {
            Some(npc) => npc.age_one_year(),
            None => {},
        }
        proof {
            assert forall|j: int| 0 <= j < start.npcs@.len() implies #[trigger] world.npcs@[j] == (Npc {
                age: aged(start.npcs@[j].age, times_listed(start.npcs@, active.take(k as int + 1), j)),
                ..start.npcs@[j]
            }) by {
                assert(before[j].id == start.npcs@[j].id);
                if j == id.0 && npc_at(before, id) {
                    assert(start.npcs@[j].id == id);
                } else if start.npcs@[j].id.0 == j && id == start.npcs@[j].id {
                    assert(npc_at(before, id));
                }
            }
        }
        k = k + 1;
    }
    proof {
        assert(active.take(active.len() as int) =~= active);
    }
}

/// The wars a year later: each loses a year, and those with none left end.
pub open spec fn wars_after_year(wars: Seq<WarEvent>) -> Seq<WarEvent>
    decreases wars.len(),
{
    if wars.len() == 0 {
        Seq::empty()
    } else {
        let rest = wars_after_year(wars.drop_last());
        let war = wars.last();
        if war.remaining_years > 1 {
            rest.push(WarEvent { remaining_years: (war.remaining_years - 1) as u8, ..war })
        } else {
            rest
        }
    }
}

/// How many wars end this year.
pub open spec fn wars_ending(wars: Seq<WarEvent>) -> nat
    decreases wars.len(),
{
    if wars.len() == 0 {
        0
    } else {
        wars_ending(wars.drop_last()) + if wars.last().remaining_years > 1 {
            0nat
        } else {
            1nat
        }
    }
}

/// The event log after the same event is logged `count` times.
pub open spec fn logged_times(events: Seq<WorldEvent>, event: WorldEvent, count: nat) -> Seq<WorldEvent>
    decreases count,
{
    if count == 0 {
        events
    } else {
        logged(logged_times(events, event, (count - 1) as nat), event)
    }
}

/// The year's events after the same event is recorded `count` times.
pub open spec fn recorded_times(events: Seq<TimedWorldEvent>, timed: TimedWorldEvent, count: nat) -> Seq<TimedWorldEvent>
    decreases count,
{
    if count == 0 {
        events
    } else {
        recorded_times(events, timed, (count - 1) as nat).push(timed)
    }
}

/// Advances every war by a year; the ended ones leave the world, each logged as ended.
pub fn progress_wars(world: &mut World) -> (ended: usize)
    ensures
        ended == wars_ending(old(world).active_wars@),
        final(world).active_wars@ == wars_after_year(old(world).active_wars@),
        final(world).important_events@ == logged_times(old(world).important_events@, WorldEvent::WarEnded, ended as nat),
        final(world).year_events@ == (if old(world).capture_year_events {
            recorded_times(
                old(world).year_events@,
                TimedWorldEvent { year: old(world).year, month: old(world).month, event: WorldEvent::WarEnded },
                ended as nat,
            )
        } else {
            old(world).year_events@
        }),
        *final(world) == (World {
            active_wars: final(world).active_wars,
            important_events: final(world).important_events,
            year_events: final(world).year_events,
            ..*old(world)
        }),
{
    let ghost start = *world;
    let mut wars: Vec<WarEvent> = Vec::new();
    std::mem::swap(&mut wars, &mut world.active_wars);
    let ghost all = wars@;
    assert(all.len() == wars.len());
    let mut kept: Vec<WarEvent> = Vec::new();
    let mut ended: usize = 0;
    let mut i: usize = 0;
    while wars.len() > 0
        invariant
            all == start.active_wars@,
            all.len() <= usize::MAX,
            i <= all.len(),
            wars@ == all.skip(i as int),
            kept@ == wars_after_year(all.take(i as int)),
            ended == wars_ending(all.take(i as int)),
            ended <= i,
        decreases wars.len(),
    {
        assert(all.take(i as int + 1).drop_last() == all.take(i as int));
        assert(all.take(i as int + 1).last() == all[i as int]);
        let mut war = wars.remove(0);
        let ghost before = war;
        if war.progress_year() {
            assert(war == (WarEvent { remaining_years: (before.remaining_years - 1) as u8, ..before }));
            kept.push(war);
        } else {
            ended = ended + 1;
        }
        assert(wars@ =~= all.skip(i as int + 1));
        i = i + 1;
    }
    assert(all.take(i as int) =~= all);
    world.active_wars = kept;
    let ghost middle = *world;
    let mut logged_count: usize = 0;
    while logged_count < ended
        invariant
            logged_count <= ended,
            world.important_events@ == logged_times(start.important_events@, WorldEvent::WarEnded, logged_count as nat),
            world.year_events@ == (if start.capture_year_events {
                recorded_times(
                    start.year_events@,
                    TimedWorldEvent { year: start.year, month: start.month, event: WorldEvent::WarEnded },
                    logged_count as nat,
                )
            } else {
                start.year_events@
            }),
            *world == (World { important_events: world.important_events, year_events: world.year_events, ..middle }),
            middle == (World { active_wars: middle.active_wars, ..start }),
        decreases ended - logged_count,
    {
        world.push_event(WorldEvent::WarEnded);
        logged_count = logged_count + 1;
    }
    ended
}


/// Whole years from `then` to `now`, none when `then` is later, at most 65535.
pub open spec fn years_between(then: u64, now: u64) -> u16 {
    if now <= then {
        0
    } else if now - then > 65_535 {
        65_535
    } else {
        (now - then) as u16
    }
}

fn years_since(then: u64, now: u64) -> (years: u16)
    ensures
        years == years_between(then, now),
{
    if now <= then {
        0
    } else if now - then > 65_535 {
        65_535
    } else {
        (now - then) as u16
    }
}

/// The relationship is forgotten in `year` under the decay rules.
pub open spec fn forgotten_under(decay: RelationshipDecayConfig, relationship: Relationship, year: u64) -> bool {
    decay.forgets(
        relationship.relation,
        years_between(relationship.last_interaction_year, year),
        relationship.kind.permanent(),
    )
}

/// The ids an NPC forgets this year: none unless it is at its index and on the active
/// list; otherwise each whose relationship the decay rules let go.
pub open spec fn forgets(
    npcs: Seq<Npc>,
    active: Seq<NpcId>,
    decay: RelationshipDecayConfig,
    year: u64,
    j: int,
) -> Set<NpcId> {
    let npc = npcs[j];
    if npc.id.0 == j && active.contains(npc.id) {
        Set::new(
            |other: NpcId| npc.relationships@.contains_key(other) && forgotten_under(decay, npc.relationships@[other], year),
        )
    } else {
        Set::empty()
    }
}

/// The relationships of the NPC at index `j` once each NPC has forgotten on its own side.
pub open spec fn own_side_forgotten(
    npcs: Seq<Npc>,
    active: Seq<NpcId>,
    decay: RelationshipDecayConfig,
    year: u64,
    j: int,
) -> Map<NpcId, Relationship> {
    npcs[j].relationships@.remove_keys(forgets(npcs, active, decay, year, j))
}

/// The ids that forgot the NPC at index `j` and whose tie it does not hold as permanent
/// after forgetting on its own side: it lets them go as well.
pub open spec fn forgotten_by_others(
    npcs: Seq<Npc>,
    active: Seq<NpcId>,
    decay: RelationshipDecayConfig,
    year: u64,
    j: int,
) -> Set<NpcId> {
    let own = own_side_forgotten(npcs, active, decay, year, j);
    Set::new(
        |other: NpcId|
            0 <= other.0 < npcs.len() && forgets(npcs, active, decay, year, other.0 as int).contains(npcs[j].id)
                && !(own.contains_key(other) && own[other].kind.permanent()),
    )
}

proof fn lemma_push_contains(s: Seq<NpcId>, x: NpcId)
    ensures
        forall|y: NpcId| #[trigger] s.push(x).contains(y) <==> (s.contains(y) || y == x),
{
    assert forall|y: NpcId| #[trigger] s.push(x).contains(y) <==> (s.contains(y) || y == x) by {
        if s.push(x).contains(y) {
            let i = choose|i: int| 0 <= i < s.push(x).len() && s.push(x)[i] == y;
            if i < s.len() {
                assert(s[i] == y);
            }
        }
        if s.contains(y) {
            let i = choose|i: int| 0 <= i < s.len() && s[i] == y;
            assert(s.push(x)[i] == y);
        }
        if y == x {
            assert(s.push(x)[s.len() as int] == y);
        }
    }
}

fn forgotten_keys(npc: &Npc, decay: &RelationshipDecayConfig, year: u64) -> (keys: Vec<NpcId>)
    ensures
        keys@.no_duplicates(),
        forall|other: NpcId| #[trigger] keys@.contains(other) <==> (npc.relationships@.contains_key(other)
            && forgotten_under(*decay, npc.relationships@[other], year)),
{
    let entries = npc.relationships.entries();
    let ordered = npc.relationships.keys();
    proof {
        npc.relationships.lemma_key_order_is_domain();
    }
    let ghost order = npc.relationships.key_order();
    assert(crate::sorted_ids::npc_ids_sorted(order));
    let mut keys: Vec<NpcId> = Vec::new();
    let mut i: usize = 0;
    while i < entries.len()
        invariant
            i <= entries@.len(),
            entries@.len() == order.len(),
            crate::sorted_ids::npc_ids_sorted(order),
            forall|j: int| 0 <= j < entries@.len() ==> (#[trigger] entries@[j]).0 == order[j]
                && npc.relationships@.contains_key(entries@[j].0) && entries@[j].1 == npc.relationships@[entries@[j].0],
            keys@.no_duplicates(),
            forall|other: NpcId| #[trigger] keys@.contains(other) ==> exists|j: int| 0 <= j < i && order[j] == other,
            forall|other: NpcId| #[trigger] keys@.contains(other) <==> exists|j: int|
                0 <= j < i && #[trigger] order[j] == other && forgotten_under(*decay, entries@[j].1, year),
        decreases entries.len() - i,
    {
        let relationship = entries[i].1;
        let years = years_since(relationship.last_interaction_year, year);
        if decay.should_forget(relationship.relation, years, relationship.is_permanent()) {
            proof {
                assert(!keys@.contains(entries@[i as int].0)) by {
                    if keys@.contains(entries@[i as int].0) {
                        let j = choose|j: int| 0 <= j < i && order[j] == entries@[i as int].0;
                        assert(order[j].0 < order[i as int].0);
                    }
                }
            }
            proof {
                lemma_push_contains(keys@, entries@[i as int].0);
            }
            keys.push(entries[i].0);
        }
        i = i + 1;
    }
    proof {
        assert forall|other: NpcId| #[trigger] keys@.contains(other) <==> (npc.relationships@.contains_key(other)
            && forgotten_under(*decay, npc.relationships@[other], year)) by {
            if npc.relationships@.contains_key(other) {
                assert(order.contains(other));
            }
        }
    }
    keys
}


/// The yearly forgetting: every active NPC drops the relationships that the decay rules
/// let go, and each NPC it dropped lets it go too unless it holds that tie as permanent.
pub fn forget_relationships(world: &mut World, decay: &RelationshipDecayConfig)
    ensures
        final(world).npcs@.len() == old(world).npcs@.len(),
        forall|j: int|
            0 <= j < old(world).npcs@.len() ==> {
                let npcs = old(world).npcs@;
                let active = old(world).active_npcs@;
                let year = old(world).year;
                &&& #[trigger] final(world).npcs@[j] == (Npc { relationships: final(world).npcs@[j].relationships, ..npcs[j] })
                &&& final(world).npcs@[j].relationships@ == if npcs[j].id.0 == j {
                    own_side_forgotten(npcs, active, *decay, year, j).remove_keys(
                        forgotten_by_others(npcs, active, *decay, year, j),
                    )
                } else {
                    npcs[j].relationships@
                }
            },
        *final(world) == (World { npcs: final(world).npcs, ..*old(world) }),
{
    let ghost start = *world;
    let ghost npcs = start.npcs@;
    let ghost active = start.active_npcs@;
    let year = world.year;
    let mut edges: Vec<(NpcId, NpcId)> = Vec::new();
    let mut i: usize = 0;
    while i < world.active_npcs.len()
        invariant
            i <= active.len(),
            world.active_npcs@ == active,
            world.year == year,
            year == start.year,
            world.npcs@.len() == npcs.len(),
            npcs == start.npcs@,
            active == start.active_npcs@,
            *world == (World { npcs: world.npcs, ..start }),
            forall|j: int|
                0 <= j < npcs.len() ==> {
                    &&& #[trigger] world.npcs@[j] == (Npc { relationships: world.npcs@[j].relationships, ..npcs[j] })
                    &&& world.npcs@[j].relationships@ == npcs[j].relationships@.remove_keys(
                        forgets(npcs, active.take(i as int), *decay, year, j),
                    )
                },
            forall|a: NpcId, b: NpcId| #[trigger] edges@.contains((a, b)) <==> (0 <= a.0 < npcs.len() && forgets(
                npcs,
                active.take(i as int),
                *decay,
                year,
                a.0 as int,
            ).contains(b)),
        decreases active.len() - i,
    {
        let id = world.active_npcs[i];
        let ghost before = *world;
        let ghost before_edges = edges@;
        proof {
            assert forall|j: int| 0 <= j < npcs.len() && j != id.0 implies forgets(npcs, active.take(i + 1), *decay, year, j)
                == forgets(npcs, active.take(i as int), *decay, year, j) by {
                if npcs[j].id.0 == j {
                    assert(active.take(i + 1).contains(npcs[j].id) == active.take(i as int).contains(npcs[j].id)) by {
                        if active.take(i + 1).contains(npcs[j].id) {
                            let m = choose|m: int| 0 <= m < i + 1 && #[trigger] active.take(i + 1)[m] == npcs[j].id;
                            assert(active.take(i as int)[m] == npcs[j].id);
                        }
                        if active.take(i as int).contains(npcs[j].id) {
                            let m = choose|m: int| 0 <= m < i && #[trigger] active.take(i as int)[m] == npcs[j].id;
                            assert(active.take(i + 1)[m] == npcs[j].id);
                        }
                    }
                }
            }
        }
        let keys = match world.npc(id) {
            Some(npc) => forgotten_keys(npc, decay, year),
            None => Vec::new(),
        };
        proof {
            if npc_at(npcs, id) {
                assert(active.take(i + 1)[i as int] == id);
                let full = forgets(npcs, active.take(i + 1), *decay, year, id.0 as int);
                let done = forgets(npcs, active.take(i as int), *decay, year, id.0 as int);
                let current = world.npcs@[id.0 as int].relationships@;
                // Either it forgets now, or it already did and nothing more goes.
                assert forall|other: NpcId| #[trigger] keys@.contains(other) <==> (full.contains(other)
                    && !done.contains(other)) by {
                    if keys@.contains(other) {
                        assert(current.contains_key(other));
                        assert(current[other] == npcs[id.0 as int].relationships@[other]);
                    }
                    if full.contains(other) && !done.contains(other) {
                        assert(current.contains_key(other));
                    }
                }
            } else {
                assert forall|other: NpcId| !#[trigger] keys@.contains(other) by {}
            }
        }
        let mut m: usize = 0;
        while m < keys.len()
            invariant
                m <= keys@.len(),
                keys@.no_duplicates(),
                world.active_npcs@ == active,
                world.year == year,
                world.npcs@.len() == npcs.len(),
                *world == (World { npcs: world.npcs, ..start }),
                keys@.len() > 0 ==> npc_at(npcs, id),
                keys@.len() == 0 ==> world.npcs@ == before.npcs@,
                forall|j: int|
                    0 <= j < npcs.len() ==> #[trigger] world.npcs@[j] == (Npc {
                        relationships: world.npcs@[j].relationships,
                        ..npcs[j]
                    }),
                forall|j: int| 0 <= j < npcs.len() && j != id.0 ==> #[trigger] world.npcs@[j] == before.npcs@[j],
                keys@.len() > 0 ==> world.npcs@[id.0 as int].relationships@ == before.npcs@[id.0 as int].relationships@.remove_keys(
                    keys@.take(m as int).to_set(),
                ),
                forall|a: NpcId, b: NpcId| #[trigger] edges@.contains((a, b)) <==> (before_edges.contains((a, b)) || (a == id
                    && keys@.take(m as int).contains(b))),
            decreases keys.len() - m,
        {
            let other = keys[m];
            match world.npc_mut(id) {
                Some(npc) => {
                    npc.remove_relationship(other);
                },
                None => {},
            }
            proof {
                assert(keys@.take(m + 1) == keys@.take(m as int).push(other));
                assert(keys@.take(m + 1).to_set() =~= keys@.take(m as int).to_set().insert(other)) by {
                    lemma_push_contains(keys@.take(m as int), other);
                }
                lemma_push_pair_contains(edges@, (id, other));
                lemma_push_contains(keys@.take(m as int), other);
            }
            edges.push((id, other));
            m = m + 1;
        }
        proof {
            assert(keys@.take(keys@.len() as int) =~= keys@);
            assert forall|j: int| 0 <= j < npcs.len() implies #[trigger] world.npcs@[j] == (Npc {
                relationships: world.npcs@[j].relationships,
                ..npcs[j]
            }) && world.npcs@[j].relationships@ == npcs[j].relationships@.remove_keys(
                forgets(npcs, active.take(i + 1), *decay, year, j),
            ) by {
                if j == id.0 {
                    let full = forgets(npcs, active.take(i + 1), *decay, year, j);
                    let done = forgets(npcs, active.take(i as int), *decay, year, j);
                    if npc_at(npcs, id) {
                        assert(done.subset_of(full)) by {
                            if active.take(i as int).contains(id) {
                                let m = choose|m: int| 0 <= m < i && #[trigger] active.take(i as int)[m] == id;
                                assert(active.take(i + 1)[m] == id);
                            }
                        }
                        assert(full =~= done.union(keys@.to_set()));
                        assert(npcs[j].relationships@.remove_keys(full) =~= npcs[j].relationships@.remove_keys(
                            done,
                        ).remove_keys(keys@.to_set()));
                    } else {
                        assert(full =~= done);
                    }
                }
            }
        }
        i = i + 1;
    }
    proof {
        assert(active.take(active.len() as int) =~= active);
    }
    let ghost own_side = world.npcs@;
    let mut e: usize = 0;
    while e < edges.len()
        invariant
            e <= edges@.len(),
            own_side.len() == npcs.len(),
            world.npcs@.len() == npcs.len(),
            *world == (World { npcs: world.npcs, ..start }),
            forall|a: NpcId, b: NpcId| #[trigger] edges@.contains((a, b)) <==> (0 <= a.0 < npcs.len() && forgets(
                npcs,
                active,
                *decay,
                year,
                a.0 as int,
            ).contains(b)),
            forall|j: int|
                0 <= j < npcs.len() ==> {
                    &&& #[trigger] own_side[j] == (Npc { relationships: own_side[j].relationships, ..npcs[j] })
                    &&& own_side[j].relationships@ == own_side_forgotten(npcs, active, *decay, year, j)
                },
            forall|j: int|
                0 <= j < npcs.len() ==> {
                    let own = own_side_forgotten(npcs, active, *decay, year, j);
                    &&& #[trigger] world.npcs@[j] == (Npc { relationships: world.npcs@[j].relationships, ..npcs[j] })
                    &&& world.npcs@[j].relationships@ == if npcs[j].id.0 == j {
                        own.remove_keys(
                            Set::new(
                                |a: NpcId|
                                    exists|f: int|
                                        0 <= f < e && #[trigger] edges@[f] == (a, npcs[j].id) && !(own.contains_key(a)
                                            && own[a].kind.permanent()),
                            ),
                        )
                    } else {
                        own
                    }
                },
        decreases edges.len() - e,
    {
        let (a, b) = edges[e];
        let ghost before = world.npcs@;
        match world.npc_mut(b) {
            Some(other) => {
                let permanent = match other.relationship(a) {
                    Some(relationship) => relationship.is_permanent(),
                    None => false,
                };
                if !permanent {
                    other.remove_relationship(a);
                }
            },
            None => {},
        }
        proof {
            assert forall|j: int| 0 <= j < npcs.len() implies {
                let own = own_side_forgotten(npcs, active, *decay, year, j);
                &&& #[trigger] world.npcs@[j] == (Npc { relationships: world.npcs@[j].relationships, ..npcs[j] })
                &&& world.npcs@[j].relationships@ == if npcs[j].id.0 == j {
                    own.remove_keys(
                        Set::new(
                            |x: NpcId|
                                exists|f: int|
                                    0 <= f < e + 1 && #[trigger] edges@[f] == (x, npcs[j].id) && !(own.contains_key(x)
                                        && own[x].kind.permanent()),
                        ),
                    )
                } else {
                    own
                }
            } by {
                let own = own_side_forgotten(npcs, active, *decay, year, j);
                let old_set = Set::new(
                    |x: NpcId|
                        exists|f: int|
                            0 <= f < e && #[trigger] edges@[f] == (x, npcs[j].id) && !(own.contains_key(x)
                                && own[x].kind.permanent()),
                );
                let new_set = Set::new(
                    |x: NpcId|
                        exists|f: int|
                            0 <= f < e + 1 && #[trigger] edges@[f] == (x, npcs[j].id) && !(own.contains_key(x)
                                && own[x].kind.permanent()),
                );
                if npcs[j].id.0 == j && npcs[j].id == b {
                    assert(edges@[e as int] == (a, b));
                    if own.contains_key(a) && own[a].kind.permanent() {
                        assert(new_set =~= old_set);
                    } else {
                        assert(new_set =~= old_set.insert(a));
                    }
                    assert(world.npcs@[j].relationships@ =~= own.remove_keys(new_set));
                } else if npcs[j].id.0 == j {
                    assert(new_set =~= old_set) by {
                        assert forall|x: NpcId| new_set.contains(x) implies old_set.contains(x) by {
                            let f = choose|f: int|
                                0 <= f < e + 1 && #[trigger] edges@[f] == (x, npcs[j].id) && !(own.contains_key(x)
                                    && own[x].kind.permanent());
                            assert(f != e);
                        }
                    }
                }
            }
        }
        e = e + 1;
    }
    proof {
        assert forall|j: int| 0 <= j < npcs.len() && npcs[j].id.0 == j implies Set::new(
            |a: NpcId|
                exists|f: int|
                    0 <= f < edges@.len() && #[trigger] edges@[f] == (a, npcs[j].id) && !(own_side_forgotten(
                        npcs,
                        active,
                        *decay,
                        year,
                        j,
                    ).contains_key(a) && own_side_forgotten(npcs, active, *decay, year, j)[a].kind.permanent()),
        ) =~= forgotten_by_others(npcs, active, *decay, year, j) by {
            let own = own_side_forgotten(npcs, active, *decay, year, j);
            let listed = Set::new(
                |a: NpcId|
                    exists|f: int|
                        0 <= f < edges@.len() && #[trigger] edges@[f] == (a, npcs[j].id) && !(own.contains_key(a)
                            && own[a].kind.permanent()),
            );
            assert forall|a: NpcId| listed.contains(a) <==> forgotten_by_others(npcs, active, *decay, year, j).contains(a) by {
                if forgotten_by_others(npcs, active, *decay, year, j).contains(a) {
                    assert(edges@.contains((a, npcs[j].id)));
                    let f = choose|f: int| 0 <= f < edges@.len() && edges@[f] == (a, npcs[j].id);
                    assert(edges@[f] == (a, npcs[j].id));
                }
                if listed.contains(a) {
                    let f = choose|f: int|
                        0 <= f < edges@.len() && #[trigger] edges@[f] == (a, npcs[j].id) && !(own.contains_key(a)
                            && own[a].kind.permanent());
                    assert(edges@.contains((a, npcs[j].id)));
                }
            }
        }
    }
}

proof fn lemma_push_pair_contains(s: Seq<(NpcId, NpcId)>, x: (NpcId, NpcId))
    ensures
        forall|y: (NpcId, NpcId)| #[trigger] s.push(x).contains(y) <==> (s.contains(y) || y == x),
{
    assert forall|y: (NpcId, NpcId)| #[trigger] s.push(x).contains(y) <==> (s.contains(y) || y == x) by {
        if s.push(x).contains(y) {
            let i = choose|i: int| 0 <= i < s.push(x).len() && s.push(x)[i] == y;
            if i < s.len() {
                assert(s[i] == y);
            }
        }
        if s.contains(y) {
            let i = choose|i: int| 0 <= i < s.len() && s[i] == y;
            assert(s.push(x)[i] == y);
        }
        if y == x {
            assert(s.push(x)[s.len() as int] == y);
        }
    }
}

} // verus!
