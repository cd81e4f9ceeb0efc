//! The rules by which NPCs relate to each other and react to events, applied to the
//! world: relationship kinds, affinity, partner choice, goal and belief changes, deaths,
//! forgetting and the relationship limit.

use vstd::prelude::*;

use crate::belief::{adjusted_strength, Belief, BeliefKind, MAX_BELIEFS};
use crate::event::{TimedWorldEvent, WorldEvent};
use crate::goal::{Goal, GoalKind, MIN_GOAL_PROGRESS_BITS};
use crate::id::{NpcId, TownId};
use crate::npc::{first_of_kind, holds_kind, lemma_first_of_kind_unique, strength_of, Npc, NpcState};
use crate::population::has_kind;
use crate::relationship::{clamped_month, clamped_value, Relationship, RelationshipKind, NEUTRAL_RELATION};
use crate::utility::{clamped_situation_value, sorted_relationship_candidates, Action, PersonCandidate};
use crate::statistics::{after_event, YearStatistics};
use crate::town::Town;
use crate::event::DeathCause;
use crate::sorted_ids::{insert_npc_id, npc_ids_sorted};
use crate::statistics::after_death;
use crate::crisis::{alarm, alarm_events, alarm_reached, lemma_filter_distinct, only_listed_minds_change};
use crate::world::{active_ids, contains_id, logged, npc_at, related, town_at, World};

verus! {

/// The kind a relationship that is not permanent takes at a relation value.
pub open spec fn kind_for_relation(relation: u8) -> RelationshipKind {
    if relation <= 1 {
        RelationshipKind::Enemy
    } else if relation <= 3 {
        RelationshipKind::Rival
    } else if relation == 8 {
        RelationshipKind::Friend
    } else if relation == 9 || relation == 10 {
        RelationshipKind::CloseFriend
    } else {
        RelationshipKind::Acquaintance
    }
}

/// Sets the kind of a relationship from its relation value; family and partners keep
/// theirs.
pub fn update_relationship_kind(relationship: &mut Relationship)
    ensures
        old(relationship).kind.permanent() ==> *final(relationship) == *old(relationship),
        !old(relationship).kind.permanent() ==> *final(relationship) == (Relationship {
            kind: kind_for_relation(old(relationship).relation),
            ..*old(relationship)
        }),
{
    if relationship.is_permanent() {
        return;
    }
    relationship.kind = if relationship.relation <= 1 {
        RelationshipKind::Enemy
    } else if relationship.relation <= 3 {
        RelationshipKind::Rival
    } else if relationship.relation == 8 {
        RelationshipKind::Friend
    } else if relationship.relation == 9 || relationship.relation == 10 {
        RelationshipKind::CloseFriend
    } else {
        RelationshipKind::Acquaintance
    };
}

/// Parent and child, or siblings sharing a parent.
pub fn are_close_relatives(a: &Npc, b: &Npc) -> (close: bool)
    ensures
        close == related(*a, *b),
{
    if contains_id(&a.parents, b.id) || contains_id(&a.children, b.id) || contains_id(&b.parents, a.id)
        || contains_id(&b.children, a.id) {
        return true;
    }
    let mut k: usize = 0;
    while k < a.parents.len()
        invariant
            k <= a.parents@.len(),
            forall|j: int| 0 <= j < k ==> !b.parents@.contains(#[trigger] a.parents@[j]),
        decreases a.parents.len() - k,
    {
        if contains_id(&b.parents, a.parents[k]) {
            return true;
        }
        k = k + 1;
    }
    false
}

pub open spec fn partner_age(age: u8) -> bool {
    18 <= age <= 65
}

pub open spec fn age_gap(a: u8, b: u8) -> int {
    if a >= b {
        a - b
    } else {
        b - a
    }
}

/// Two different active, unpartnered adults of working age and opposite sex in the same
/// town, at most twenty years apart and not closely related.
pub open spec fn partners_eligible(a: Npc, b: Npc) -> bool {
    &&& a.id != b.id
    &&& a.active()
    &&& b.active()
    &&& a.town == b.town
    &&& a.partner is None
    &&& b.partner is None
    &&& a.sex != b.sex
    &&& partner_age(a.age)
    &&& partner_age(b.age)
    &&& age_gap(a.age, b.age) <= 20
    &&& !related(a, b)
}

pub fn eligible_partners(a: &Npc, b: &Npc) -> (eligible: bool)
    ensures
        eligible == partners_eligible(*a, *b),
{
    let gap: u8 = if a.age >= b.age {
        a.age - b.age
    } else {
        b.age - a.age
    };
    a.id != b.id && a.is_active() && b.is_active() && a.town == b.town && a.partner.is_none()
        && b.partner.is_none() && a.sex != b.sex && 18 <= a.age && a.age <= 65 && 18 <= b.age && b.age <= 65
        && gap <= 20 && !are_close_relatives(a, b)
}

/// How many of `a`'s beliefs are of a kind that `b` also holds.
pub open spec fn shared_beliefs(a: Seq<Belief>, b: Seq<Belief>) -> int
    decreases a.len(),
{
    if a.len() == 0 {
        0
    } else {
        shared_beliefs(a.drop_last(), b) + if holds_kind(b, a.last().kind) {
            1int
        } else {
            0int
        }
    }
}

proof fn lemma_shared_beliefs_bounded(a: Seq<Belief>, b: Seq<Belief>)
    ensures
        0 <= shared_beliefs(a, b) <= a.len(),
    decreases a.len(),
{
    if a.len() > 0 {
        lemma_shared_beliefs_bounded(a.drop_last(), b);
    }
}

pub fn count_shared_beliefs(a: &Vec<Belief>, b: &Vec<Belief>) -> (count: usize)
    ensures
        count == shared_beliefs(a@, b@),
{
    let mut count: usize = 0;
    let mut i: usize = 0;
    while i < a.len()
        invariant
            i <= a@.len(),
            count == shared_beliefs(a@.take(i as int), b@),
            count <= i,
        decreases a.len() - i,
    {
        assert(a@.take(i as int + 1).drop_last() == a@.take(i as int));
        if has_kind(b, a[i].kind) {
            count = count + 1;
        }
        i = i + 1;
    }
    assert(a@.take(a@.len() as int) == a@);
    count
}

/// Affinity between two NPCs: five, plus a point per shared belief kind, minus a point
/// per four points of charisma difference, within `0..=10`.
pub open spec fn affinity_of(a: Npc, b: Npc) -> u8 {
    let difference = age_gap(a.attributes.charisma, b.attributes.charisma);
    let raw = 5 + shared_beliefs(a.beliefs@, b.beliefs@) - difference / 4;
    if raw < 0 {
        0
    } else if raw > 10 {
        10
    } else {
        raw as u8
    }
}

pub fn affinity_between(a: &Npc, b: &Npc) -> (affinity: u8)
    ensures
        affinity == affinity_of(*a, *b),
{
    let shared = count_shared_beliefs(&a.beliefs, &b.beliefs);
    let difference: u8 = if a.attributes.charisma >= b.attributes.charisma {
        a.attributes.charisma - b.attributes.charisma
    } else {
        b.attributes.charisma - a.attributes.charisma
    };
    let penalty: u64 = difference as u64 / 4;
    // Past a hundred shared kinds the result is ten whatever the penalty (at most 63).
    let capped: u64 = if shared > 100 {
        100
    } else {
        shared as u64
    };
    let gain: u64 = 5 + capped;
    if gain < penalty {
        0
    } else if gain - penalty > 10 {
        10
    } else {
        (gain - penalty) as u8
    }
}


/// Affinity between two NPCs of the world; five when either is missing.
pub open spec fn world_affinity(world: World, a: NpcId, b: NpcId) -> u8 {
    if npc_at(world.npcs@, a) && npc_at(world.npcs@, b) {
        affinity_of(world.npcs@[a.0 as int], world.npcs@[b.0 as int])
    } else {
        5
    }
}

pub fn calculate_affinity(world: &World, a: NpcId, b: NpcId) -> (affinity: u8)
    ensures
        affinity == world_affinity(*world, a, b),
{
    match (world.npc(a), world.npc(b)) {
        (Some(first), Some(second)) => affinity_between(first, second),
        _ => 5,
    }
}

/// How dangerous a town is: ten minus its effective safety; zero for a missing town.
pub open spec fn danger_in(towns: Seq<Town>, town: TownId) -> u8 {
    if town_at(towns, town) {
        (10 - towns[town.0 as int].effective_safety_spec()) as u8
    } else {
        0
    }
}

pub fn town_danger(world: &World, town: TownId) -> (danger: u8)
    ensures
        danger == danger_in(world.towns@, town),
{
    match world.town(town) {
        Some(found) => 10u8 - found.effective_safety(),
        None => 0,
    }
}

/// Some child of the NPC is in the world, active and under eighteen.
pub open spec fn has_young_child(npcs: Seq<Npc>, npc: Npc) -> bool {
    exists|k: int|
        0 <= k < npc.children@.len() && npc_at(npcs, #[trigger] npc.children@[k]) && npcs[npc.children@[k].0 as int].active()
            && npcs[npc.children@[k].0 as int].age < 18
}

/// The goal that suits an NPC now: survival in danger, then skills for the young, a
/// partner for single adults up to sixty, raising young children, knowledge or wealth for
/// those who value them strongly, peace in old age, and status otherwise.
pub open spec fn suggested_goal(world: World, id: NpcId) -> GoalKind {
    if !npc_at(world.npcs@, id) {
        GoalKind::Survive
    } else {
        let npc = world.npcs@[id.0 as int];
        if danger_in(world.towns@, npc.town) >= 6 {
            GoalKind::Survive
        } else if npc.age < 18 {
            GoalKind::BecomeSkilled
        } else if npc.partner is None && npc.age <= 60 {
            GoalKind::FindPartner
        } else if has_young_child(world.npcs@, npc) {
            GoalKind::RaiseChildren
        } else if strength_of(npc.beliefs@, BeliefKind::ValueKnowledge) >= 7 {
            GoalKind::SeekKnowledge
        } else if strength_of(npc.beliefs@, BeliefKind::ValueWealth) >= 7 {
            GoalKind::GainWealth
        } else if npc.age >= 65 {
            GoalKind::LivePeacefully
        } else {
            GoalKind::GainStatus
        }
    }
}

fn has_young_child_in(world: &World, npc: &Npc) -> (found: bool)
    ensures
        found == has_young_child(world.npcs@, *npc),
{
    let mut k: usize = 0;
    while k < npc.children.len()
        invariant
            k <= npc.children@.len(),
            forall|j: int|
                0 <= j < k ==> !(npc_at(world.npcs@, #[trigger] npc.children@[j])
                    && world.npcs@[npc.children@[j].0 as int].active() && world.npcs@[npc.children@[j].0 as int].age
                    < 18),
        decreases npc.children.len() - k,
    {
        match world.npc(npc.children[k]) {
            Some(child) => {
                if child.is_active() && child.age < 18 {
                    return true;
                }
            },
            None => {},
        }
        k = k + 1;
    }
    false
}

pub fn suggest_goal(world: &World, id: NpcId) -> (goal: GoalKind)
    ensures
        goal == suggested_goal(*world, id),
{
    let npc = match world.npc(id) {
        Some(npc) => npc,
        None => return GoalKind::Survive,
    };
    let danger = town_danger(world, npc.town);
    if danger >= 6 {
        GoalKind::Survive
    } else if npc.age < 18 {
        GoalKind::BecomeSkilled
    } else if npc.partner.is_none() && npc.age <= 60 {
        GoalKind::FindPartner
    } else if has_young_child_in(world, npc) {
        GoalKind::RaiseChildren
    } else if npc.belief_strength(BeliefKind::ValueKnowledge) >= 7 {
        GoalKind::SeekKnowledge
    } else if npc.belief_strength(BeliefKind::ValueWealth) >= 7 {
        GoalKind::GainWealth
    } else if npc.age >= 65 {
        GoalKind::LivePeacefully
    } else {
        GoalKind::GainStatus
    }
}

/// A parent of an active child under eighteen, an adult in a town with danger below six
/// and not a single adult of sixty or less, is suggested raising its children.
pub proof fn law_parents_raise_children(world: World, id: NpcId, k: int)
    requires
        npc_at(world.npcs@, id),
        world.npcs@[id.0 as int].age >= 18,
        world.npcs@[id.0 as int].partner is Some || world.npcs@[id.0 as int].age > 60,
        danger_in(world.towns@, world.npcs@[id.0 as int].town) < 6,
        0 <= k < world.npcs@[id.0 as int].children@.len(),
        npc_at(world.npcs@, world.npcs@[id.0 as int].children@[k]),
        world.npcs@[world.npcs@[id.0 as int].children@[k].0 as int].active(),
        world.npcs@[world.npcs@[id.0 as int].children@[k].0 as int].age < 18,
    ensures
        suggested_goal(world, id) == GoalKind::RaiseChildren,
{
    let npc = world.npcs@[id.0 as int];
    assert(npc_at(world.npcs@, npc.children@[k]));
    assert(has_young_child(world.npcs@, npc));
}

/// Danger comes first: in a town with danger six or more every NPC is suggested to
/// survive; in a safer town the young are suggested to become skilled, and single adults
/// of sixty or less to find a partner.
pub proof fn law_goal_by_danger_and_age(world: World, id: NpcId)
    requires
        npc_at(world.npcs@, id),
    ensures
        danger_in(world.towns@, world.npcs@[id.0 as int].town) >= 6 ==> suggested_goal(world, id) == GoalKind::Survive,
        danger_in(world.towns@, world.npcs@[id.0 as int].town) < 6 && world.npcs@[id.0 as int].age < 18
            ==> suggested_goal(world, id) == GoalKind::BecomeSkilled,
        danger_in(world.towns@, world.npcs@[id.0 as int].town) < 6 && 18 <= world.npcs@[id.0 as int].age <= 60
            && world.npcs@[id.0 as int].partner is None ==> suggested_goal(world, id) == GoalKind::FindPartner,
{
}

/// A safe adult who is not a single adult of sixty or less and has no active child under
/// eighteen is suggested to seek knowledge when it values knowledge strongly (seven or
/// more), else to gain wealth when it values wealth strongly, else to live peacefully from
/// sixty-five on, and to gain status otherwise.
pub proof fn law_goal_for_settled_adults(world: World, id: NpcId)
    requires
        npc_at(world.npcs@, id),
        world.npcs@[id.0 as int].age >= 18,
        world.npcs@[id.0 as int].partner is Some || world.npcs@[id.0 as int].age > 60,
        danger_in(world.towns@, world.npcs@[id.0 as int].town) < 6,
        forall|k: int|
            0 <= k < world.npcs@[id.0 as int].children@.len() && npc_at(
                world.npcs@,
                #[trigger] world.npcs@[id.0 as int].children@[k],
            ) ==> !(world.npcs@[world.npcs@[id.0 as int].children@[k].0 as int].active()
                && world.npcs@[world.npcs@[id.0 as int].children@[k].0 as int].age < 18),
    ensures
        ({
            let npc = world.npcs@[id.0 as int];
            let knowledge = strength_of(npc.beliefs@, BeliefKind::ValueKnowledge);
            let wealth = strength_of(npc.beliefs@, BeliefKind::ValueWealth);
            &&& knowledge >= 7 ==> suggested_goal(world, id) == GoalKind::SeekKnowledge
            &&& knowledge < 7 && wealth >= 7 ==> suggested_goal(world, id) == GoalKind::GainWealth
            &&& knowledge < 7 && wealth < 7 && npc.age >= 65 ==> suggested_goal(world, id) == GoalKind::LivePeacefully
            &&& knowledge < 7 && wealth < 7 && npc.age < 65 ==> suggested_goal(world, id) == GoalKind::GainStatus
        }),
{
    assert(!has_young_child(world.npcs@, world.npcs@[id.0 as int]));
}

/// `after` is `before` with one more event logged, and nothing else changed.
pub open spec fn noted(before: World, after: World, event: WorldEvent) -> bool {
    &&& after.important_events@ == logged(before.important_events@, event)
    &&& after.year_events@ == (if before.capture_year_events {
        before.year_events@.push(TimedWorldEvent { year: before.year, month: before.month, event })
    } else {
        before.year_events@
    })
    &&& after == (World { important_events: after.important_events, year_events: after.year_events, ..before })
}

/// The world is the same, its NPCs the same in every value.
pub open spec fn unchanged_world(before: World, after: World) -> bool {
    &&& after.npcs@ == before.npcs@
    &&& after == (World { npcs: after.npcs, ..before })
}

/// Counts an event in the year's statistics and logs it in the world.
pub fn announce(world: &mut World, statistics: &mut YearStatistics, event: WorldEvent)
    ensures
        noted(*old(world), *final(world), event),
        *final(statistics) == after_event(*old(statistics), event),
{
    statistics.record_event(&event);
    world.push_event(event);
}

/// The event log after each of the events is logged in turn.
pub open spec fn logged_all(log: Seq<WorldEvent>, events: Seq<WorldEvent>) -> Seq<WorldEvent>
    decreases events.len(),
{
    if events.len() == 0 {
        log
    } else {
        logged(logged_all(log, events.drop_last()), events.last())
    }
}

/// The year's statistics after each of the events is counted in turn.
pub open spec fn counted_all(statistics: YearStatistics, events: Seq<WorldEvent>) -> YearStatistics
    decreases events.len(),
{
    if events.len() == 0 {
        statistics
    } else {
        after_event(counted_all(statistics, events.drop_last()), events.last())
    }
}

/// The events stamped with a year and month.
pub open spec fn stamped(year: u64, month: u8, events: Seq<WorldEvent>) -> Seq<TimedWorldEvent> {
    events.map_values(|event: WorldEvent| TimedWorldEvent { year, month, event })
}

/// `after` is `before` with the events logged in turn, and nothing else changed.
pub open spec fn noted_all(before: World, after: World, events: Seq<WorldEvent>) -> bool {
    &&& after.important_events@ == logged_all(before.important_events@, events)
    &&& after.year_events@ == (if before.capture_year_events {
        before.year_events@ + stamped(before.year, before.month, events)
    } else {
        before.year_events@
    })
    &&& after == (World { important_events: after.important_events, year_events: after.year_events, ..before })
}

/// One event more, logged after the others.
pub proof fn lemma_one_more_logged(log: Seq<WorldEvent>, events: Seq<WorldEvent>, event: WorldEvent)
    ensures
        logged_all(log, events.push(event)) == logged(logged_all(log, events), event),
        stamped_push_holds(events, event),
{
    assert(events.push(event).drop_last() =~= events);
    assert forall|year: u64, month: u8| #[trigger] stamped(year, month, events.push(event)) == stamped(
        year,
        month,
        events,
    ).push(TimedWorldEvent { year, month, event }) by {
        assert(stamped(year, month, events.push(event)) =~= stamped(year, month, events).push(
            TimedWorldEvent { year, month, event },
        ));
    }
}

/// Stamping one event more adds its stamped form at the end.
pub open spec fn stamped_push_holds(events: Seq<WorldEvent>, event: WorldEvent) -> bool {
    forall|year: u64, month: u8|
        #[trigger] stamped(year, month, events.push(event)) == stamped(year, month, events).push(
            TimedWorldEvent { year, month, event },
        )
}

/// One event more, counted after the others.
pub proof fn lemma_one_more_counted(statistics: YearStatistics, events: Seq<WorldEvent>, event: WorldEvent)
    ensures
        counted_all(statistics, events.push(event)) == after_event(counted_all(statistics, events), event),
{
    assert(events.push(event).drop_last() =~= events);
}

/// An event logged on its own before others is the same as logging them all in turn.
pub proof fn lemma_logged_first(log: Seq<WorldEvent>, first: WorldEvent, events: Seq<WorldEvent>)
    ensures
        logged_all(log, seq![first] + events) == logged_all(logged(log, first), events),
        forall|year: u64, month: u8|
            #[trigger] stamped(year, month, seq![first] + events) == seq![TimedWorldEvent { year, month, event: first }]
                + stamped(year, month, events),
    decreases events.len(),
{
    let all = seq![first] + events;
    if events.len() == 0 {
        assert(all =~= seq![first]);
        assert(all.drop_last() =~= Seq::<WorldEvent>::empty());
        assert(all.last() == first);
        assert(logged_all(log, all) == logged(logged_all(log, all.drop_last()), all.last()));
    } else {
        lemma_logged_first(log, first, events.drop_last());
        assert(all.drop_last() =~= seq![first] + events.drop_last());
        assert(all.last() == events.last());
        assert(logged_all(log, all) == logged(logged_all(log, all.drop_last()), all.last()));
    }
    assert forall|year: u64, month: u8| #[trigger] stamped(year, month, seq![first] + events) == seq![
        TimedWorldEvent { year, month, event: first },
    ] + stamped(year, month, events) by {
        assert(stamped(year, month, seq![first] + events) =~= seq![TimedWorldEvent { year, month, event: first }]
            + stamped(year, month, events));
    }
}

/// Logs each of the events in turn.
pub fn log_all(world: &mut World, events: &Vec<WorldEvent>)
    ensures
        noted_all(*old(world), *final(world), events@),
{
    let ghost start = *world;
    let mut k: usize = 0;
    while k < events.len()
        invariant
            k <= events@.len(),
            noted_all(start, *world, events@.take(k as int)),
        decreases events.len() - k,
    {
        let event = events[k];
        proof {
            assert(events@.take(k as int + 1).drop_last() =~= events@.take(k as int));
            assert(stamped(start.year, start.month, events@.take(k as int + 1)) =~= stamped(
                start.year,
                start.month,
                events@.take(k as int),
            ).push(TimedWorldEvent { year: start.year, month: start.month, event }));
        }
        world.push_event(event);
        k = k + 1;
    }
    proof {
        assert(events@.take(events@.len() as int) =~= events@);
    }
}

/// Counts each of the events in the year's statistics and logs it, in turn.
pub fn announce_all(world: &mut World, statistics: &mut YearStatistics, events: &Vec<WorldEvent>)
    ensures
        noted_all(*old(world), *final(world), events@),
        *final(statistics) == counted_all(*old(statistics), events@),
{
    let ghost start = *statistics;
    let mut k: usize = 0;
    while k < events.len()
        invariant
            k <= events@.len(),
            *statistics == counted_all(start, events@.take(k as int)),
        decreases events.len() - k,
    {
        proof {
            assert(events@.take(k as int + 1).drop_last() =~= events@.take(k as int));
        }
        statistics.record_event(&events[k]);
        k = k + 1;
    }
    proof {
        assert(events@.take(events@.len() as int) =~= events@);
    }
    log_all(world, events);
}

/// Whether `change_goal` changes the NPC's goal.
pub open spec fn goal_would_change(world: World, id: NpcId, new_goal: GoalKind, major: bool, cooldown_years: u16) -> bool {
    &&& npc_at(world.npcs@, id)
    &&& world.npcs@[id.0 as int].goal.kind != new_goal
    &&& world.npcs@[id.0 as int].goal.may_change(world.year, cooldown_years, major)
}

/// Moves an NPC to a new goal when the goal differs and may change (after the cooldown,
/// or at once for a major event); the change is counted and logged.
pub fn change_goal(
    world: &mut World,
    id: NpcId,
    new_goal: GoalKind,
    major: bool,
    cooldown_years: u16,
    statistics: &mut YearStatistics,
) -> (changed: bool)
    ensures
        changed == goal_would_change(*old(world), id, new_goal, major, cooldown_years),
        !changed ==> unchanged_world(*old(world), *final(world)) && *final(statistics) == *old(statistics),
        changed ==> {
            let before = old(world).npcs@[id.0 as int];
            let event = WorldEvent::GoalChanged { npc: id, old: before.goal.kind, new: new_goal };
            &&& noted(World { npcs: final(world).npcs, ..*old(world) }, *final(world), event)
            &&& final(world).npcs@ == old(world).npcs@.update(
                id.0 as int,
                Npc {
                    goal: Goal { kind: new_goal, progress_bits: MIN_GOAL_PROGRESS_BITS, since_year: old(world).year },
                    ..before
                },
            )
            &&& *final(statistics) == after_event(*old(statistics), event)
        },
{
    let year = world.year;
    let old_kind = match world.npc(id) {
        Some(npc) => npc.goal.kind,
        None => return false,
    };
    let ghost start = *world;
    let changed = match world.npc_mut(id) {
        Some(npc) => npc.change_goal(new_goal, year, cooldown_years, major),
        None => false,
    };
    if changed {
        let ghost mid = *world;
        announce(world, statistics, WorldEvent::GoalChanged { npc: id, old: old_kind, new: new_goal });
        assert(mid == (World { npcs: mid.npcs, ..start }));
    } else {
        assert(world.npcs@ =~= start.npcs@);
    }
    changed
}


/// Every belief of every NPC is within its range.
pub open spec fn all_beliefs_valid(npcs: Seq<Npc>) -> bool {
    forall|n: int, i: int|
        0 <= n < npcs.len() && 0 <= i < npcs[n].beliefs@.len() ==> (#[trigger] npcs[n].beliefs@[i]).valid()
}

/// Whether `change_belief` changes beliefs: a held kind moves by the (limited) change,
/// a new kind is added at strength five while there is room.
pub open spec fn belief_would_change(beliefs: Seq<Belief>, kind: BeliefKind, change: i8, max_beliefs: usize) -> bool {
    if holds_kind(beliefs, kind) {
        adjusted_strength(strength_of(beliefs, kind), change) != strength_of(beliefs, kind)
    } else {
        beliefs.len() < max_beliefs && beliefs.len() < MAX_BELIEFS
    }
}

/// The beliefs after `change_belief`.
pub open spec fn beliefs_after_change(beliefs: Seq<Belief>, kind: BeliefKind, change: i8, max_beliefs: usize) -> Seq<Belief> {
    if holds_kind(beliefs, kind) {
        let i = choose|i: int| first_of_kind(beliefs, kind, i);
        beliefs.update(i, Belief { kind, strength: adjusted_strength(beliefs[i].strength, change) })
    } else if beliefs.len() < max_beliefs && beliefs.len() < MAX_BELIEFS {
        beliefs.push(Belief { kind, strength: 5 })
    } else {
        beliefs
    }
}

/// Strengthens or weakens a belief the NPC holds, or takes up a new one at strength five
/// while it holds fewer than `max_beliefs` (and three); a change is counted and logged.
pub fn change_belief(
    world: &mut World,
    id: NpcId,
    kind: BeliefKind,
    change: i8,
    max_beliefs: usize,
    statistics: &mut YearStatistics,
) -> (changed: bool)
    requires
        all_beliefs_valid(old(world).npcs@),
    ensures
        changed == (npc_at(old(world).npcs@, id) && belief_would_change(
            old(world).npcs@[id.0 as int].beliefs@,
            kind,
            change,
            max_beliefs,
        )),
        all_beliefs_valid(final(world).npcs@),
        final(world).npcs@.len() == old(world).npcs@.len(),
        forall|j: int|
            0 <= j < old(world).npcs@.len() && j != id.0 ==> #[trigger] final(world).npcs@[j] == old(world).npcs@[j],
        forall|j: int|
            0 <= j < old(world).npcs@.len() ==> #[trigger] final(world).npcs@[j] == (Npc {
                beliefs: final(world).npcs@[j].beliefs,
                ..old(world).npcs@[j]
            }),
        npc_at(old(world).npcs@, id) ==> final(world).npcs@[id.0 as int].beliefs@ == beliefs_after_change(
            old(world).npcs@[id.0 as int].beliefs@,
            kind,
            change,
            max_beliefs,
        ),
        !npc_at(old(world).npcs@, id) ==> final(world).npcs@ == old(world).npcs@,
        !changed ==> *final(world) == (World { npcs: final(world).npcs, ..*old(world) }) && *final(statistics)
            == *old(statistics),
        changed ==> {
            let event = WorldEvent::BeliefChanged { npc: id, belief: kind };
            &&& noted(World { npcs: final(world).npcs, ..*old(world) }, *final(world), event)
            &&& *final(statistics) == after_event(*old(statistics), event)
        },
{
    let room: usize = if max_beliefs < MAX_BELIEFS {
        max_beliefs
    } else {
        MAX_BELIEFS
    };
    let ghost start = *world;
    if world.npc(id).is_none() {
        return false;
    }
    let ghost before = start.npcs@[id.0 as int];
    let changed = match world.npc_mut(id) {
        Some(npc) => {
            assert(forall|i: int| 0 <= i < npc.beliefs@.len() ==> (#[trigger] npc.beliefs@[i]).valid()) by {
                assert forall|i: int| 0 <= i < npc.beliefs@.len() implies (#[trigger] npc.beliefs@[i]).valid() by {
                    assert(start.npcs@[id.0 as int].beliefs@[i].valid());
                }
            }
            match npc.adjust_belief(kind, change) {
                Some(applied) => {
                    proof {
                        let i = choose|i: int|
                            first_of_kind(before.beliefs@, kind, i) && npc.beliefs@ == before.beliefs@.update(
                                i,
                                Belief { kind, strength: adjusted_strength(before.beliefs@[i].strength, change) },
                            ) && applied == (crate::belief::as_signed_byte(
                                adjusted_strength(before.beliefs@[i].strength, change),
                            ) - crate::belief::as_signed_byte(before.beliefs@[i].strength)) as i8;
                        lemma_first_of_kind_unique(before.beliefs@, kind, i);
                        assert(before.beliefs@[i].valid());
                        if applied == 0 {
                            assert(npc.beliefs@ =~= before.beliefs@);
                        }
                    }
                    applied != 0
                },
                None => {
                    if npc.beliefs.len() < room {
                        npc.add_belief(Belief::new(kind, 5))
                    } else {
                        false
                    }
                },
            }
        },
        None => false,
    };
    proof {
        assert forall|n: int, i: int|
            0 <= n < world.npcs@.len() && 0 <= i < world.npcs@[n].beliefs@.len() implies (
            #[trigger] world.npcs@[n].beliefs@[i]).valid() by {
            if n != id.0 {
                assert(start.npcs@[n].beliefs@[i].valid());
            } else if i < before.beliefs@.len() {
                assert(before.beliefs@[i].valid());
            }
        }
    }
    if changed {
        let ghost mid = *world;
        announce(world, statistics, WorldEvent::BeliefChanged { npc: id, belief: kind });
        assert(mid == (World { npcs: mid.npcs, ..start }));
    }
    changed
}


/// Those who grieve an NPC's death: its parents, children, partner, and everyone it holds
/// a strong relationship with.
pub open spec fn in_family_of(npc: Npc, other: NpcId) -> bool {
    ||| npc.parents@.contains(other)
    ||| npc.children@.contains(other)
    ||| npc.relationships@.contains_key(other) && npc.relationships@[other].strong()
    ||| npc.partner == Some(other)
}

/// The NPC's family in the sense of `in_family_of`, ascending and without repeats.
pub fn affected_family(npc: &Npc) -> (family: Vec<NpcId>)
    ensures
        npc_ids_sorted(family@),
        forall|other: NpcId| #[trigger] family@.contains(other) <==> in_family_of(*npc, other),
{
    let mut family: Vec<NpcId> = Vec::new();
    let mut k: usize = 0;
    while k < npc.parents.len()
        invariant
            k <= npc.parents@.len(),
            npc_ids_sorted(family@),
            forall|other: NpcId| #[trigger] family@.contains(other) <==> exists|i: int|
                0 <= i < k && #[trigger] npc.parents@[i] == other,
        decreases npc.parents.len() - k,
    {
        insert_npc_id(&mut family, npc.parents[k]);
        k = k + 1;
    }
    k = 0;
    while k < npc.children.len()
        invariant
            k <= npc.children@.len(),
            npc_ids_sorted(family@),
            forall|other: NpcId| #[trigger] family@.contains(other) <==> (npc.parents@.contains(other) || exists|i: int|
                0 <= i < k && #[trigger] npc.children@[i] == other),
        decreases npc.children.len() - k,
    {
        insert_npc_id(&mut family, npc.children[k]);
        k = k + 1;
    }
    let entries = npc.relationships.entries();
    proof {
        npc.relationships.lemma_key_order_is_domain();
    }
    k = 0;
    while k < entries.len()
        invariant
            k <= entries@.len(),
            entries@.len() == npc.relationships.key_order().len(),
            forall|i: int| 0 <= i < entries@.len() ==> (#[trigger] entries@[i]).0 == npc.relationships.key_order()[i]
                && npc.relationships@.contains_key(entries@[i].0) && entries@[i].1 == npc.relationships@[entries@[i].0],
            npc_ids_sorted(family@),
            forall|other: NpcId| #[trigger] family@.contains(other) <==> (npc.parents@.contains(other)
                || npc.children@.contains(other) || exists|i: int|
                0 <= i < k && entries@[i].0 == other && (#[trigger] entries@[i]).1.strong()),
        decreases entries.len() - k,
    {
        if entries[k].1.is_strong() {
            insert_npc_id(&mut family, entries[k].0);
        }
        k = k + 1;
    }
    match npc.partner {
        Some(partner) => insert_npc_id(&mut family, partner),
        None => {},
    }
    proof {
        assert forall|other: NpcId| #[trigger] family@.contains(other) <==> in_family_of(*npc, other) by {
            if npc.relationships@.contains_key(other) && npc.relationships@[other].strong() {
                assert(npc.relationships.key_order().contains(other));
                let i = choose|i: int| 0 <= i < npc.relationships.key_order().len() && npc.relationships.key_order()[i] == other;
                assert(entries@[i].0 == other);
            }
        }
    }
    family
}


/// Who is alive, in the world and partnered with whom is the same in both.
pub open spec fn lives_kept(before: Seq<Npc>, after: Seq<Npc>) -> bool {
    &&& after.len() == before.len()
    &&& forall|j: int|
        0 <= j < before.len() ==> {
            &&& (#[trigger] after[j]).id == before[j].id
            &&& after[j].alive == before[j].alive
            &&& after[j].in_world == before[j].in_world
            &&& after[j].partner == before[j].partner
        }
}

/// The statistics agree but for the counts of goal and belief changes.
pub open spec fn counts_agree_but_changes(before: YearStatistics, after: YearStatistics) -> bool {
    after == (YearStatistics { goal_changes: after.goal_changes, belief_changes: after.belief_changes, ..before })
}

/// Only the NPCs and the event logs of the world differ.
pub open spec fn only_npcs_and_events(before: World, after: World) -> bool {
    after == (World {
        npcs: after.npcs,
        important_events: after.important_events,
        year_events: after.year_events,
        ..before
    })
}

/// The NPC with this id is in the world and active.
pub open spec fn active_in(npcs: Seq<Npc>) -> spec_fn(NpcId) -> bool {
    |id: NpcId| npc_at(npcs, id) && npcs[id.0 as int].active()
}

/// Each active NPC among `relatives` takes protecting the family as its goal (a major
/// event) and is strengthened in that belief.
pub fn grieve(
    world: &mut World,
    relatives: &Vec<NpcId>,
    cooldown_years: u16,
    max_beliefs: usize,
    statistics: &mut YearStatistics,
)
    requires
        all_beliefs_valid(old(world).npcs@),
    ensures
        all_beliefs_valid(final(world).npcs@),
        lives_kept(old(world).npcs@, final(world).npcs@),
        only_listed_minds_change(old(world).npcs@, final(world).npcs@, relatives@.filter(active_in(old(world).npcs@))),
        relatives@.no_duplicates() ==> alarm_reached(
            *old(world),
            *final(world),
            relatives@.filter(active_in(old(world).npcs@)),
            GoalKind::ProtectFamily,
            BeliefKind::ProtectFamily,
            1,
            max_beliefs,
        ),
        relatives@.no_duplicates() ==> {
            let events = alarm_events(
                old(world).npcs@,
                relatives@.filter(active_in(old(world).npcs@)),
                GoalKind::ProtectFamily,
                BeliefKind::ProtectFamily,
                1,
                max_beliefs,
            );
            &&& noted_all((World { npcs: final(world).npcs, ..*old(world) }), *final(world), events)
            &&& *final(statistics) == counted_all(*old(statistics), events)
        },
        counts_agree_but_changes(*old(statistics), *final(statistics)),
        only_npcs_and_events(*old(world), *final(world)),
{
    let ghost start = *world;
    let ghost keep = active_in(world.npcs@);
    let mut active: Vec<NpcId> = Vec::new();
    let mut k: usize = 0;
    while k < relatives.len()
        invariant
            k <= relatives@.len(),
            keep == active_in(world.npcs@),
            active@ == relatives@.take(k as int).filter(keep),
        decreases relatives.len() - k,
    {
        let relative = relatives[k];
        proof {
            assert(relatives@.take(k as int + 1) =~= relatives@.take(k as int).push(relative));
            relatives@.take(k as int).lemma_filter_push(relative, keep);
        }
        let is_active = match world.npc(relative) {
            Some(npc) => npc.is_active(),
            None => false,
        };
        if is_active {
            active.push(relative);
        }
        k = k + 1;
    }
    proof {
        assert(relatives@.take(relatives@.len() as int) =~= relatives@);
        if relatives@.no_duplicates() {
            lemma_filter_distinct(relatives@, keep);
        }
    }
    alarm(world, &active, GoalKind::ProtectFamily, BeliefKind::ProtectFamily, 1, cooldown_years, max_beliefs, statistics);
    proof {
        assert forall|j: int| 0 <= j < start.npcs@.len() implies {
            &&& (#[trigger] world.npcs@[j]).id == start.npcs@[j].id
            &&& world.npcs@[j].alive == start.npcs@[j].alive
            &&& world.npcs@[j].in_world == start.npcs@[j].in_world
            &&& world.npcs@[j].partner == start.npcs@[j].partner
        } by {
            assert(world.npcs@[j] == (Npc { goal: world.npcs@[j].goal, beliefs: world.npcs@[j].beliefs, ..start.npcs@[j] }));
        }
    }
}


/// The family of an NPC in the sense of `in_family_of`, ascending by id.
pub open spec fn family_list(npc: Npc) -> Seq<NpcId> {
    choose|ids: Seq<NpcId>| npc_ids_sorted(ids) && forall|x: NpcId| #[trigger] ids.contains(x) <==> in_family_of(npc, x)
}

/// Two strictly ascending id lists with the same members are the same list.
pub proof fn lemma_sorted_ids_equal(s: Seq<NpcId>, t: Seq<NpcId>)
    requires
        npc_ids_sorted(s),
        npc_ids_sorted(t),
        forall|x: NpcId| s.contains(x) <==> t.contains(x),
    ensures
        s == t,
    decreases s.len(),
{
    if s.len() == 0 {
        if t.len() > 0 {
            assert(t.contains(t[0]));
        }
        assert(t =~= s);
    } else {
        assert(s.contains(s[0]));
        assert(t.contains(s[0]));
        assert(t.contains(t[0]));
        assert(s.contains(t[0]));
        let j = choose|j: int| 0 <= j < t.len() && t[j] == s[0];
        let i = choose|i: int| 0 <= i < s.len() && s[i] == t[0];
        if j > 0 {
            assert(t[0].0 < t[j].0);
            if i > 0 {
                assert(s[0].0 < s[i].0);
            }
        }
        assert(s[0] == t[0]);
        let s1 = s.drop_first();
        let t1 = t.drop_first();
        assert forall|x: NpcId| s1.contains(x) <==> t1.contains(x) by {
            if s1.contains(x) {
                let a = choose|a: int| 0 <= a < s1.len() && s1[a] == x;
                assert(s[a + 1] == x);
                assert(s[0].0 < s[a + 1].0);
                assert(t.contains(x));
                let b = choose|b: int| 0 <= b < t.len() && t[b] == x;
                assert(b != 0);
                assert(t1[b - 1] == x);
            }
            if t1.contains(x) {
                let a = choose|a: int| 0 <= a < t1.len() && t1[a] == x;
                assert(t[a + 1] == x);
                assert(t[0].0 < t[a + 1].0);
                assert(s.contains(x));
                let b = choose|b: int| 0 <= b < s.len() && s[b] == x;
                assert(b != 0);
                assert(s1[b - 1] == x);
            }
        }
        lemma_sorted_ids_equal(s1, t1);
        assert(s =~= seq![s[0]] + s1);
        assert(t =~= seq![t[0]] + t1);
    }
}

/// An NPC once it has died: neither alive nor in the world, in no particular state and
/// without partner.
pub open spec fn deceased(npc: Npc) -> Npc {
    Npc { alive: false, in_world: false, state: NpcState::Normal, partner: None, ..npc }
}

/// Index `j` holds the partner of `npc`, an NPC of the world.
pub open spec fn partner_slot(npcs: Seq<Npc>, npc: Npc, j: int) -> bool {
    match npc.partner {
        Some(partner) => npc_at(npcs, partner) && partner.0 == j,
        None => false,
    }
}

/// The partner of a deceased NPC after the death: released if it was partnered with the
/// deceased, and holding the deceased as family if it had a relationship with it; nothing
/// else of it changes.
pub open spec fn widowed(before: Npc, after: Npc, deceased_id: NpcId) -> bool {
    &&& after.partner == (if before.partner == Some(deceased_id) { None } else { before.partner })
    &&& after.relationships@ == (if deceased_id != before.id && before.relationships@.contains_key(deceased_id) {
        before.relationships@.insert(
            deceased_id,
            Relationship { kind: RelationshipKind::Family, ..before.relationships@[deceased_id] },
        )
    } else {
        before.relationships@
    })
    &&& after == (Npc { partner: after.partner, relationships: after.relationships, ..before })
}

/// The world right after the NPC `id` dies, before anyone grieves: the NPC is deceased,
/// its partner is widowed, the death is logged, and nothing else changes.
pub open spec fn mourned(before: World, after: World, id: NpcId) -> bool {
    let dead = before.npcs@[id.0 as int];
    &&& after.npcs@.len() == before.npcs@.len()
    &&& after.npcs@[id.0 as int] == deceased(dead)
    &&& forall|j: int|
        0 <= j < before.npcs@.len() && j != id.0 ==> if partner_slot(before.npcs@, dead, j) {
            widowed(before.npcs@[j], #[trigger] after.npcs@[j], id)
        } else {
            after.npcs@[j] == before.npcs@[j]
        }
    &&& noted((World { npcs: after.npcs, ..before }), after, WorldEvent::Death { npc: id })
}

/// After `mourning`, the active members of the family of `dead` take protecting the
/// family as goal (a major event) and are strengthened in that belief by one; the changes
/// are logged and counted, and nothing else changes.
pub open spec fn grieved(
    mourning: World,
    after: World,
    dead: Npc,
    max_beliefs: usize,
    before_statistics: YearStatistics,
    after_statistics: YearStatistics,
) -> bool {
    let listed = family_list(dead).filter(active_in(mourning.npcs@));
    let events = alarm_events(
        mourning.npcs@,
        listed,
        GoalKind::ProtectFamily,
        BeliefKind::ProtectFamily,
        1,
        max_beliefs,
    );
    &&& only_listed_minds_change(mourning.npcs@, after.npcs@, listed)
    &&& alarm_reached(mourning, after, listed, GoalKind::ProtectFamily, BeliefKind::ProtectFamily, 1, max_beliefs)
    &&& noted_all((World { npcs: after.npcs, ..mourning }), after, events)
    &&& after_statistics == counted_all(before_statistics, events)
}

/// One entry of a batch of deaths, committed: an NPC that is in the world and active dies
/// (`mourned`), the death is counted by its cause, and its family grieves (`grieved`);
/// any other entry changes nothing.
pub open spec fn death_committed(
    before: World,
    before_statistics: YearStatistics,
    death: (NpcId, DeathCause),
    max_beliefs: usize,
    after: World,
    after_statistics: YearStatistics,
) -> bool {
    let id = death.0;
    if npc_at(before.npcs@, id) && before.npcs@[id.0 as int].active() {
        exists|mourning: World|
            #[trigger] mourned(before, mourning, id) && grieved(
                mourning,
                after,
                before.npcs@[id.0 as int],
                max_beliefs,
                after_death(before_statistics, death.1),
                after_statistics,
            )
    } else {
        after == before && after_statistics == before_statistics
    }
}

/// Step `k` of the chain of states commits entry `k` of the deaths.
pub open spec fn death_step(
    chain: Seq<(World, YearStatistics)>,
    deaths: Seq<(NpcId, DeathCause)>,
    max_beliefs: usize,
    k: int,
) -> bool {
    death_committed(chain[k].0, chain[k].1, deaths[k], max_beliefs, chain[k + 1].0, chain[k + 1].1)
}

/// The chain of world and statistics states that committing the deaths in order passes
/// through, from the first state to the last.
pub open spec fn deaths_committed(
    chain: Seq<(World, YearStatistics)>,
    deaths: Seq<(NpcId, DeathCause)>,
    max_beliefs: usize,
) -> bool {
    &&& chain.len() == deaths.len() + 1
    &&& forall|k: int| 0 <= k < deaths.len() ==> #[trigger] death_step(chain, deaths, max_beliefs, k)
}

/// Marks the active NPC `id` dead, widows its partner and logs the death.
fn bury(world: &mut World, id: NpcId)
    requires
        npc_at(old(world).npcs@, id),
        all_beliefs_valid(old(world).npcs@),
    ensures
        mourned(*old(world), *final(world), id),
        all_beliefs_valid(final(world).npcs@),
{
    let ghost start = *world;
    let ghost dead = world.npcs@[id.0 as int];
    let partner = match world.npc_mut(id) {
        Some(npc) => npc.mark_dead(),
        None => None,
    };
    let ghost marked = *world;
    assert(marked.npcs@ == start.npcs@.update(id.0 as int, deceased(dead)));
    match partner {
        Some(partner_id) => {
            if partner_id != id {
                match world.npc_mut(partner_id) {
                    Some(partner_npc) => {
                        partner_npc.clear_partner_if(id);
                        match partner_npc.relationship_mut(id) {
                            Some(relationship) => {
                                relationship.kind = RelationshipKind::Family;
                            },
                            None => {},
                        }
                    },
                    None => {},
                }
            }
        },
        None => {},
    }
    let ghost widowing = *world;
    proof {
        assert(widowing == (World { npcs: widowing.npcs, ..start }));
        assert(widowing.npcs@.len() == start.npcs@.len());
        assert forall|j: int| 0 <= j < start.npcs@.len() && j != id.0 implies if partner_slot(start.npcs@, dead, j) {
            widowed(start.npcs@[j], #[trigger] widowing.npcs@[j], id)
        } else {
            widowing.npcs@[j] == start.npcs@[j]
        } by {
            assert(marked.npcs@[j] == start.npcs@[j]);
        }
        assert(widowing.npcs@[id.0 as int] == deceased(dead));
    }
    world.push_event(WorldEvent::Death { npc: id });
    proof {
        assert forall|n: int, i: int|
            0 <= n < world.npcs@.len() && 0 <= i < world.npcs@[n].beliefs@.len() implies (
            #[trigger] world.npcs@[n].beliefs@[i]).valid() by {
            assert(world.npcs@[n].beliefs == start.npcs@[n].beliefs);
        }
    }
}

/// Entry `k` of `deaths` kills its NPC: one in the world, active at the start, and not
/// listed earlier.
pub open spec fn kills(npcs: Seq<Npc>, deaths: Seq<(NpcId, DeathCause)>, k: int) -> bool {
    &&& npc_at(npcs, deaths[k].0)
    &&& npcs[deaths[k].0.0 as int].active()
    &&& forall|m: int| 0 <= m < k ==> (#[trigger] deaths[m]).0 != deaths[k].0
}

/// The NPC stored at index `j` is killed by one of the first `n` entries.
pub open spec fn killed_by(npcs: Seq<Npc>, deaths: Seq<(NpcId, DeathCause)>, n: int, j: int) -> bool {
    exists|k: int| 0 <= k < n && #[trigger] kills(npcs, deaths, k) && deaths[k].0.0 == j
}

/// The statistics after the deaths of the first `n` entries are counted.
pub open spec fn death_tally(
    statistics: YearStatistics,
    npcs: Seq<Npc>,
    deaths: Seq<(NpcId, DeathCause)>,
    n: nat,
) -> YearStatistics
    decreases n,
{
    if n == 0 {
        statistics
    } else {
        let before = death_tally(statistics, npcs, deaths, (n - 1) as nat);
        if kills(npcs, deaths, n - 1) {
            after_death(before, deaths[n - 1].1)
        } else {
            before
        }
    }
}

proof fn lemma_first_listing(npcs: Seq<Npc>, deaths: Seq<(NpcId, DeathCause)>, k: int, id: NpcId)
    requires
        0 <= k <= deaths.len(),
        exists|m: int| 0 <= m < k && (#[trigger] deaths[m]).0 == id,
        npc_at(npcs, id),
        npcs[id.0 as int].active(),
    ensures
        exists|m: int| 0 <= m < k && #[trigger] kills(npcs, deaths, m) && deaths[m].0 == id,
    decreases k,
{
    if exists|m: int| 0 <= m < k - 1 && (#[trigger] deaths[m]).0 == id {
        lemma_first_listing(npcs, deaths, k - 1, id);
        let m = choose|m: int| 0 <= m < k - 1 && #[trigger] kills(npcs, deaths, m) && deaths[m].0 == id;
        assert(kills(npcs, deaths, m));
    } else {
        assert(kills(npcs, deaths, k - 1));
    }
}

/// A chain of committed deaths grows by one state that commits the next entry.
proof fn lemma_chain_push(
    chain: Seq<(World, YearStatistics)>,
    deaths: Seq<(NpcId, DeathCause)>,
    max_beliefs: usize,
    k: int,
    next: (World, YearStatistics),
)
    requires
        0 <= k < deaths.len(),
        chain.len() == k + 1,
        forall|m: int| 0 <= m < k ==> #[trigger] death_step(chain, deaths, max_beliefs, m),
        death_committed(chain[k].0, chain[k].1, deaths[k], max_beliefs, next.0, next.1),
    ensures
        forall|m: int| 0 <= m < k + 1 ==> #[trigger] death_step(chain.push(next), deaths, max_beliefs, m),
{
    assert forall|m: int| 0 <= m < k + 1 implies #[trigger] death_step(chain.push(next), deaths, max_beliefs, m) by {
        if m < k {
            assert(death_step(chain, deaths, max_beliefs, m));
            assert(chain.push(next)[m] == chain[m]);
            assert(chain.push(next)[m + 1] == chain[m + 1]);
        } else {
            assert(chain.push(next)[m] == chain[k]);
            assert(chain.push(next)[m + 1] == next);
        }
    }
}

/// Commits a batch of deaths. Each NPC that is in the world and active dies (once, at its
/// first entry): its partner is released and now holds it as family, the death is counted
/// by cause and logged, and its family takes protecting the family as goal and belief.
/// The active list is rebuilt afterwards.
#[verifier::spinoff_prover]
pub fn commit_deaths(
    world: &mut World,
    deaths: &Vec<(NpcId, DeathCause)>,
    cooldown_years: u16,
    max_beliefs: usize,
    statistics: &mut YearStatistics,
)
    requires
        all_beliefs_valid(old(world).npcs@),
    ensures
        all_beliefs_valid(final(world).npcs@),
        final(world).npcs@.len() == old(world).npcs@.len(),
        forall|j: int|
            0 <= j < old(world).npcs@.len() ==> {
                &&& (#[trigger] final(world).npcs@[j]).id == old(world).npcs@[j].id
                &&& killed_by(old(world).npcs@, deaths@, deaths@.len() as int, j) ==> !final(world).npcs@[j].alive
                    && !final(world).npcs@[j].in_world && final(world).npcs@[j].partner is None
                &&& !killed_by(old(world).npcs@, deaths@, deaths@.len() as int, j) ==> final(world).npcs@[j].alive
                    == old(world).npcs@[j].alive && final(world).npcs@[j].in_world == old(world).npcs@[j].in_world
                &&& final(world).npcs@[j].partner == old(world).npcs@[j].partner || final(world).npcs@[j].partner is None
            },
        final(world).active_npcs@ == active_ids(final(world).npcs@),
        *final(world) == (World {
            npcs: final(world).npcs,
            active_npcs: final(world).active_npcs,
            important_events: final(world).important_events,
            year_events: final(world).year_events,
            ..*old(world)
        }),
        counts_agree_but_changes(
            death_tally(*old(statistics), old(world).npcs@, deaths@, deaths@.len()),
            *final(statistics),
        ),
        exists|chain: Seq<(World, YearStatistics)>| {
            &&& #[trigger] deaths_committed(chain, deaths@, max_beliefs)
            &&& chain[0] == (*old(world), *old(statistics))
            &&& *final(world) == (World { active_npcs: final(world).active_npcs, ..chain.last().0 })
            &&& *final(statistics) == chain.last().1
        },
{
    let ghost start = *world;
    let ghost start_statistics = *statistics;
    let ghost mut chain: Seq<(World, YearStatistics)> = seq![(*world, *statistics)];
    let mut k: usize = 0;
    while k < deaths.len()
        invariant
            k <= deaths@.len(),
            all_beliefs_valid(world.npcs@),
            world.npcs@.len() == start.npcs@.len(),
            forall|j: int|
                0 <= j < start.npcs@.len() ==> {
                    &&& (#[trigger] world.npcs@[j]).id == start.npcs@[j].id
                    &&& killed_by(start.npcs@, deaths@, k as int, j) ==> !world.npcs@[j].alive && !world.npcs@[j].in_world
                        && world.npcs@[j].partner is None
                    &&& !killed_by(start.npcs@, deaths@, k as int, j) ==> world.npcs@[j].alive == start.npcs@[j].alive
                        && world.npcs@[j].in_world == start.npcs@[j].in_world
                    &&& world.npcs@[j].partner == start.npcs@[j].partner || world.npcs@[j].partner is None
                },
            only_npcs_and_events(start, *world),
            counts_agree_but_changes(death_tally(start_statistics, start.npcs@, deaths@, k as nat), *statistics),
            chain.len() == k + 1,
            chain[0] == (start, start_statistics),
            chain[k as int] == (*world, *statistics),
            forall|m: int| 0 <= m < k ==> #[trigger] death_step(chain, deaths@, max_beliefs, m),
        decreases deaths.len() - k,
    {
        let (id, cause) = deaths[k];
        let ghost before = *world;
        let ghost before_statistics = *statistics;
        let found = world.npc(id);
        let family = match found {
            Some(npc) => {
                if !npc.is_active() {
                    proof {
                        if kills(start.npcs@, deaths@, k as int) {
                            assert(!killed_by(start.npcs@, deaths@, k as int, id.0 as int));
                        }
                        assert(!kills(start.npcs@, deaths@, k as int));
                        assert forall|j: int| 0 <= j < start.npcs@.len() implies killed_by(start.npcs@, deaths@, k + 1, j)
                            == killed_by(start.npcs@, deaths@, k as int, j) by {
                            if killed_by(start.npcs@, deaths@, k + 1, j) {
                                let m = choose|m: int| 0 <= m < k + 1 && #[trigger] kills(start.npcs@, deaths@, m)
                                    && deaths@[m].0.0 == j;
                                assert(m < k);
                            }
                        }
                    }
                    proof {
                        lemma_chain_push(chain, deaths@, max_beliefs, k as int, (*world, *statistics));
                        chain = chain.push((*world, *statistics));
                    }
                    k = k + 1;
                    continue;
                }
                affected_family(npc)
            },
            None => {
                proof {
                    assert(!kills(start.npcs@, deaths@, k as int));
                    assert forall|j: int| 0 <= j < start.npcs@.len() implies killed_by(start.npcs@, deaths@, k + 1, j)
                        == killed_by(start.npcs@, deaths@, k as int, j) by {
                        if killed_by(start.npcs@, deaths@, k + 1, j) {
                            let m = choose|m: int| 0 <= m < k + 1 && #[trigger] kills(start.npcs@, deaths@, m)
                                && deaths@[m].0.0 == j;
                            assert(m < k);
                        }
                    }
                }
                proof {
                    lemma_chain_push(chain, deaths@, max_beliefs, k as int, (*world, *statistics));
                    chain = chain.push((*world, *statistics));
                }
                k = k + 1;
                continue;
            },
        };
        proof {
            if exists|m: int| 0 <= m < k && (#[trigger] deaths@[m]).0 == id {
                lemma_first_listing(start.npcs@, deaths@, k as int, id);
                let m = choose|m: int| 0 <= m < k && #[trigger] kills(start.npcs@, deaths@, m) && deaths@[m].0 == id;
                assert(killed_by(start.npcs@, deaths@, k as int, id.0 as int));
            }
            assert(kills(start.npcs@, deaths@, k as int));
        }
        let ghost dead = world.npcs@[id.0 as int];
        proof {
            let chosen = family_list(dead);
            assert(npc_ids_sorted(chosen) && forall|x: NpcId| #[trigger] chosen.contains(x) <==> in_family_of(dead, x));
            lemma_sorted_ids_equal(family@, chosen);
            assert(family@.no_duplicates());
        }
        bury(world, id);
        statistics.record_death(cause);
        let ghost mourning = *world;
        let ghost mourning_statistics = *statistics;
        grieve(world, &family, cooldown_years, max_beliefs, statistics);
        proof {
            assert forall|j: int| 0 <= j < start.npcs@.len() implies killed_by(start.npcs@, deaths@, k + 1, j) == (
            killed_by(start.npcs@, deaths@, k as int, j) || j == id.0) by {
                if killed_by(start.npcs@, deaths@, k + 1, j) {
                    let m = choose|m: int| 0 <= m < k + 1 && #[trigger] kills(start.npcs@, deaths@, m) && deaths@[m].0.0
                        == j;
                    if m < k {
                        assert(killed_by(start.npcs@, deaths@, k as int, j));
                    }
                }
                if j == id.0 {
                    assert(kills(start.npcs@, deaths@, k as int));
                }
            }
            assert(death_tally(start_statistics, start.npcs@, deaths@, (k + 1) as nat) == after_death(
                death_tally(start_statistics, start.npcs@, deaths@, k as nat),
                cause,
            ));
        }
        proof {
            assert(mourned(before, mourning, id));
            lemma_chain_push(chain, deaths@, max_beliefs, k as int, (*world, *statistics));
            chain = chain.push((*world, *statistics));
        }
        k = k + 1;
    }
    world.rebuild_active_npcs();
    proof {
        assert(deaths_committed(chain, deaths@, max_beliefs));
    }
}


/// The order in which surplus relationships are dropped: lowest relation first, then the
/// oldest last interaction (year, then month), then the lowest id.
pub open spec fn drops_before(a: Relationship, a_id: NpcId, b: Relationship, b_id: NpcId) -> bool {
    ||| a.relation < b.relation
    ||| a.relation == b.relation && a.last_interaction_year < b.last_interaction_year
    ||| a.relation == b.relation && a.last_interaction_year == b.last_interaction_year && a.last_interaction_month
        < b.last_interaction_month
    ||| a.relation == b.relation && a.last_interaction_year == b.last_interaction_year && a.last_interaction_month
        == b.last_interaction_month && a_id.0 < b_id.0
}

fn drops_first(a: &Relationship, a_id: NpcId, b: &Relationship, b_id: NpcId) -> (first: bool)
    ensures
        first == drops_before(*a, a_id, *b, b_id),
{
    if a.relation != b.relation {
        a.relation < b.relation
    } else if a.last_interaction_year != b.last_interaction_year {
        a.last_interaction_year < b.last_interaction_year
    } else if a.last_interaction_month != b.last_interaction_month {
        a.last_interaction_month < b.last_interaction_month
    } else {
        a_id.0 < b_id.0
    }
}

/// A relationship that the limit may drop: one that is not family or partner.
pub open spec fn droppable(relationships: Map<NpcId, Relationship>, other: NpcId) -> bool {
    relationships.contains_key(other) && !relationships[other].kind.permanent()
}

/// The droppable relationship that comes first in the drop order, if any.
fn first_droppable(npc: &Npc) -> (found: Option<NpcId>)
    ensures
        found is None ==> forall|other: NpcId| !droppable(npc.relationships@, other),
        found matches Some(first) ==> droppable(npc.relationships@, first) && forall|other: NpcId|
            droppable(npc.relationships@, other) && other != first ==> drops_before(
                npc.relationships@[first],
                first,
                #[trigger] npc.relationships@[other],
                other,
            ),
{
    let entries = npc.relationships.entries();
    proof {
        npc.relationships.lemma_key_order_is_domain();
    }
    let ghost keys = npc.relationships.key_order();
    let mut best: Option<usize> = None;
    let mut i: usize = 0;
    while i < entries.len()
        invariant
            i <= entries@.len(),
            entries@.len() == keys.len(),
            forall|j: int| 0 <= j < entries@.len() ==> (#[trigger] entries@[j]).0 == keys[j]
                && npc.relationships@.contains_key(entries@[j].0) && entries@[j].1 == npc.relationships@[entries@[j].0],
            best is None ==> forall|j: int| 0 <= j < i ==> (#[trigger] entries@[j]).1.kind.permanent(),
            best matches Some(b) ==> b < i && !entries@[b as int].1.kind.permanent() && forall|j: int|
                0 <= j < i && j != b && !(#[trigger] entries@[j]).1.kind.permanent() ==> drops_before(
                    entries@[b as int].1,
                    entries@[b as int].0,
                    entries@[j].1,
                    entries@[j].0,
                ) || entries@[j].0 == entries@[b as int].0,
        decreases entries.len() - i,
    {
        if !entries[i].1.is_permanent() {
            match best {
                None => {
                    best = Some(i);
                },
                Some(b) => {
                    if drops_first(&entries[i].1, entries[i].0, &entries[b].1, entries[b].0) {
                        best = Some(i);
                    }
                },
            }
        }
        i = i + 1;
    }
    match best {
        None => {
            proof {
                assert forall|other: NpcId| !droppable(npc.relationships@, other) by {
                    if droppable(npc.relationships@, other) {
                        let j = choose|j: int| 0 <= j < keys.len() && keys[j] == other;
                        assert(entries@[j].1.kind.permanent());
                    }
                }
            }
            None
        },
        Some(b) => {
            proof {
                assert forall|other: NpcId|
                    droppable(npc.relationships@, other) && other != entries@[b as int].0 implies drops_before(
                    npc.relationships@[entries@[b as int].0],
                    entries@[b as int].0,
                    #[trigger] npc.relationships@[other],
                    other,
                ) by {
                    let j = choose|j: int| 0 <= j < keys.len() && keys[j] == other;
                    assert(entries@[j].0 == other);
                }
            }
            Some(entries[b].0)
        },
    }
}


/// An NPC's relationships after the one with `id` is dropped from its side, unless that
/// one is permanent.
pub open spec fn released(relationships: Map<NpcId, Relationship>, id: NpcId) -> Map<NpcId, Relationship> {
    if relationships.contains_key(id) && relationships[id].kind.permanent() {
        relationships
    } else {
        relationships.remove(id)
    }
}

/// The relationship limit: at least one.
pub open spec fn effective_limit(limit: usize) -> int {
    if limit == 0 {
        1
    } else {
        limit as int
    }
}

/// Keeps an NPC within the relationship limit (at least one): while it has too many, the
/// droppable relationship first in the drop order goes, on its side and (unless permanent
/// there) on the other side. Family and partner ties are never dropped, so the limit may
/// stay exceeded. Returns the dropped ids in the order they went.
pub fn enforce_relationship_limit(world: &mut World, id: NpcId, limit: usize) -> (dropped: Vec<NpcId>)
    ensures
        !npc_at(old(world).npcs@, id) ==> dropped@.len() == 0 && unchanged_world(*old(world), *final(world)),
        npc_at(old(world).npcs@, id) ==> {
            let before = old(world).npcs@[id.0 as int].relationships@;
            let surplus = before.len() - effective_limit(limit);
            &&& dropped@.no_duplicates()
            &&& forall|x: NpcId| #[trigger] dropped@.contains(x) ==> droppable(before, x)
            &&& surplus <= 0 ==> dropped@.len() == 0
            &&& surplus > 0 ==> dropped@.len() <= surplus && (dropped@.len() == surplus || forall|y: NpcId|
                droppable(before, y) ==> dropped@.contains(y))
            &&& forall|x: NpcId, y: NpcId|
                #![trigger dropped@.contains(x), before[y]]
                dropped@.contains(x) && droppable(before, y) && !dropped@.contains(y) ==> drops_before(
                    before[x],
                    x,
                    before[y],
                    y,
                )
            &&& final(world).npcs@.len() == old(world).npcs@.len()
            &&& final(world).npcs@[id.0 as int] == (Npc {
                relationships: final(world).npcs@[id.0 as int].relationships,
                ..old(world).npcs@[id.0 as int]
            })
            &&& final(world).npcs@[id.0 as int].relationships@ == before.remove_keys(dropped@.to_set())
            &&& forall|j: int|
                0 <= j < old(world).npcs@.len() && j != id.0 ==> {
                    let other = old(world).npcs@[j];
                    &&& #[trigger] final(world).npcs@[j] == (Npc { relationships: final(world).npcs@[j].relationships, ..other })
                    &&& final(world).npcs@[j].relationships@ == if other.id.0 == j && dropped@.contains(other.id) {
                        released(other.relationships@, id)
                    } else {
                        other.relationships@
                    }
                }
            &&& *final(world) == (World { npcs: final(world).npcs, ..*old(world) })
        },
{
    let bound: usize = if limit == 0 {
        1
    } else {
        limit
    };
    let mut dropped: Vec<NpcId> = Vec::new();
    let count = match world.npc(id) {
        Some(npc) => npc.relationship_count(),
        None => return dropped,
    };
    if count <= bound {
        assert(dropped@.to_set() =~= Set::empty());
        assert(world.npcs@[id.0 as int].relationships@ =~= world.npcs@[id.0 as int].relationships@.remove_keys(
            Set::empty(),
        ));
        return dropped;
    }
    let surplus = count - bound;
    let ghost start = *world;
    let ghost before = start.npcs@[id.0 as int].relationships@;
    let mut exhausted = false;
    while !exhausted && dropped.len() < surplus
        invariant
            npc_at(start.npcs@, id),
            before == start.npcs@[id.0 as int].relationships@,
            world.npcs@.len() == start.npcs@.len(),
            forall|j: int| 0 <= j < start.npcs@.len() && j != id.0 ==> #[trigger] world.npcs@[j] == start.npcs@[j],
            world.npcs@[id.0 as int] == (Npc { relationships: world.npcs@[id.0 as int].relationships, ..start.npcs@[id.0 as int] }),
            world.npcs@[id.0 as int].relationships@ == before.remove_keys(dropped@.to_set()),
            *world == (World { npcs: world.npcs, ..start }),
            dropped@.len() <= surplus,
            dropped@.no_duplicates(),
            forall|x: NpcId| #[trigger] dropped@.contains(x) ==> droppable(before, x),
            forall|x: NpcId, y: NpcId|
                #![trigger dropped@.contains(x), before[y]]
                dropped@.contains(x) && droppable(before, y) && !dropped@.contains(y) ==> drops_before(
                    before[x],
                    x,
                    before[y],
                    y,
                ),
            exhausted ==> forall|y: NpcId| droppable(before, y) ==> dropped@.contains(y),
        decreases surplus - dropped@.len(), if exhausted {
            0int
        } else {
            1int
        },
    {
        let first = match world.npc(id) {
            Some(npc) => first_droppable(npc),
            None => None,
        };
        match first {
            None => {
                proof {
                    assert forall|y: NpcId| droppable(before, y) implies dropped@.contains(y) by {
                        if !dropped@.contains(y) {
                            assert(droppable(world.npcs@[id.0 as int].relationships@, y));
                        }
                    }
                }
                exhausted = true;
            },
            Some(other) => {
                proof {
                    assert(!dropped@.contains(other));
                }
                match world.npc_mut(id) {
                    Some(npc) => {
                        npc.remove_relationship(other);
                    },
                    None => {},
                }
                let ghost old_dropped = dropped@;
                let ghost current = world.npcs@[id.0 as int].relationships@;
                dropped.push(other);
                proof {
                    assert forall|x: NpcId| #[trigger] dropped@.contains(x) <==> (old_dropped.contains(x) || x == other) by {
                        if dropped@.contains(x) {
                            let i = choose|i: int| 0 <= i < dropped@.len() && dropped@[i] == x;
                            if i < old_dropped.len() {
                                assert(old_dropped[i] == x);
                            }
                        }
                        if old_dropped.contains(x) {
                            let i = choose|i: int| 0 <= i < old_dropped.len() && old_dropped[i] == x;
                            assert(dropped@[i] == x);
                        }
                        if x == other {
                            assert(dropped@[old_dropped.len() as int] == x);
                        }
                    }
                    assert(dropped@.to_set() =~= old_dropped.to_set().insert(other));
                    assert forall|x: NpcId, y: NpcId|
                        #![trigger dropped@.contains(x), before[y]]
                        dropped@.contains(x) && droppable(before, y) && !dropped@.contains(y) implies drops_before(
                        before[x],
                        x,
                        before[y],
                        y,
                    ) by {
                        if x == other {
                            assert(droppable(current, y));
                            assert(current[y] == before[y]);
                        } else {
                            assert(old_dropped.contains(x));
                        }
                    }
                    assert(world.npcs@[id.0 as int].relationships@ =~= before.remove_keys(dropped@.to_set()));
                    assert forall|x: NpcId| #[trigger] dropped@.contains(x) implies droppable(before, x) by {
                        if x != other {
                            assert(old_dropped.contains(x));
                        }
                    }
                }
            },
        }
    }
    proof {
        assert(dropped@.len() == surplus || exhausted);
    }
    let ghost phase_one = *world;
    let mut k: usize = 0;
    while k < dropped.len()
        invariant
            k <= dropped@.len(),
            npc_at(start.npcs@, id),
            dropped@.no_duplicates(),
            world.npcs@.len() == start.npcs@.len(),
            world.npcs@[id.0 as int] == phase_one.npcs@[id.0 as int],
            forall|j: int|
                0 <= j < start.npcs@.len() && j != id.0 ==> {
                    let other = start.npcs@[j];
                    &&& #[trigger] world.npcs@[j] == (Npc { relationships: world.npcs@[j].relationships, ..other })
                    &&& world.npcs@[j].relationships@ == if other.id.0 == j && exists|i: int|
                        0 <= i < k && #[trigger] dropped@[i] == other.id {
                        released(other.relationships@, id)
                    } else {
                        other.relationships@
                    }
                },
            *world == (World { npcs: world.npcs, ..start }),
        decreases dropped.len() - k,
    {
        let other = dropped[k];
        let target = if other == id {
            None
        } else {
            world.npc_mut(other)
        };
        match target {
            Some(other_npc) => {
                let permanent = match other_npc.relationship(id) {
                    Some(relationship) => relationship.is_permanent(),
                    None => false,
                };
                if !permanent {
                    other_npc.remove_relationship(id);
                }
            },
            None => {},
        }
        k = k + 1;
    }
    proof {
        assert forall|x: NpcId| #[trigger] dropped@.contains(x) <==> exists|i: int| 0 <= i < dropped@.len() && dropped@[i] == x by {
        }
    }
    dropped
}


/// How a social encounter moves the relation: up when the roll (out of a hundred) falls
/// below the affinity plus three, down when it lands above 96 less the missing affinity,
/// otherwise not at all.
pub open spec fn social_change(roll: u8, affinity: u8) -> i8 {
    let up_below = if affinity as int + 3 > 255 {
        255
    } else {
        affinity + 3
    };
    let missing = if affinity >= 10 {
        0
    } else {
        10 - affinity
    };
    if roll < up_below {
        1i8
    } else if roll > 96 - missing {
        -1i8
    } else {
        0i8
    }
}

pub fn social_delta(roll: u8, affinity: u8) -> (change: i8)
    ensures
        change == social_change(roll, affinity),
{
    if roll < affinity.saturating_add(3) {
        1
    } else if roll > 96u8.saturating_sub(10u8.saturating_sub(affinity)) {
        -1
    } else {
        0
    }
}

/// The chosen partner of a social encounter when it lives in the town (`local` is the
/// town's ascending resident list); otherwise a random resident must be drawn.
pub fn local_choice(local: &Vec<NpcId>, selected: Option<NpcId>) -> (target: Option<NpcId>)
    ensures
        target == (match selected {
            Some(chosen) => if local@.contains(chosen) {
                Some(chosen)
            } else {
                None
            },
            None => None,
        }),
{
    match selected {
        Some(chosen) => {
            if contains_id(local, chosen) {
                Some(chosen)
            } else {
                None
            }
        },
        None => None,
    }
}

/// The encounter's partner when the NPC drew itself: the resident after it in the list
/// (cyclically; after the first when it is not listed). `None` when that is the NPC again.
pub open spec fn other_than_self(local: Seq<NpcId>, target: NpcId, id: NpcId) -> Option<NpcId> {
    if target != id {
        Some(target)
    } else {
        let position = if local.contains(id) {
            choose|i: int| 0 <= i < local.len() && local[i] == id && forall|j: int| 0 <= j < i ==> local[j] != id
        } else {
            0
        };
        let next = local[(position + 1) % (local.len() as int)];
        if next == id {
            None
        } else {
            Some(next)
        }
    }
}

pub fn avoid_self(local: &Vec<NpcId>, target: NpcId, id: NpcId) -> (partner: Option<NpcId>)
    requires
        local@.len() > 0,
    ensures
        partner == other_than_self(local@, target, id),
{
    if target != id {
        return Some(target);
    }
    let mut position: usize = 0;
    while position < local.len() && local[position] != id
        invariant
            position <= local@.len(),
            forall|j: int| 0 <= j < position ==> local@[j] != id,
        decreases local.len() - position,
    {
        position = position + 1;
    }
    if position == local.len() {
        position = 0;
    } else {
        proof {
            let p = choose|i: int| 0 <= i < local@.len() && local@[i] == id && forall|j: int| 0 <= j < i ==> local@[j] != id;
            assert(p == position as int) by {
                if p < position {
                    assert(local@[p] != id);
                } else if p > position {
                    assert(local@[position as int] == id);
                }
            }
        }
    }
    let next = local[(position + 1) % local.len()];
    if next == id {
        None
    } else {
        Some(next)
    }
}

fn adjusted_value(value: u8, change: i8) -> (adjusted: u8)
    ensures
        adjusted == adjusted_strength(value, change),
{
    let limited: i16 = if change < -3 {
        -3
    } else if change > 3 {
        3
    } else {
        change as i16
    };
    let moved: i16 = value as i16 + limited;
    if moved < 0 {
        0
    } else if moved > 10 {
        10
    } else {
        moved as u8
    }
}

/// One side's relationship after an encounter: created neutral when missing, its last
/// interaction set to now, and with a change the relation moved and (unless permanent)
/// the kind set from it.
pub open spec fn met(
    relationships: Map<NpcId, Relationship>,
    other: NpcId,
    affinity: u8,
    year: u64,
    month: u8,
    change: i8,
) -> Relationship {
    let base = if relationships.contains_key(other) {
        relationships[other]
    } else {
        Relationship {
            affinity: clamped_value(affinity),
            relation: NEUTRAL_RELATION,
            kind: RelationshipKind::Acquaintance,
            last_interaction_year: year,
            last_interaction_month: clamped_month(month),
        }
    };
    let seen = Relationship { last_interaction_year: year, last_interaction_month: clamped_month(month), ..base };
    if change == 0 {
        seen
    } else {
        let moved = Relationship { relation: adjusted_strength(seen.relation, change), ..seen };
        if moved.kind.permanent() {
            moved
        } else {
            Relationship { kind: kind_for_relation(moved.relation), ..moved }
        }
    }
}

/// Whether an encounter changes the relation on that side.
pub open spec fn moves_relation(relationships: Map<NpcId, Relationship>, other: NpcId, affinity: u8, change: i8) -> bool {
    let relation = if relationships.contains_key(other) {
        relationships[other].relation
    } else {
        NEUTRAL_RELATION
    };
    change != 0 && adjusted_strength(relation, change) != relation
}

fn meet_side(npc: &mut Npc, other: NpcId, affinity: u8, year: u64, month: u8, change: i8) -> (moved: bool)
    requires
        other != old(npc).id,
    ensures
        moved == moves_relation(old(npc).relationships@, other, affinity, change),
        final(npc).relationships@ == old(npc).relationships@.insert(
            other,
            met(old(npc).relationships@, other, affinity, year, month, change),
        ),
        *final(npc) == (Npc { relationships: final(npc).relationships, ..*old(npc) }),
{
    let mut moved = false;
    match npc.ensure_relationship(other, affinity, year, month) {
        Some(relationship) => {
            relationship.record_interaction(year, month);
            if change != 0 {
                let before = relationship.relation;
                relationship.relation = adjusted_value(before, change);
                moved = relationship.relation != before;
                update_relationship_kind(relationship);
            }
        },
        None => {},
    }
    moved
}

/// A social encounter between two different NPCs of the world: each side's relationship
/// is updated as in `met`, and a change of relation on either side is counted and logged.
/// `None` (and no change) when the pair is not two different NPCs of the world.
pub fn meet(
    world: &mut World,
    id: NpcId,
    target: NpcId,
    affinity: u8,
    change: i8,
    statistics: &mut YearStatistics,
) -> (changed: Option<bool>)
    ensures
        !(id != target && npc_at(old(world).npcs@, id) && npc_at(old(world).npcs@, target)) ==> changed is None
            && unchanged_world(*old(world), *final(world)) && *final(statistics) == *old(statistics),
        (id != target && npc_at(old(world).npcs@, id) && npc_at(old(world).npcs@, target)) ==> {
            let a = old(world).npcs@[id.0 as int];
            let b = old(world).npcs@[target.0 as int];
            let (year, month) = (old(world).year, old(world).month);
            let moved = moves_relation(a.relationships@, target, affinity, change) || moves_relation(
                b.relationships@,
                id,
                affinity,
                change,
            );
            let event = WorldEvent::RelationshipChanged { a: id, b: target };
            &&& changed == Some(moved)
            &&& final(world).npcs@.len() == old(world).npcs@.len()
            &&& forall|j: int|
                0 <= j < old(world).npcs@.len() && j != id.0 && j != target.0 ==> #[trigger] final(world).npcs@[j]
                    == old(world).npcs@[j]
            &&& final(world).npcs@[id.0 as int] == (Npc { relationships: final(world).npcs@[id.0 as int].relationships, ..a })
            &&& final(world).npcs@[id.0 as int].relationships@ == a.relationships@.insert(
                target,
                met(a.relationships@, target, affinity, year, month, change),
            )
            &&& final(world).npcs@[target.0 as int] == (Npc {
                relationships: final(world).npcs@[target.0 as int].relationships,
                ..b
            })
            &&& final(world).npcs@[target.0 as int].relationships@ == b.relationships@.insert(
                id,
                met(b.relationships@, id, affinity, year, month, change),
            )
            &&& moved ==> noted(World { npcs: final(world).npcs, ..*old(world) }, *final(world), event)
                && *final(statistics) == after_event(*old(statistics), event)
            &&& !moved ==> *final(world) == (World { npcs: final(world).npcs, ..*old(world) }) && *final(statistics)
                == *old(statistics)
        },
{
    let year = world.year;
    let month = world.month;
    let ghost start = *world;
    let moved = match world.two_npcs_mut(id, target) {
        Some((a, b)) => {
            let first = meet_side(a, target, affinity, year, month, change);
            let second = meet_side(b, id, affinity, year, month, change);
            first || second
        },
        None => {
            return None;
        },
    };
    if moved {
        let ghost mid = *world;
        announce(world, statistics, WorldEvent::RelationshipChanged { a: id, b: target });
        assert(mid == (World { npcs: mid.npcs, ..start }));
    }
    Some(moved)
}


/// No NPC holds more beliefs than the cap.
pub open spec fn beliefs_bounded(npcs: Seq<Npc>) -> bool {
    forall|n: int| 0 <= n < npcs.len() ==> (#[trigger] npcs[n]).beliefs@.len() <= MAX_BELIEFS
}

/// The NPC, found in the world, is free to take a partner: it has none and is of working
/// age.
pub fn ready_for_partner(world: &World, id: NpcId) -> (ready: bool)
    ensures
        ready == (npc_at(world.npcs@, id) && world.npcs@[id.0 as int].partner is None && partner_age(
            world.npcs@[id.0 as int].age,
        )),
{
    match world.npc(id) {
        Some(npc) => npc.partner.is_none() && 18 <= npc.age && npc.age <= 65,
        None => false,
    }
}

/// The NPC chose to seek a partner this month.
pub open spec fn seeks_partner(actions: Seq<Option<Action>>, id: NpcId) -> bool {
    id.0 < actions.len() && actions[id.0 as int] == Some(Action::SeekPartner)
}

/// `candidate` may be courted by `id`: another NPC of the world, not yet paired this
/// month, seeking a partner too, unpartnered, of the other sex, of working age, at most
/// twenty years apart and not a close relative.
pub open spec fn partner_candidate(
    world: World,
    id: NpcId,
    actions: Seq<Option<Action>>,
    paired: Seq<NpcId>,
    candidate: NpcId,
) -> bool {
    let npc = world.npcs@[id.0 as int];
    let other = world.npcs@[candidate.0 as int];
    &&& candidate != id
    &&& !paired.contains(candidate)
    &&& seeks_partner(actions, candidate)
    &&& npc_at(world.npcs@, candidate)
    &&& other.partner is None
    &&& other.sex != npc.sex
    &&& partner_age(other.age)
    &&& age_gap(npc.age, other.age) <= 20
    &&& !related(npc, other)
}

/// How well `candidate` suits `id`: their relation (five when unknown), affinity (from
/// the relationship, or computed), shared belief kinds, a point for each of them looking
/// for a partner, less a point per five years of age gap.
pub open spec fn partner_score(world: World, id: NpcId, candidate: NpcId) -> int {
    let npc = world.npcs@[id.0 as int];
    let other = world.npcs@[candidate.0 as int];
    let relationships = npc.relationships@;
    let existing = if relationships.contains_key(candidate) {
        relationships[candidate].relation as int
    } else {
        5
    };
    let affinity = if relationships.contains_key(candidate) {
        relationships[candidate].affinity as int
    } else {
        world_affinity(world, id, candidate) as int
    };
    let bonus = (if npc.goal.kind == GoalKind::FindPartner {
        1int
    } else {
        0
    }) + (if other.goal.kind == GoalKind::FindPartner {
        1int
    } else {
        0
    });
    existing + affinity + shared_beliefs(npc.beliefs@, other.beliefs@) + bonus - age_gap(npc.age, other.age) / 5
}

/// A higher score wins; on a tie, the lower id.
pub open spec fn preferred(score: int, candidate: NpcId, best_score: int, best: NpcId) -> bool {
    score > best_score || (score == best_score && candidate.0 < best.0)
}

/// The candidate seen at `offset` in a window that starts at `start` and wraps around.
pub open spec fn windowed(local: Seq<NpcId>, start: int, offset: int) -> NpcId {
    local[(start + offset) % (local.len() as int)]
}

pub open spec fn window_len(local: Seq<NpcId>) -> int {
    if local.len() < 12 {
        local.len() as int
    } else {
        12
    }
}

fn seeks(actions: &Vec<Option<Action>>, id: NpcId) -> (seeking: bool)
    ensures
        seeking == seeks_partner(actions@, id),
{
    let index = id.0 as usize;
    if index < actions.len() {
        match actions[index] {
            Some(Action::SeekPartner) => true,
            _ => false,
        }
    } else {
        false
    }
}

fn evaluate_candidate(
    world: &World,
    id: NpcId,
    npc: &Npc,
    candidate_id: NpcId,
    actions: &Vec<Option<Action>>,
    paired: &Vec<NpcId>,
) -> (score: Option<i16>)
    requires
        npc_at(world.npcs@, id),
        npc == &world.npcs@[id.0 as int],
        beliefs_bounded(world.npcs@),
    ensures
        score is Some == partner_candidate(*world, id, actions@, paired@, candidate_id),
        score matches Some(value) ==> value == partner_score(*world, id, candidate_id),
{
    if candidate_id == id || contains_id(paired, candidate_id) || !seeks(actions, candidate_id) {
        return None;
    }
    let candidate = match world.npc(candidate_id) {
        Some(candidate) => candidate,
        None => return None,
    };
    let gap: u8 = if npc.age >= candidate.age {
        npc.age - candidate.age
    } else {
        candidate.age - npc.age
    };
    if candidate.partner.is_some() || candidate.sex == npc.sex || candidate.age < 18 || candidate.age > 65 || gap > 20
        || are_close_relatives(npc, candidate) {
        return None;
    }
    let (existing, affinity) = match npc.relationship(candidate_id) {
        Some(relationship) => (relationship.relation, relationship.affinity),
        None => (5u8, calculate_affinity(world, id, candidate_id)),
    };
    let shared = count_shared_beliefs(&npc.beliefs, &candidate.beliefs);
    proof {
        lemma_shared_beliefs_bounded(npc.beliefs@, candidate.beliefs@);
        assert(npc.beliefs@.len() <= MAX_BELIEFS);
    }
    let bonus: i16 = (if npc.goal.kind == GoalKind::FindPartner {
        1i16
    } else {
        0
    }) + (if candidate.goal.kind == GoalKind::FindPartner {
        1i16
    } else {
        0
    });
    Some(existing as i16 + affinity as i16 + shared as i16 + bonus - (gap / 5) as i16)
}

/// The best partner for `id` among the first twelve town residents from `start` on
/// (wrapping around): the candidate with the highest score, the lowest id on a tie.
pub fn choose_partner(
    world: &World,
    id: NpcId,
    local: &Vec<NpcId>,
    start: usize,
    actions: &Vec<Option<Action>>,
    paired: &Vec<NpcId>,
) -> (best: Option<(i16, NpcId)>)
    requires
        npc_at(world.npcs@, id),
        beliefs_bounded(world.npcs@),
        local@.len() == 0 || start < local@.len(),
    ensures
        best is None ==> forall|offset: int|
            0 <= offset < window_len(local@) ==> !partner_candidate(
                *world,
                id,
                actions@,
                paired@,
                #[trigger] windowed(local@, start as int, offset),
            ),
        best matches Some((score, chosen)) ==> {
            &&& exists|offset: int| 0 <= offset < window_len(local@) && #[trigger] windowed(local@, start as int, offset) == chosen
            &&& partner_candidate(*world, id, actions@, paired@, chosen)
            &&& score == partner_score(*world, id, chosen)
            &&& forall|offset: int|
                0 <= offset < window_len(local@) && partner_candidate(
                    *world,
                    id,
                    actions@,
                    paired@,
                    #[trigger] windowed(local@, start as int, offset),
                ) ==> !preferred(
                    partner_score(*world, id, windowed(local@, start as int, offset)),
                    windowed(local@, start as int, offset),
                    score as int,
                    chosen,
                )
        },
{
    let npc = match world.npc(id) {
        Some(npc) => npc,
        None => return None,
    };
    let count: usize = if local.len() < 12 {
        local.len()
    } else {
        12
    };
    let mut best: Option<(i16, NpcId)> = None;
    let mut offset: usize = 0;
    while offset < count
        invariant
            offset <= count,
            count == window_len(local@),
            local@.len() == 0 || start < local@.len(),
            npc == &world.npcs@[id.0 as int],
            beliefs_bounded(world.npcs@),
            npc_at(world.npcs@, id),
            best is None ==> forall|o: int|
                0 <= o < offset ==> !partner_candidate(*world, id, actions@, paired@, #[trigger] windowed(local@, start as int, o)),
            best matches Some((score, chosen)) ==> {
                &&& exists|o: int| 0 <= o < offset && #[trigger] windowed(local@, start as int, o) == chosen
                &&& partner_candidate(*world, id, actions@, paired@, chosen)
                &&& score == partner_score(*world, id, chosen)
                &&& forall|o: int|
                    0 <= o < offset && partner_candidate(*world, id, actions@, paired@, #[trigger] windowed(local@, start as int, o))
                        ==> !preferred(
                        partner_score(*world, id, windowed(local@, start as int, o)),
                        windowed(local@, start as int, o),
                        score as int,
                        chosen,
                    )
            },
        decreases count - offset,
    {
        let remaining = local.len() - start;
        let position = if offset >= remaining {
            offset - remaining
        } else {
            start + offset
        };
        proof {
            let n = local@.len() as int;
            let sum = start + offset;
            if sum >= n {
                vstd::arithmetic::div_mod::lemma_mod_sub_multiples_vanish(sum, n);
                vstd::arithmetic::div_mod::lemma_small_mod((sum - n) as nat, n as nat);
            } else {
                vstd::arithmetic::div_mod::lemma_small_mod(sum as nat, n as nat);
            }
        }
        assert(position as int == (start + offset) % (local@.len() as int));
        let candidate_id = local[position];
        let ghost o = offset as int;
        assert(windowed(local@, start as int, o) == candidate_id);
        let evaluated = evaluate_candidate(world, id, npc, candidate_id, actions, paired);
        let eligible = evaluated.is_some();
        let score: i16 = match evaluated {
            Some(value) => value,
            None => 0,
        };
        assert(eligible == partner_candidate(*world, id, actions@, paired@, candidate_id));
        if eligible {
            assert(score == partner_score(*world, id, candidate_id));
            let replace = match best {
                None => true,
                Some((best_score, best_id)) => score > best_score || (score == best_score && candidate_id.0 < best_id.0),
            };
            if replace {
                proof {
                    match best {
                        Some((best_score, best_id)) => {
                            assert forall|p: int|
                                0 <= p < offset + 1 && partner_candidate(*world, id, actions@, paired@, #[trigger] windowed(local@, start as int, p))
                                    implies !preferred(
                                    partner_score(*world, id, windowed(local@, start as int, p)),
                                    windowed(local@, start as int, p),
                                    score as int,
                                    candidate_id,
                                ) by {
                                if p < offset {
                                    assert(!preferred(
                                        partner_score(*world, id, windowed(local@, start as int, p)),
                                        windowed(local@, start as int, p),
                                        best_score as int,
                                        best_id,
                                    ));
                                }
                            }
                        },
                        None => {},
                    }
                }
                best = Some((score, candidate_id));
            }
        }
        offset = offset + 1;
    }
    best
}


/// A goal after a major event calls for `kind`: taken up unless already held.
pub open spec fn goal_after_major(goal: Goal, kind: GoalKind, year: u64) -> Goal {
    if goal.kind != kind {
        Goal { kind, progress_bits: MIN_GOAL_PROGRESS_BITS, since_year: year }
    } else {
        goal
    }
}

/// The statistics after a major event moves an NPC from one goal to another: a change is
/// counted unless the goal stays the same.
pub open spec fn goal_change_counted(statistics: YearStatistics, npc: NpcId, from: GoalKind, to: GoalKind) -> YearStatistics {
    if from != to {
        after_event(statistics, WorldEvent::GoalChanged { npc, old: from, new: to })
    } else {
        statistics
    }
}

/// The relationship two new partners hold with each other.
pub open spec fn partner_relationship(affinity: u8, year: u64, month: u8) -> Relationship {
    Relationship {
        affinity: clamped_value(affinity),
        relation: 9,
        kind: RelationshipKind::Partner,
        last_interaction_year: year,
        last_interaction_month: clamped_month(month),
    }
}

/// Pairs two different NPCs of the world when neither has a partner: each becomes the
/// other's partner with a partner relationship at relation nine, the partnership is
/// counted and logged, and both take raising children as goal (a major event). False, and
/// no change, when either is already partnered.
pub fn form_partnership(
    world: &mut World,
    id: NpcId,
    partner: NpcId,
    cooldown_years: u16,
    statistics: &mut YearStatistics,
) -> (formed: bool)
    requires
        id != partner,
        npc_at(old(world).npcs@, id),
        npc_at(old(world).npcs@, partner),
    ensures
        ({
            let a = old(world).npcs@[id.0 as int];
            let b = old(world).npcs@[partner.0 as int];
            let relationship = partner_relationship(world_affinity(*old(world), id, partner), old(world).year, old(world).month);
            &&& formed == (a.partner is None && b.partner is None)
            &&& !formed ==> unchanged_world(*old(world), *final(world)) && *final(statistics) == *old(statistics)
            &&& formed ==> {
                &&& final(world).npcs@.len() == old(world).npcs@.len()
                &&& forall|j: int|
                    0 <= j < old(world).npcs@.len() && j != id.0 && j != partner.0 ==> #[trigger] final(world).npcs@[j]
                        == old(world).npcs@[j]
                &&& final(world).npcs@[id.0 as int] == (Npc {
                    partner: Some(partner),
                    goal: goal_after_major(a.goal, GoalKind::RaiseChildren, old(world).year),
                    relationships: final(world).npcs@[id.0 as int].relationships,
                    ..a
                })
                &&& final(world).npcs@[id.0 as int].relationships@ == a.relationships@.insert(partner, relationship)
                &&& final(world).npcs@[partner.0 as int] == (Npc {
                    partner: Some(id),
                    goal: goal_after_major(b.goal, GoalKind::RaiseChildren, old(world).year),
                    relationships: final(world).npcs@[partner.0 as int].relationships,
                    ..b
                })
                &&& final(world).npcs@[partner.0 as int].relationships@ == b.relationships@.insert(id, relationship)
                &&& only_npcs_and_events(*old(world), *final(world))
                &&& *final(statistics) == goal_change_counted(
                    goal_change_counted(
                        after_event(*old(statistics), WorldEvent::Partnership { a: id, b: partner }),
                        id,
                        a.goal.kind,
                        GoalKind::RaiseChildren,
                    ),
                    partner,
                    b.goal.kind,
                    GoalKind::RaiseChildren,
                )
            }
        }),
{
    let affinity = calculate_affinity(world, id, partner);
    let relationship = Relationship::with_relation(affinity, 9, RelationshipKind::Partner, world.year, world.month);
    let ghost start = *world;
    let free = match (world.npc(id), world.npc(partner)) {
        (Some(a), Some(b)) => a.partner.is_none() && b.partner.is_none(),
        _ => false,
    };
    if !free {
        return false;
    }
    match world.two_npcs_mut(id, partner) {
        Some((a, b)) => {
            a.set_partner(partner);
            b.set_partner(id);
            a.set_relationship(partner, relationship);
            b.set_relationship(id, relationship);
        },
        None => {
            return false;
        },
    }
    let ghost paired = *world;
    announce(world, statistics, WorldEvent::Partnership { a: id, b: partner });
    let ghost announced = *world;
    change_goal(world, id, GoalKind::RaiseChildren, true, cooldown_years, statistics);
    let ghost first_goal = *world;
    change_goal(world, partner, GoalKind::RaiseChildren, true, cooldown_years, statistics);
    proof {
        assert(relationship.normalized() == relationship);
        assert(paired.npcs@[partner.0 as int] == announced.npcs@[partner.0 as int]);
        assert(first_goal.npcs@[partner.0 as int] == announced.npcs@[partner.0 as int]);
    }
    true
}


/// Another NPC of the world that is active and lives in the same town as `npc`.
pub open spec fn beside(world: World, npc: Npc, other: NpcId) -> bool {
    npc_at(world.npcs@, other) && world.npcs@[other.0 as int].active() && world.npcs@[other.0 as int].town == npc.town
}

/// The ids among `keys` that are beside the NPC, in order.
pub open spec fn keys_beside(world: World, npc: Npc, keys: Seq<NpcId>) -> Seq<NpcId>
    decreases keys.len(),
{
    if keys.len() == 0 {
        Seq::empty()
    } else {
        let rest = keys_beside(world, npc, keys.drop_last());
        if beside(world, npc, keys.last()) {
            rest.push(keys.last())
        } else {
            rest
        }
    }
}

/// At most the first `n` of a sequence.
pub open spec fn at_most(s: Seq<NpcId>, n: int) -> Seq<NpcId> {
    if s.len() > n {
        s.take(n)
    } else {
        s
    }
}

/// Where the NPC stands in its town's resident list (the first place), or zero.
pub open spec fn place_of(local: Seq<NpcId>, id: NpcId) -> int {
    if local.contains(id) {
        choose|i: int| 0 <= i < local.len() && local[i] == id && forall|j: int| 0 <= j < i ==> local[j] != id
    } else {
        0
    }
}

/// How many residents after the NPC are looked at: up to four, never the whole town.
pub open spec fn neighbour_count(local: Seq<NpcId>) -> int {
    if local.len() == 0 {
        0
    } else if local.len() - 1 > 4 {
        4
    } else {
        local.len() - 1
    }
}

/// The people seen after the residents at offsets `1..=n` after the NPC are added to
/// `seen`, each at most once.
pub open spec fn with_neighbours(local: Seq<NpcId>, id: NpcId, seen: Seq<NpcId>, n: int) -> Seq<NpcId>
    decreases n,
{
    if n <= 0 {
        seen
    } else {
        let before = with_neighbours(local, id, seen, n - 1);
        let other = local[(place_of(local, id) + n) % (local.len() as int)];
        if before.contains(other) {
            before
        } else {
            before.push(other)
        }
    }
}

/// The ids an NPC considers this month: up to four related people beside it (ascending),
/// then up to four residents that follow it in its town's list.
pub open spec fn people_ids(world: World, npc: Npc, local: Seq<NpcId>) -> Seq<NpcId> {
    with_neighbours(
        local,
        npc.id,
        at_most(keys_beside(world, npc, npc.relationships.key_order()), 4),
        neighbour_count(local),
    )
}

/// How the NPC sees another person: by their relationship, or as a neutral outsider;
/// then whether they could be partners, and, for family in a dangerous town, that they
/// need help.
pub open spec fn person_seen(world: World, npc: Npc, other: NpcId, danger: u8) -> PersonCandidate {
    let base = if npc.relationships@.contains_key(other) {
        let relationship = npc.relationships@[other];
        PersonCandidate {
            npc: other,
            relation: clamped_situation_value(relationship.relation),
            danger: 0,
            is_family: relationship.kind == RelationshipKind::Family || relationship.kind == RelationshipKind::Partner,
            is_outsider: false,
            needs_help: false,
            is_threat: relationship.kind == RelationshipKind::Rival || relationship.kind == RelationshipKind::Enemy,
            reachable: true,
            partner_eligible: false,
        }
    } else {
        PersonCandidate {
            npc: other,
            relation: 5,
            danger: 0,
            is_family: false,
            is_outsider: true,
            needs_help: false,
            is_threat: false,
            reachable: true,
            partner_eligible: false,
        }
    };
    if !npc_at(world.npcs@, other) {
        base
    } else {
        let eligible = PersonCandidate {
            partner_eligible: partners_eligible(npc, world.npcs@[other.0 as int]),
            ..base
        };
        if base.is_family && danger >= 5 {
            PersonCandidate { needs_help: true, danger, ..eligible }
        } else {
            eligible
        }
    }
}

fn see_person(world: &World, npc: &Npc, other: NpcId, danger: u8) -> (person: PersonCandidate)
    ensures
        person == person_seen(*world, *npc, other, danger),
{
    let mut person = match npc.relationship(other) {
        Some(relationship) => PersonCandidate::from_relationship(other, relationship),
        None => PersonCandidate::new(other, 5).as_outsider(),
    };
    match world.npc(other) {
        Some(found) => {
            person.partner_eligible = eligible_partners(npc, found);
            if person.is_family && danger >= 5 {
                person.needs_help = true;
                person.danger = danger;
            }
        },
        None => {},
    }
    person
}

/// The people an NPC weighs when it chooses its action this month (see `people_ids` and
/// `person_seen`). `local` is the resident list of its town.
pub fn nearby_people(world: &World, id: NpcId, local: &Vec<NpcId>, danger: u8) -> (people: Vec<PersonCandidate>)
    requires
        npc_at(world.npcs@, id),
    ensures
        people@.len() == people_ids(*world, world.npcs@[id.0 as int], local@).len(),
        forall|i: int|
            0 <= i < people@.len() ==> #[trigger] people@[i] == person_seen(
                *world,
                world.npcs@[id.0 as int],
                people_ids(*world, world.npcs@[id.0 as int], local@)[i],
                danger,
            ),
{
    let npc = match world.npc(id) {
        Some(npc) => npc,
        None => return Vec::new(),
    };
    let candidates = sorted_relationship_candidates(npc);
    let ghost keys = npc.relationships.key_order();
    let mut ids: Vec<NpcId> = Vec::new();
    let mut i: usize = 0;
    while i < candidates.len()
        invariant
            i <= candidates@.len(),
            candidates@.len() == keys.len(),
            forall|j: int| 0 <= j < candidates@.len() ==> (#[trigger] candidates@[j]).npc == keys[j],
            ids@ == at_most(keys_beside(*world, *npc, keys.take(i as int)), 4),
        decreases candidates.len() - i,
    {
        let other = candidates[i].npc;
        assert(keys.take(i as int + 1).drop_last() == keys.take(i as int));
        assert(keys.take(i as int + 1).last() == other);
        let near = match world.npc(other) {
            Some(found) => found.is_active() && found.town == npc.town,
            None => false,
        };
        if near && ids.len() < 4 {
            proof {
                assert(keys_beside(*world, *npc, keys.take(i as int)).len() < 4);
            }
            ids.push(other);
        }
        proof {
            let before = keys_beside(*world, *npc, keys.take(i as int));
            if near && before.len() >= 4 {
                assert(at_most(before.push(other), 4) =~= at_most(before, 4));
            }
            if near && before.len() < 4 {
                assert(at_most(before.push(other), 4) =~= before.push(other));
            }
        }
        i = i + 1;
    }
    assert(keys.take(keys.len() as int) =~= keys);
    let ghost known = ids@;
    if local.len() > 0 {
        let mut position: usize = 0;
        while position < local.len() && local[position] != id
            invariant
                position <= local@.len(),
                forall|j: int| 0 <= j < position ==> local@[j] != id,
            decreases local.len() - position,
        {
            position = position + 1;
        }
        if position == local.len() {
            position = 0;
        } else {
            proof {
                let p = choose|i: int| 0 <= i < local@.len() && local@[i] == id && forall|j: int| 0 <= j < i ==> local@[j] != id;
                assert(p == position as int) by {
                    if p < position {
                        assert(local@[p] != id);
                    } else if p > position {
                        assert(local@[position as int] == id);
                    }
                }
            }
        }
        assert(position as int == place_of(local@, id));
        let count: usize = if local.len() - 1 > 4 {
            4
        } else {
            local.len() - 1
        };
        let mut offset: usize = 1;
        while offset <= count
            invariant
                1 <= offset <= count + 1,
                count == neighbour_count(local@),
                count <= 4,
                local@.len() > 0,
                position < local@.len(),
                position as int == place_of(local@, id),
                ids@ == with_neighbours(local@, id, known, offset - 1),
            decreases count + 1 - offset,
        {
            let remaining = local.len() - position;
            let index = if offset >= remaining {
                offset - remaining
            } else {
                position + offset
            };
            proof {
                let n = local@.len() as int;
                let sum = position + offset;
                if sum >= n {
                    vstd::arithmetic::div_mod::lemma_mod_sub_multiples_vanish(sum, n);
                    vstd::arithmetic::div_mod::lemma_small_mod((sum - n) as nat, n as nat);
                } else {
                    vstd::arithmetic::div_mod::lemma_small_mod(sum as nat, n as nat);
                }
            }
            let other = local[index];
            if !crate::world::contains_id(&ids, other) {
                ids.push(other);
            }
            offset = offset + 1;
        }
    }
    let mut people: Vec<PersonCandidate> = Vec::new();
    let mut k: usize = 0;
    while k < ids.len()
        invariant
            k <= ids@.len(),
            npc_at(world.npcs@, id),
            ids@ == people_ids(*world, *npc, local@),
            npc == &world.npcs@[id.0 as int],
            people@.len() == k,
            forall|j: int| 0 <= j < k ==> #[trigger] people@[j] == person_seen(*world, *npc, ids@[j], danger),
        decreases ids.len() - k,
    {
        people.push(see_person(world, npc, ids[k], danger));
        k = k + 1;
    }
    people
}


/// How many of the NPC's relationships are with active people living in `town`, at most
/// 65535.
pub open spec fn known_in(world: World, npc: Npc, keys: Seq<NpcId>, town: TownId) -> int
    decreases keys.len(),
{
    if keys.len() == 0 {
        0
    } else {
        known_in(world, npc, keys.drop_last(), town) + if npc_at(world.npcs@, keys.last())
            && world.npcs@[keys.last().0 as int].active() && world.npcs@[keys.last().0 as int].town == town {
            1int
        } else {
            0int
        }
    }
}

pub fn known_people_in(world: &World, npc: &Npc, town: TownId) -> (count: u16)
    ensures
        count == (if known_in(*world, *npc, npc.relationships.key_order(), town) > 65_535 {
            65_535
        } else {
            known_in(*world, *npc, npc.relationships.key_order(), town)
        }),
{
    let keys = npc.relationships.keys();
    let mut count: usize = 0;
    let mut i: usize = 0;
    while i < keys.len()
        invariant
            i <= keys@.len(),
            count == known_in(*world, *npc, keys@.take(i as int), town),
            count <= i,
        decreases keys.len() - i,
    {
        assert(keys@.take(i as int + 1).drop_last() == keys@.take(i as int));
        match world.npc(keys[i]) {
            Some(other) => {
                if other.is_active() && other.town == town {
                    count = count + 1;
                }
            },
            None => {},
        }
        i = i + 1;
    }
    assert(keys@.take(keys@.len() as int) =~= keys@);
    if count > 65_535 {
        65_535
    } else {
        count as u16
    }
}

} // verus!
