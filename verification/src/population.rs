use rand_chacha::ChaCha8Rng;
use vstd::prelude::*;

use crate::belief::{belief_kind_index, clamped_strength, Belief, BeliefKind, MAX_BELIEFS};
use crate::event::WorldEvent;
use crate::goal::{Goal, GoalKind, MIN_GOAL_PROGRESS_BITS};
use crate::id::{NpcId, TownId};
use crate::npc::{holds_kind, inherited_attribute, normalized_beliefs, Attributes, Npc, Sex};
use crate::random::{
    random_i32_below, random_i8_between, random_u16_below, random_u32_between, random_u64_between,
    random_u8_between, random_usize_below, random_usize_between, seeded_rng, shuffle,
};
use crate::relationship::{Relationship, RelationshipKind};
use crate::statistics::Statistics;
use crate::text::{append_padded, decimal, padded_left};
use crate::town::{
    clamped_distance, connections_sorted, first_connection_index, has_connection, min_u8, Town, TownConnection,
};
use crate::world::{active_ids, npc_at, npc_ok, resident_in, town_at, town_ok, world_consistent, InvariantError, World};
use vstd::string::StringExecFns;

verus! {

pub const INITIAL_RELATIONSHIP_MONTH: u8 = 1;
pub const PARTNER_BUCKET_COUNT: usize = 6;
pub const MAX_PARENT_CANDIDATES: usize = 12;
pub const INITIAL_FRIEND_OFFSETS: usize = 2;

/// Why a consistent NPC could not be made, at the start, at a birth or at an arrival.
#[derive(Clone, Copy, Debug, PartialEq, Eq, Structural)]
pub enum PopulationError {
    NoTowns,
    TooManyTowns(usize),
    TooManyNpcs(usize),
    InvalidTown(TownId),
    InvalidNpc(NpcId),
    SameParent,
    InactiveParent(NpcId),
    ParentsInDifferentTowns(NpcId, NpcId),
    Invariant(InvariantError),
}

/// At least one town, town ids that fit in `u16`, and a population whose ids fit in `u32`.
pub fn validate_world_size(town_count: usize, population: usize) -> (result: Result<(), PopulationError>)
    ensures
        town_count == 0 ==> result == Err::<(), PopulationError>(PopulationError::NoTowns),
        town_count > 0 && town_count - 1 > u16::MAX ==> result == Err::<(), PopulationError>(
            PopulationError::TooManyTowns(town_count),
        ),
        town_count > 0 && town_count - 1 <= u16::MAX && population > u32::MAX ==> result == Err::<
            (),
            PopulationError,
        >(PopulationError::TooManyNpcs(population)),
        town_count > 0 && town_count - 1 <= u16::MAX && population <= u32::MAX ==> result is Ok,
{
    if town_count == 0 {
        return Err(PopulationError::NoTowns);
    }
    if town_count - 1 > u16::MAX as usize {
        return Err(PopulationError::TooManyTowns(town_count));
    }
    if population > u32::MAX as usize {
        return Err(PopulationError::TooManyNpcs(population));
    }
    Ok(())
}

/// The id of the next NPC: the current number of NPCs, when it fits in `u32`.
pub fn next_npc_id(current_len: usize) -> (result: Result<NpcId, PopulationError>)
    ensures
        current_len <= u32::MAX ==> result == Ok::<NpcId, PopulationError>(NpcId(current_len as u32)),
        current_len > u32::MAX ==> result == Err::<NpcId, PopulationError>(PopulationError::TooManyNpcs(
            current_len.saturating_add(1),
        )),
{
    if current_len <= u32::MAX as usize {
        Ok(NpcId(current_len as u32))
    } else {
        Err(PopulationError::TooManyNpcs(current_len.saturating_add(1)))
    }
}

/// The population spread over the towns as evenly as possible, the first towns taking
/// the remainder.
pub fn balanced_town_populations(town_count: usize, population: usize) -> (populations: Vec<usize>)
    requires
        town_count > 0,
    ensures
        populations@.len() == town_count,
        forall|i: int| 0 <= i < town_count ==> #[trigger] populations@[i] == population / town_count + (if i
            < population % town_count {
            1int
        } else {
            0int
        }),
{
    let base = population / town_count;
    let remainder = population % town_count;
    proof {
        assert(base * town_count + remainder == population) by (nonlinear_arith)
            requires
                base == population / town_count,
                remainder == population % town_count,
                town_count > 0,
        ;
        assert(base + 1 <= population || remainder == 0) by (nonlinear_arith)
            requires
                base * town_count + remainder == population,
                town_count > 0,
                remainder < town_count,
                base >= 0,
        ;
    }
    let mut populations: Vec<usize> = Vec::new();
    let mut i: usize = 0;
    while i < town_count
        invariant
            i <= town_count,
            base == population / town_count,
            remainder == population % town_count,
            base + 1 <= population || remainder == 0,
            populations@.len() == i,
            forall|j: int| 0 <= j < i ==> #[trigger] populations@[j] == population / town_count + (if j < population
                % town_count {
                1int
            } else {
                0int
            }),
        decreases town_count - i,
    {
        if i < remainder {
            populations.push(base + 1);
        } else {
            populations.push(base);
        }
        i = i + 1;
    }
    populations
}

/// `strength + variation`, kept in `0..=10`.
pub open spec fn varied_strength(strength: u8, variation: i8) -> u8 {
    if strength + variation < 0 {
        0
    } else if strength + variation > 10 {
        10
    } else {
        (strength + variation) as u8
    }
}

pub fn vary_strength(strength: u8, variation: i8) -> (varied: u8)
    ensures
        varied == varied_strength(strength, variation),
{
    let value: i16 = strength as i16 + variation as i16;
    if value < 0 {
        0
    } else if value > 10 {
        10
    } else {
        value as u8
    }
}

/// Ages drawn from a population pyramid: children, young people, adults, the middle-aged
/// and the old, not a uniform spread.
fn sample_age(rng: &mut ChaCha8Rng) -> (age: u8)
    ensures
        age <= 95,
{
    let bracket = random_u16_below(rng, 0, 1000);
    if bracket <= 179 {
        random_u8_between(rng, 0, 14)
    } else if bracket <= 309 {
        random_u8_between(rng, 15, 24)
    } else if bracket <= 609 {
        random_u8_between(rng, 25, 44)
    } else if bracket <= 859 {
        random_u8_between(rng, 45, 64)
    } else if bracket <= 969 {
        random_u8_between(rng, 65, 79)
    } else {
        random_u8_between(rng, 80, 95)
    }
}

/// Arrivals from outside are adults, mostly young.
fn sample_migrant_age(rng: &mut ChaCha8Rng) -> (age: u8)
    ensures
        18 <= age <= 75,
{
    let bracket = random_u8_between(rng, 0, 99);
    if bracket <= 69 {
        random_u8_between(rng, 18, 39)
    } else if bracket <= 94 {
        random_u8_between(rng, 40, 59)
    } else {
        random_u8_between(rng, 60, 75)
    }
}

fn sample_sex(rng: &mut ChaCha8Rng) -> (sex: Sex) {
    if random_i32_below(rng, 0, 2) == 0 {
        Sex::Male
    } else {
        Sex::Female
    }
}

fn sample_attributes(rng: &mut ChaCha8Rng) -> (attributes: Attributes)
    ensures
        2 <= attributes.physical <= 9,
        2 <= attributes.dexterity <= 9,
        2 <= attributes.intelligence <= 9,
        2 <= attributes.charisma <= 9,
        2 <= attributes.willpower <= 9,
{
    let physical = random_u8_between(rng, 2, 9);
    let dexterity = random_u8_between(rng, 2, 9);
    let intelligence = random_u8_between(rng, 2, 9);
    let charisma = random_u8_between(rng, 2, 9);
    let willpower = random_u8_between(rng, 2, 9);
    Attributes::new(physical, dexterity, intelligence, charisma, willpower)
}

/// The goals open to an NPC of the given age.
pub open spec fn goals_for_age(age: u8) -> Seq<GoalKind> {
    if age <= 14 {
        seq![GoalKind::LivePeacefully, GoalKind::BecomeSkilled, GoalKind::SeekKnowledge]
    } else if age <= 29 {
        seq![
            GoalKind::FindPartner,
            GoalKind::BecomeSkilled,
            GoalKind::GainWealth,
            GoalKind::SeekKnowledge,
            GoalKind::MoveToBetterTown,
        ]
    } else if age <= 54 {
        seq![
            GoalKind::ProtectFamily,
            GoalKind::RaiseChildren,
            GoalKind::GainWealth,
            GoalKind::GainStatus,
            GoalKind::ProtectTown,
        ]
    } else if age <= 69 {
        seq![GoalKind::ProtectFamily, GoalKind::ProtectTown, GoalKind::GainStatus, GoalKind::LivePeacefully]
    } else {
        seq![GoalKind::Survive, GoalKind::ProtectFamily, GoalKind::LivePeacefully]
    }
}

fn goal_choices(age: u8) -> (choices: Vec<GoalKind>)
    ensures
        choices@ == goals_for_age(age),
{
    let choices = if age <= 14 {
        vec![GoalKind::LivePeacefully, GoalKind::BecomeSkilled, GoalKind::SeekKnowledge]
    } else if age <= 29 {
        vec![
            GoalKind::FindPartner,
            GoalKind::BecomeSkilled,
            GoalKind::GainWealth,
            GoalKind::SeekKnowledge,
            GoalKind::MoveToBetterTown,
        ]
    } else if age <= 54 {
        vec![
            GoalKind::ProtectFamily,
            GoalKind::RaiseChildren,
            GoalKind::GainWealth,
            GoalKind::GainStatus,
            GoalKind::ProtectTown,
        ]
    } else if age <= 69 {
        vec![GoalKind::ProtectFamily, GoalKind::ProtectTown, GoalKind::GainStatus, GoalKind::LivePeacefully]
    } else {
        vec![GoalKind::Survive, GoalKind::ProtectFamily, GoalKind::LivePeacefully]
    };
    proof {
        assert(choices@ =~= goals_for_age(age));
    }
    choices
}

/// A goal fitting the age.
fn sample_goal(age: u8, rng: &mut ChaCha8Rng) -> (goal: GoalKind)
    ensures
        goals_for_age(age).contains(goal),
{
    let choices = goal_choices(age);
    let index = random_usize_below(rng, 0, choices.len());
    proof {
        assert(choices@[index as int] == choices@[index as int]);
    }
    choices[index]
}

/// How many beliefs to give: up to `max_beliefs` and at most three; two or more when
/// allowed.
fn desired_belief_count(max_beliefs: usize, rng: &mut ChaCha8Rng) -> (count: usize)
    ensures
        count <= max_beliefs,
        count <= MAX_BELIEFS,
        max_beliefs == 0 ==> count == 0,
        max_beliefs == 1 ==> count == 1,
        max_beliefs >= 2 ==> count >= 2,
{
    let maximum: usize = if max_beliefs < MAX_BELIEFS {
        max_beliefs
    } else {
        MAX_BELIEFS
    };
    if maximum == 0 {
        0
    } else if maximum == 1 {
        1
    } else {
        random_usize_between(rng, 2, maximum)
    }
}

/// Beliefs of distinct kinds, each valid.
pub open spec fn distinct_valid_beliefs(beliefs: Seq<Belief>) -> bool {
    &&& forall|i: int, j: int| 0 <= i < j < beliefs.len() ==> (#[trigger] beliefs[i]).kind != (#[trigger] beliefs[j]).kind
    &&& forall|i: int| 0 <= i < beliefs.len() ==> (#[trigger] beliefs[i]).valid()
}

/// Distinct valid beliefs, no more than the maximum, are their own normal form.
proof fn lemma_distinct_beliefs_normal(beliefs: Seq<Belief>)
    requires
        distinct_valid_beliefs(beliefs),
        beliefs.len() <= MAX_BELIEFS,
    ensures
        normalized_beliefs(beliefs) == beliefs,
    decreases beliefs.len(),
{
    if beliefs.len() > 0 {
        let rest = beliefs.drop_last();
        let last = beliefs.last();
        assert(distinct_valid_beliefs(rest)) by {
            assert forall|i: int, j: int| 0 <= i < j < rest.len() implies (#[trigger] rest[i]).kind != (#[trigger] rest[j]).kind by {
                assert(beliefs[i].kind != beliefs[j].kind);
            }
            assert forall|i: int| 0 <= i < rest.len() implies (#[trigger] rest[i]).valid() by {
                assert(beliefs[i].valid());
            }
        }
        lemma_distinct_beliefs_normal(rest);
        assert(!holds_kind(rest, last.kind)) by {
            if holds_kind(rest, last.kind) {
                let i = choose|i: int| 0 <= i < rest.len() && (#[trigger] rest[i]).kind == last.kind;
                assert(beliefs[i].kind != beliefs[beliefs.len() - 1].kind);
            }
        }
        assert(beliefs[beliefs.len() - 1].valid());
        assert(beliefs =~= rest.push(last));
    }
}

/// Ascending by kind, in declaration order.
pub open spec fn beliefs_ascending(beliefs: Seq<Belief>) -> bool {
    forall|i: int, j: int| 0 <= i < j < beliefs.len() ==> belief_kind_index((#[trigger] beliefs[i]).kind)
        < belief_kind_index((#[trigger] beliefs[j]).kind)
}

pub(crate) fn has_kind(beliefs: &Vec<Belief>, kind: BeliefKind) -> (found: bool)
    ensures
        found == holds_kind(beliefs@, kind),
{
    let mut i: usize = 0;
    while i < beliefs.len()
        invariant
            i <= beliefs@.len(),
            forall|j: int| 0 <= j < i ==> (#[trigger] beliefs@[j]).kind != kind,
        decreases beliefs.len() - i,
    {
        if beliefs[i].kind == kind {
            return true;
        }
        i = i + 1;
    }
    false
}

/// Adds a belief of a kind not held yet.
fn push_new_kind(beliefs: &mut Vec<Belief>, belief: Belief)
    requires
        distinct_valid_beliefs(old(beliefs)@),
        belief.valid(),
    ensures
        distinct_valid_beliefs(final(beliefs)@),
        !holds_kind(old(beliefs)@, belief.kind) ==> final(beliefs)@ == old(beliefs)@.push(belief),
        holds_kind(old(beliefs)@, belief.kind) ==> final(beliefs)@ == old(beliefs)@,
{
    if !has_kind(beliefs, belief.kind) {
        beliefs.push(belief);
        proof {
            assert forall|i: int, j: int| 0 <= i < j < beliefs@.len() implies (#[trigger] beliefs@[i]).kind
                != (#[trigger] beliefs@[j]).kind by {
                if j == beliefs@.len() - 1 {
                    if beliefs@[i].kind == belief.kind {
                        assert(old(beliefs)@[i] == beliefs@[i]);
                    }
                }
            }
        }
    }
}

proof fn lemma_insert_by_kind(before: Seq<Belief>, position: int, belief: Belief)
    requires
        beliefs_ascending(before),
        0 <= position <= before.len(),
        forall|k: int| 0 <= k < position ==> belief_kind_index((#[trigger] before[k]).kind) < belief_kind_index(belief.kind),
        forall|k: int| position <= k < before.len() ==> belief_kind_index(belief.kind) < belief_kind_index(
            (#[trigger] before[k]).kind,
        ),
    ensures
        beliefs_ascending(before.insert(position, belief)),
        forall|b: Belief| #[trigger] before.insert(position, belief).contains(b) <==> (before.contains(b) || b == belief),
{
    let after = before.insert(position, belief);
    assert forall|a: int, b: int| 0 <= a < b < after.len() implies belief_kind_index((#[trigger] after[a]).kind)
        < belief_kind_index((#[trigger] after[b]).kind) by {
        if b < position {
        } else if b == position {
        } else if a < position {
            assert(after[b] == before[b - 1]);
        } else if a == position {
            assert(after[b] == before[b - 1]);
        } else {
            assert(after[a] == before[a - 1]);
            assert(after[b] == before[b - 1]);
        }
    }
    assert forall|x: Belief| #[trigger] after.contains(x) <==> (before.contains(x) || x == belief) by {
        if after.contains(x) {
            let k = choose|k: int| 0 <= k < after.len() && after[k] == x;
            if k < position {
                assert(before[k] == x);
            } else if k > position {
                assert(before[k - 1] == x);
            }
        }
        if before.contains(x) {
            let k = choose|k: int| 0 <= k < before.len() && before[k] == x;
            if k < position {
                assert(after[k] == x);
            } else {
                assert(after[k + 1] == x);
            }
        }
        if x == belief {
            assert(after[position] == x);
        }
    }
}

/// Sorts beliefs ascending by kind.
fn sort_by_kind(beliefs: &mut Vec<Belief>)
    requires
        distinct_valid_beliefs(old(beliefs)@),
    ensures
        distinct_valid_beliefs(final(beliefs)@),
        beliefs_ascending(final(beliefs)@),
        final(beliefs)@.len() == old(beliefs)@.len(),
        forall|b: Belief| #[trigger] final(beliefs)@.contains(b) <==> old(beliefs)@.contains(b),
{
    let mut sorted: Vec<Belief> = Vec::new();
    let mut i: usize = 0;
    while i < beliefs.len()
        invariant
            i <= beliefs@.len(),
            distinct_valid_beliefs(beliefs@),
            beliefs_ascending(sorted@),
            sorted@.len() == i,
            forall|b: Belief| #[trigger] sorted@.contains(b) <==> beliefs@.take(i as int).contains(b),
        decreases beliefs.len() - i,
    {
        let belief = beliefs[i];
        let mut position: usize = 0;
        while position < sorted.len() && belief_kind_rank(sorted[position].kind) < belief_kind_rank(belief.kind)
            invariant
                position <= sorted@.len(),
                forall|k: int| 0 <= k < position ==> belief_kind_index((#[trigger] sorted@[k]).kind) < belief_kind_index(
                    belief.kind,
                ),
            decreases sorted.len() - position,
        {
            position = position + 1;
        }
        let ghost before = sorted@;
        proof {
            assert forall|k: int| position <= k < before.len() implies belief_kind_index(belief.kind)
                < belief_kind_index((#[trigger] before[k]).kind) by {
                assert(before.contains(before[k]));
                let m = choose|m: int| 0 <= m < i && beliefs@.take(i as int)[m] == before[k];
                assert(beliefs@[m].kind != beliefs@[i as int].kind);
                if k > position {
                    assert(belief_kind_index(before[position as int].kind) < belief_kind_index(before[k].kind));
                }
                assert(before.contains(before[position as int]));
                let n = choose|n: int| 0 <= n < i && beliefs@.take(i as int)[n] == before[position as int];
                assert(beliefs@[n].kind != beliefs@[i as int].kind);
            }
            lemma_insert_by_kind(before, position as int, belief);
        }
        sorted.insert(position, belief);
        proof {
            broadcast use vstd::seq_lib::group_seq_properties;
            assert(beliefs@.take(i + 1) =~= beliefs@.take(i as int).push(belief));
        }
        i = i + 1;
    }
    proof {
        assert(beliefs@.take(beliefs@.len() as int) =~= beliefs@);
        assert forall|k: int| 0 <= k < sorted@.len() implies (#[trigger] sorted@[k]).valid() by {
            assert(sorted@.contains(sorted@[k]));
        }
        assert forall|a: int, b: int| 0 <= a < b < sorted@.len() implies (#[trigger] sorted@[a]).kind
            != (#[trigger] sorted@[b]).kind by {}
    }
    *beliefs = sorted;
}

/// The position of a belief kind in declaration order.
fn belief_kind_rank(kind: BeliefKind) -> (rank: u8)
    ensures
        rank == belief_kind_index(kind),
{
    match kind {
        BeliefKind::ProtectFamily => 0,
        BeliefKind::HelpOthers => 1,
        BeliefKind::KeepPromises => 2,
        BeliefKind::ValueFreedom => 3,
        BeliefKind::ValueOrder => 4,
        BeliefKind::ValueWealth => 5,
        BeliefKind::ValueKnowledge => 6,
        BeliefKind::ProtectHometown => 7,
        BeliefKind::DistrustOutsiders => 8,
        BeliefKind::JudgeIndividuals => 9,
    }
}

/// Every kind of belief, once each.
pub open spec fn every_belief_kind() -> Seq<BeliefKind> {
    seq![
        BeliefKind::ProtectFamily,
        BeliefKind::HelpOthers,
        BeliefKind::KeepPromises,
        BeliefKind::ValueFreedom,
        BeliefKind::ValueOrder,
        BeliefKind::ValueWealth,
        BeliefKind::ValueKnowledge,
        BeliefKind::ProtectHometown,
        BeliefKind::DistrustOutsiders,
        BeliefKind::JudgeIndividuals,
    ]
}

/// Beliefs of distinct kinds number at most ten, and exactly ten when every kind is held.
proof fn lemma_distinct_kinds_count(beliefs: Seq<Belief>)
    requires
        distinct_valid_beliefs(beliefs),
    ensures
        beliefs.len() <= 10,
        (forall|kind: BeliefKind| holds_kind(beliefs, kind)) ==> beliefs.len() == 10,
{
    broadcast use vstd::seq_lib::seq_to_set_is_finite;
    let kinds = beliefs.map_values(|belief: Belief| belief.kind);
    let every = every_belief_kind();
    assert(kinds.no_duplicates()) by {
        assert forall|i: int, j: int| 0 <= i < kinds.len() && 0 <= j < kinds.len() && i != j implies kinds[i] != kinds[j] by {
            if i < j {
                assert(beliefs[i].kind != beliefs[j].kind);
            } else {
                assert(beliefs[j].kind != beliefs[i].kind);
            }
        }
    }
    assert(every.no_duplicates());
    kinds.unique_seq_to_set();
    every.unique_seq_to_set();
    assert(kinds.to_set().subset_of(every.to_set())) by {
        assert forall|kind: BeliefKind| kinds.to_set().contains(kind) implies every.to_set().contains(kind) by {
            assert(every[belief_kind_index(kind)] == kind);
        }
    }
    vstd::set_lib::lemma_len_subset(kinds.to_set(), every.to_set());
    if forall|kind: BeliefKind| holds_kind(beliefs, kind) {
        assert(every.to_set().subset_of(kinds.to_set())) by {
            assert forall|kind: BeliefKind| every.to_set().contains(kind) implies kinds.to_set().contains(kind) by {
                assert(holds_kind(beliefs, kind));
                let i = choose|i: int| 0 <= i < beliefs.len() && (#[trigger] beliefs[i]).kind == kind;
                assert(kinds[i] == kind);
            }
        }
        vstd::set_lib::lemma_len_subset(every.to_set(), kinds.to_set());
    }
}

/// Tops up the beliefs with random new kinds, each of strength `4..=8`, until `desired`
/// (or until every kind is held).
fn fill_missing_beliefs(beliefs: &mut Vec<Belief>, desired: usize, rng: &mut ChaCha8Rng)
    requires
        distinct_valid_beliefs(old(beliefs)@),
        old(beliefs)@.len() <= desired,
    ensures
        distinct_valid_beliefs(final(beliefs)@),
        final(beliefs)@.len() == (if desired < 10 {
            desired
        } else {
            10
        }),
        old(beliefs)@.is_prefix_of(final(beliefs)@),
        forall|j: int|
            old(beliefs)@.len() <= j < final(beliefs)@.len() ==> 4 <= #[trigger] final(beliefs)@[j].strength <= 8,
{
    let mut kinds: Vec<BeliefKind> = Vec::new();
    let all = BeliefKind::all();
    let mut k: usize = 0;
    while k < all.len()
        invariant
            k <= all@.len(),
            kinds@ == all@.take(k as int),
        decreases all.len() - k,
    {
        kinds.push(all[k]);
        proof {
            assert(all@.take(k + 1) =~= all@.take(k as int).push(all@[k as int]));
        }
        k = k + 1;
    }
    proof {
        assert(all@.take(10) =~= all@);
    }
    let ghost listed = kinds@;
    shuffle(&mut kinds, rng);
    proof {
        broadcast use vstd::seq_lib::group_to_multiset_ensures;
        assert forall|kind: BeliefKind| #[trigger] kinds@.contains(kind) by {
            let i = belief_kind_index(kind);
            assert(listed[i] == all@[i]);
            assert(belief_kind_index(listed[i]) == i);
            assert(listed[i] == kind);
            assert(listed.contains(kind));
            assert(listed.to_multiset().count(kind) > 0);
        }
    }
    let mut i: usize = 0;
    while i < kinds.len() && beliefs.len() < desired
        invariant
            i <= kinds@.len(),
            distinct_valid_beliefs(beliefs@),
            beliefs@.len() <= desired,
            old(beliefs)@.is_prefix_of(beliefs@),
            forall|j: int| old(beliefs)@.len() <= j < beliefs@.len() ==> 4 <= #[trigger] beliefs@[j].strength <= 8,
            forall|j: int| 0 <= j < i ==> holds_kind(beliefs@, #[trigger] kinds@[j]),
            forall|kind: BeliefKind| #[trigger] kinds@.contains(kind),
        decreases kinds.len() - i,
    {
        let kind = kinds[i];
        if !has_kind(beliefs, kind) {
            let strength = random_u8_between(rng, 4, 8);
            let ghost before = beliefs@;
            push_new_kind(beliefs, Belief::new(kind, strength));
            proof {
                assert forall|j: int| 0 <= j < old(beliefs)@.len() implies old(beliefs)@[j] == beliefs@[j] by {
                    assert(old(beliefs)@[j] == before[j]);
                }
                assert forall|j: int| 0 <= j < i implies holds_kind(beliefs@, #[trigger] kinds@[j]) by {
                    assert(holds_kind(before, kinds@[j]));
                    let m = choose|m: int| 0 <= m < before.len() && (#[trigger] before[m]).kind == kinds@[j];
                    assert(beliefs@[m] == before[m]);
                }
                assert(beliefs@[before.len() as int].kind == kind);
            }
        }
        i = i + 1;
    }
    proof {
        lemma_distinct_kinds_count(beliefs@);
        if beliefs@.len() < desired {
            assert forall|kind: BeliefKind| holds_kind(beliefs@, kind) by {
                assert(kinds@.contains(kind));
                let j = choose|j: int| 0 <= j < kinds@.len() && kinds@[j] == kind;
                assert(holds_kind(beliefs@, kinds@[j]));
            }
        }
    }
}

/// Initial beliefs: about half drawn from the town's culture (its strength varied by one),
/// the rest at random, then topped up; distinct kinds, ascending.
fn sample_initial_beliefs(culture: &Vec<Belief>, max_beliefs: usize, rng: &mut ChaCha8Rng) -> (beliefs: Vec<Belief>)
    ensures
        distinct_valid_beliefs(beliefs@),
        beliefs_ascending(beliefs@),
        beliefs@.len() <= max_beliefs,
        beliefs@.len() <= MAX_BELIEFS,
        max_beliefs == 0 ==> beliefs@.len() == 0,
        max_beliefs == 1 ==> beliefs@.len() == 1,
        max_beliefs >= 2 ==> beliefs@.len() >= 2,
{
    let desired = desired_belief_count(max_beliefs, rng);
    let mut result: Vec<Belief> = Vec::new();
    let mut attempts: usize = 0;
    let limit: usize = if desired == 0 {
        1
    } else {
        desired * 12
    };
    while result.len() < desired && attempts < limit
        invariant
            desired <= MAX_BELIEFS,
            result@.len() <= desired,
            distinct_valid_beliefs(result@),
        decreases limit - attempts,
    {
        attempts = attempts + 1;
        let from_culture = culture.len() > 0 && random_i32_below(rng, 0, 100) < 55;
        let belief = if from_culture {
            let source = culture[random_usize_below(rng, 0, culture.len())];
            let variation = random_i8_between(rng, -1, 1);
            Belief::new(source.kind, vary_strength(source.strength, variation))
        } else {
            let all = BeliefKind::all();
            let kind = all[random_usize_below(rng, 0, all.len())];
            let strength = random_u8_between(rng, 4, 9);
            Belief::new(kind, strength)
        };
        push_new_kind(&mut result, belief);
    }
    fill_missing_beliefs(&mut result, desired, rng);
    sort_by_kind(&mut result);
    result
}

/// A child's beliefs: mostly inherited from either parent, sometimes from the town's
/// culture, each strength varied by up to two; then topped up; distinct kinds, ascending.
fn sample_child_beliefs(
    parent_a: &Vec<Belief>,
    parent_b: &Vec<Belief>,
    culture: &Vec<Belief>,
    max_beliefs: usize,
    rng: &mut ChaCha8Rng,
) -> (beliefs: Vec<Belief>)
    ensures
        distinct_valid_beliefs(beliefs@),
        beliefs_ascending(beliefs@),
        beliefs@.len() <= max_beliefs,
        beliefs@.len() <= MAX_BELIEFS,
        max_beliefs == 0 ==> beliefs@.len() == 0,
        max_beliefs == 1 ==> beliefs@.len() == 1,
        max_beliefs >= 2 ==> beliefs@.len() >= 2,
{
    let desired = desired_belief_count(max_beliefs, rng);
    let mut result: Vec<Belief> = Vec::new();
    let mut attempts: usize = 0;
    let limit: usize = if desired == 0 {
        1
    } else {
        desired * 16
    };
    while result.len() < desired && attempts < limit
        invariant
            desired <= MAX_BELIEFS,
            result@.len() <= desired,
            distinct_valid_beliefs(result@),
        decreases limit - attempts,
    {
        attempts = attempts + 1;
        let roll = random_i32_below(rng, 0, 100);
        let chosen = if roll <= 39 {
            parent_a
        } else if roll <= 79 {
            parent_b
        } else {
            culture
        };
        let source = if chosen.len() == 0 {
            if parent_a.len() > 0 {
                parent_a
            } else if parent_b.len() > 0 {
                parent_b
            } else {
                culture
            }
        } else {
            chosen
        };
        if source.len() == 0 {
            break;
        }
        let inherited = source[random_usize_below(rng, 0, source.len())];
        let variation = random_i8_between(rng, -2, 2);
        let belief = Belief::new(inherited.kind, vary_strength(inherited.strength, variation));
        push_new_kind(&mut result, belief);
    }
    fill_missing_beliefs(&mut result, desired, rng);
    sort_by_kind(&mut result);
    result
}

/// The name of the town at `index`: `Town-` and the number from one, two digits at least.
pub open spec fn town_name_text(index: nat) -> Seq<char> {
    seq!['T', 'o', 'w', 'n', '-'] + padded_left(decimal(index + 1), 2, '0')
}

fn town_name(index: usize) -> (name: String)
    requires
        index < u64::MAX,
    ensures
        name@ == town_name_text(index as nat),
{
    proof {
        reveal_strlit("Town-");
        reveal_strlit("0");
    }
    let mut name = String::from_str("Town-");
    append_padded(&mut name, (index as u64) + 1, 2, "0");
    name
}

/// Capacity for a town meant to hold `population`: 110-150% of it (rounded up, within
/// `u32`), or 20 to 50 for an empty town.
pub open spec fn capacity_for(population: usize, factor_per_mille: u64) -> u32 {
    let scaled = crate::arith::saturating_mul_spec(population as u64, factor_per_mille);
    let rounded = crate::arith::div_ceil_spec(scaled as int, 1000);
    if rounded < 1 {
        1
    } else if rounded > u32::MAX {
        u32::MAX
    } else {
        rounded as u32
    }
}

/// The capacity was drawn for a town meant to hold `population`: from 110% to 150% of it,
/// or between 20 and 50 for an empty town.
pub open spec fn capacity_drawn(capacity: u32, population: usize) -> bool {
    if population > 0 {
        exists|factor_per_mille: u64| 1100 <= factor_per_mille <= 1500 && capacity == #[trigger] capacity_for(population, factor_per_mille)
    } else {
        20 <= capacity <= 50
    }
}

/// The share of the population that the town at index `t` starts with.
pub open spec fn town_share(population: usize, town_count: usize, t: int) -> int {
    population / town_count + (if t < population % town_count {
        1int
    } else {
        0int
    })
}

/// The towns, one per entry of `populations`, with random values and cultures.
fn generate_towns(populations: &Vec<usize>, rng: &mut ChaCha8Rng) -> (result: Result<Vec<Town>, PopulationError>)
    requires
        populations@.len() <= u16::MAX + 1,
    ensures
        result matches Ok(towns) ==> towns@.len() == populations@.len() && forall|i: int|
            0 <= i < towns@.len() ==> (#[trigger] towns@[i]).id.0 == i && towns@[i].well_formed()
                && towns@[i].neighbors@.len() == 0 && towns@[i].name@ == town_name_text(i as nat)
                && capacity_drawn(towns@[i].population_capacity, populations@[i]),
        result is Ok,
{
    let mut towns: Vec<Town> = Vec::new();
    let mut index: usize = 0;
    while index < populations.len()
        invariant
            index <= populations@.len(),
            populations@.len() <= u16::MAX + 1,
            towns@.len() == index,
            forall|i: int| 0 <= i < towns@.len() ==> (#[trigger] towns@[i]).id.0 == i && towns@[i].well_formed()
                && towns@[i].neighbors@.len() == 0 && towns@[i].name@ == town_name_text(i as nat)
                && capacity_drawn(towns@[i].population_capacity, populations@[i]),
        decreases populations.len() - index,
    {
        let population = populations[index];
        let id = TownId(index as u16);
        let factor = random_u64_between(rng, 1100, 1500);
        let capacity: u32 = if population == 0 {
            random_u32_between(rng, 20, 50)
        } else {
            let scaled = crate::arith::saturating_mul_u64(population as u64, factor);
            let rounded = crate::arith::div_ceil_u64(scaled, 1000);
            if rounded < 1 {
                1
            } else if rounded > u32::MAX as u64 {
                u32::MAX
            } else {
                rounded as u32
            }
        };
        let name = town_name(index);
        let jobs = random_u8_between(rng, 3, 8);
        let safety = random_u8_between(rng, 3, 8);
        let education = random_u8_between(rng, 3, 8);
        let freedom = random_u8_between(rng, 3, 8);
        let wealth = random_u8_between(rng, 3, 8);
        proof {
            if population > 0 {
                assert(capacity == capacity_for(population, factor));
            }
        }
        let mut town = Town::new(id, name, capacity, jobs, safety, education, freedom, wealth);
        town.culture = sample_initial_beliefs(&Vec::new(), MAX_BELIEFS, rng);
        towns.push(town);
        index = index + 1;
    }
    Ok(towns)
}

/// Each town carries its index as its id.
pub open spec fn ids_are_indexes(towns: Seq<Town>) -> bool {
    forall|i: int| 0 <= i < towns.len() ==> (#[trigger] towns[i]).id.0 == i
}

/// The road from `town` along `connection` comes back: the destination is a listed town,
/// and it has a connection to `town` over the same distance.
pub open spec fn road_returns(towns: Seq<Town>, town: Town, connection: TownConnection) -> bool {
    &&& 0 <= connection.destination.0 < towns.len()
    &&& towns[connection.destination.0 as int].neighbors@.contains(
        TownConnection { destination: town.id, distance: connection.distance },
    )
}

/// Every road runs both ways, over the same distance.
pub open spec fn roads_symmetric(towns: Seq<Town>) -> bool {
    forall|i: int, k: int|
        #![trigger towns[i].neighbors@[k]]
        0 <= i < towns.len() && 0 <= k < towns[i].neighbors@.len() ==> road_returns(
            towns,
            towns[i],
            towns[i].neighbors@[k],
        )
}

/// The town at index `from` has a road to the town at index `to`.
pub open spec fn road_between(towns: Seq<Town>, from: int, to: int) -> bool {
    exists|k: int| 0 <= k < towns[from].neighbors@.len() && (#[trigger] towns[from].neighbors@[k]).destination.0 == to
}

/// A walk along roads through the towns at the listed indexes.
pub open spec fn is_walk(towns: Seq<Town>, walk: Seq<int>) -> bool {
    &&& walk.len() >= 1
    &&& forall|i: int| 0 <= i < walk.len() ==> 0 <= #[trigger] walk[i] < towns.len()
    &&& forall|i: int| 0 <= i < walk.len() - 1 ==> #[trigger] road_between(towns, walk[i], walk[i + 1])
}

/// Some walk leads from the town at index `from` to the town at index `to`.
pub open spec fn reachable(towns: Seq<Town>, from: int, to: int) -> bool {
    exists|walk: Seq<int>| #[trigger] is_walk(towns, walk) && walk[0] == from && walk.last() == to
}

/// Every town can be reached from every other along roads.
pub open spec fn towns_connected(towns: Seq<Town>) -> bool {
    forall|from: int, to: int| 0 <= from < towns.len() && 0 <= to < towns.len() ==> #[trigger] reachable(towns, from, to)
}

/// The index is one of the entries.
pub open spec fn appears(order: Seq<usize>, index: int) -> bool {
    exists|c: int| 0 <= c < order.len() && #[trigger] order[c] == index
}

/// Every road of `before` is still there in `after`.
pub open spec fn roads_kept(before: Seq<Town>, after: Seq<Town>) -> bool {
    &&& after.len() == before.len()
    &&& forall|from: int, to: int|
        0 <= from < before.len() && #[trigger] road_between(before, from, to) ==> road_between(after, from, to)
}

proof fn lemma_walk_kept(before: Seq<Town>, after: Seq<Town>, walk: Seq<int>)
    requires
        roads_kept(before, after),
        is_walk(before, walk),
    ensures
        is_walk(after, walk),
{
    assert forall|i: int| 0 <= i < walk.len() - 1 implies #[trigger] road_between(after, walk[i], walk[i + 1]) by {
        assert(road_between(before, walk[i], walk[i + 1]));
    }
}

proof fn lemma_reachable_kept(before: Seq<Town>, after: Seq<Town>, from: int, to: int)
    requires
        roads_kept(before, after),
        reachable(before, from, to),
    ensures
        reachable(after, from, to),
{
    let walk = choose|walk: Seq<int>| #[trigger] is_walk(before, walk) && walk[0] == from && walk.last() == to;
    lemma_walk_kept(before, after, walk);
}

proof fn lemma_reachable_step(towns: Seq<Town>, from: int, middle: int, to: int)
    requires
        reachable(towns, from, middle),
        road_between(towns, middle, to),
        0 <= to < towns.len(),
    ensures
        reachable(towns, from, to),
{
    let walk = choose|walk: Seq<int>| #[trigger] is_walk(towns, walk) && walk[0] == from && walk.last() == middle;
    let longer = walk.push(to);
    assert forall|i: int| 0 <= i < longer.len() - 1 implies #[trigger] road_between(towns, longer[i], longer[i + 1]) by {
        if i < walk.len() - 1 {
            assert(longer[i] == walk[i] && longer[i + 1] == walk[i + 1]);
        }
    }
    assert(is_walk(towns, longer));
}

/// On symmetric roads between towns that carry their indexes, every road can be taken back.
proof fn lemma_road_back(towns: Seq<Town>, from: int, to: int)
    requires
        ids_are_indexes(towns),
        roads_symmetric(towns),
        0 <= from < towns.len(),
        road_between(towns, from, to),
    ensures
        road_between(towns, to, from),
{
    let k = choose|k: int| 0 <= k < towns[from].neighbors@.len() && (#[trigger] towns[from].neighbors@[k]).destination.0 == to;
    assert(road_returns(towns, towns[from], towns[from].neighbors@[k]));
    let back = TownConnection { destination: towns[from].id, distance: towns[from].neighbors@[k].distance };
    let m = choose|m: int| 0 <= m < towns[to].neighbors@.len() && towns[to].neighbors@[m] == back;
    assert(towns[to].neighbors@[m].destination.0 == from);
}

proof fn lemma_reachable_back(towns: Seq<Town>, from: int, to: int)
    requires
        ids_are_indexes(towns),
        roads_symmetric(towns),
        reachable(towns, from, to),
    ensures
        reachable(towns, to, from),
{
    let walk = choose|walk: Seq<int>| #[trigger] is_walk(towns, walk) && walk[0] == from && walk.last() == to;
    let back = walk.reverse();
    assert forall|i: int| 0 <= i < back.len() - 1 implies #[trigger] road_between(towns, back[i], back[i + 1]) by {
        let j = walk.len() - 2 - i;
        assert(road_between(towns, walk[j], walk[j + 1]));
        assert(back[i] == walk[j + 1] && back[i + 1] == walk[j]);
        lemma_road_back(towns, walk[j], walk[j + 1]);
    }
    assert forall|i: int| 0 <= i < back.len() implies 0 <= #[trigger] back[i] < towns.len() by {
        assert(back[i] == walk[walk.len() - 1 - i]);
    }
    assert(is_walk(towns, back));
}

proof fn lemma_reachable_join(towns: Seq<Town>, from: int, middle: int, to: int)
    requires
        reachable(towns, from, middle),
        reachable(towns, middle, to),
    ensures
        reachable(towns, from, to),
{
    let first = choose|walk: Seq<int>| #[trigger] is_walk(towns, walk) && walk[0] == from && walk.last() == middle;
    let second = choose|walk: Seq<int>| #[trigger] is_walk(towns, walk) && walk[0] == middle && walk.last() == to;
    let joined = first + second.skip(1);
    assert forall|i: int| 0 <= i < joined.len() implies 0 <= #[trigger] joined[i] < towns.len() by {
        if i >= first.len() {
            assert(joined[i] == second[i - first.len() + 1]);
        }
    }
    assert forall|i: int| 0 <= i < joined.len() - 1 implies #[trigger] road_between(towns, joined[i], joined[i + 1]) by {
        if i < first.len() - 1 {
            assert(joined[i] == first[i] && joined[i + 1] == first[i + 1]);
        } else if i == first.len() - 1 {
            assert(joined[i] == second[0]);
            assert(joined[i + 1] == second[1]);
        } else {
            let j = i - first.len() + 1;
            assert(joined[i] == second[j] && joined[i + 1] == second[j + 1]);
        }
    }
    if second.len() == 1 {
        assert(joined =~= first);
    } else {
        assert(joined.last() == second.last());
    }
    assert(is_walk(towns, joined));
}

/// When every town can be reached from one of them and roads run both ways, every town can
/// be reached from every other.
proof fn lemma_connected_through(towns: Seq<Town>, root: int)
    requires
        ids_are_indexes(towns),
        roads_symmetric(towns),
        forall|t: int| 0 <= t < towns.len() ==> #[trigger] reachable(towns, root, t),
    ensures
        towns_connected(towns),
{
    assert forall|from: int, to: int| 0 <= from < towns.len() && 0 <= to < towns.len() implies #[trigger] reachable(
        towns,
        from,
        to,
    ) by {
        assert(reachable(towns, root, from));
        lemma_reachable_back(towns, root, from);
        assert(reachable(towns, root, to));
        lemma_reachable_join(towns, from, root, to);
    }
}

/// The number of connections over all the towns (each road counts once from each end).
pub open spec fn connection_count(towns: Seq<Town>) -> nat
    decreases towns.len(),
{
    if towns.len() == 0 {
        0
    } else {
        connection_count(towns.drop_last()) + towns.last().neighbors@.len()
    }
}

/// Towns without connections count none.
proof fn lemma_no_connections(towns: Seq<Town>)
    requires
        forall|t: int| 0 <= t < towns.len() ==> (#[trigger] towns[t]).neighbors@.len() == 0,
    ensures
        connection_count(towns) == 0,
    decreases towns.len(),
{
    if towns.len() > 0 {
        assert forall|t: int| 0 <= t < towns.drop_last().len() implies (#[trigger] towns.drop_last()[t]).neighbors@.len()
            == 0 by {
            assert(towns.drop_last()[t] == towns[t]);
        }
        lemma_no_connections(towns.drop_last());
    }
}

/// Growing the towns at `a` and `b` by at most one connection each grows the count by at
/// most two.
proof fn lemma_connection_count_grows(before: Seq<Town>, after: Seq<Town>, a: int, b: int)
    requires
        after.len() == before.len(),
        forall|t: int|
            0 <= t < before.len() ==> (#[trigger] after[t]).neighbors@.len() <= before[t].neighbors@.len() + (if t
                == a {
                1int
            } else {
                0int
            }) + (if t == b {
                1int
            } else {
                0int
            }),
    ensures
        connection_count(after) <= connection_count(before) + (if 0 <= a < before.len() {
            1int
        } else {
            0int
        }) + (if 0 <= b < before.len() {
            1int
        } else {
            0int
        }),
    decreases before.len(),
{
    if before.len() > 0 {
        let n = before.len() - 1;
        assert forall|t: int| 0 <= t < n implies (#[trigger] after.drop_last()[t]).neighbors@.len()
            <= before.drop_last()[t].neighbors@.len() + (if t == a {
            1int
        } else {
            0int
        }) + (if t == b {
            1int
        } else {
            0int
        }) by {
            assert(after.drop_last()[t] == after[t]);
            assert(before.drop_last()[t] == before[t]);
        }
        lemma_connection_count_grows(before.drop_last(), after.drop_last(), a, b);
        assert(after[n].neighbors@.len() <= before[n].neighbors@.len() + (if n == a {
            1int
        } else {
            0int
        }) + (if n == b {
            1int
        } else {
            0int
        }));
    }
}

/// Roads stay symmetric when a road between the towns at `a` and `b` gets the distance
/// `m` in both directions and nothing else changes.
proof fn lemma_road_added(before: Seq<Town>, after: Seq<Town>, a: int, b: int, m: u8)
    requires
        0 <= a < before.len(),
        0 <= b < before.len(),
        a != b,
        after.len() == before.len(),
        ids_are_indexes(before),
        roads_symmetric(before),
        forall|t: int| 0 <= t < before.len() ==> (#[trigger] before[t]).well_formed(),
        forall|t: int| 0 <= t < before.len() && t != a && t != b ==> #[trigger] after[t] == before[t],
        forall|t: int| 0 <= t < before.len() ==> (#[trigger] after[t]).id == before[t].id,
        after[a].neighbors@.contains(TownConnection { destination: before[b].id, distance: m }),
        after[b].neighbors@.contains(TownConnection { destination: before[a].id, distance: m }),
        forall|e: TownConnection|
            #[trigger] before[a].neighbors@.contains(e) && e.destination != before[b].id ==> after[a].neighbors@.contains(e),
        forall|e: TownConnection|
            #[trigger] before[b].neighbors@.contains(e) && e.destination != before[a].id ==> after[b].neighbors@.contains(e),
        forall|k: int|
            0 <= k < after[a].neighbors@.len() && (#[trigger] after[a].neighbors@[k]).destination != before[b].id
                ==> before[a].neighbors@.contains(after[a].neighbors@[k]),
        forall|k: int|
            0 <= k < after[b].neighbors@.len() && (#[trigger] after[b].neighbors@[k]).destination != before[a].id
                ==> before[b].neighbors@.contains(after[b].neighbors@[k]),
        forall|k: int|
            0 <= k < after[a].neighbors@.len() && (#[trigger] after[a].neighbors@[k]).destination == before[b].id
                ==> after[a].neighbors@[k].distance == m,
        forall|k: int|
            0 <= k < after[b].neighbors@.len() && (#[trigger] after[b].neighbors@[k]).destination == before[a].id
                ==> after[b].neighbors@[k].distance == m,
    ensures
        roads_symmetric(after),
        roads_kept(before, after),
        road_between(after, a, b),
        road_between(after, b, a),
{
    let to_b = TownConnection { destination: before[b].id, distance: m };
    let to_a = TownConnection { destination: before[a].id, distance: m };
    let kb = choose|k: int| 0 <= k < after[a].neighbors@.len() && after[a].neighbors@[k] == to_b;
    let ka = choose|k: int| 0 <= k < after[b].neighbors@.len() && after[b].neighbors@[k] == to_a;
    assert(after[a].neighbors@[kb].destination.0 == b);
    assert(after[b].neighbors@[ka].destination.0 == a);
    assert forall|from: int, to: int| 0 <= from < before.len() && #[trigger] road_between(before, from, to) implies road_between(
        after,
        from,
        to,
    ) by {
        let k = choose|k: int| 0 <= k < before[from].neighbors@.len() && (#[trigger] before[from].neighbors@[k]).destination.0
            == to;
        let e = before[from].neighbors@[k];
        if from == a {
            if e.destination != before[b].id {
                assert(before[a].neighbors@.contains(e));
                let q = choose|q: int| 0 <= q < after[a].neighbors@.len() && after[a].neighbors@[q] == e;
                assert(after[a].neighbors@[q].destination.0 == to);
            }
        } else if from == b {
            if e.destination != before[a].id {
                assert(before[b].neighbors@.contains(e));
                let q = choose|q: int| 0 <= q < after[b].neighbors@.len() && after[b].neighbors@[q] == e;
                assert(after[b].neighbors@[q].destination.0 == to);
            }
        } else {
            assert(after[from] == before[from]);
            assert(after[from].neighbors@[k].destination.0 == to);
        }
    }
    assert forall|i: int, k: int|
        0 <= i < after.len() && 0 <= k < after[i].neighbors@.len() implies #[trigger] road_returns(
        after,
        after[i],
        after[i].neighbors@[k],
    ) by {
        let c = after[i].neighbors@[k];
        let back = TownConnection { destination: after[i].id, distance: c.distance };
        if (i == a && c.destination == before[b].id) || (i == b && c.destination == before[a].id) {
        } else {
            let q = choose|q: int| 0 <= q < before[i].neighbors@.len() && before[i].neighbors@[q] == c;
            if i != a && i != b {
                assert(before[i].neighbors@[q] == c);
            }
            assert(road_returns(before, before[i], before[i].neighbors@[q]));
            let t = c.destination.0 as int;
            assert(before[t].neighbors@.contains(back));
            if t == a {
                assert(back.destination != before[b].id);
            } else if t == b {
                assert(back.destination != before[a].id);
            }
        }
    }
}

/// Adds the connection in both directions between the towns at `a` and `b` (none for a
/// town with itself).
#[verifier::rlimit(30)]
fn add_undirected_connection(towns: &mut Vec<Town>, a: usize, b: usize, distance: u8)
    requires
        a < old(towns)@.len(),
        b < old(towns)@.len(),
        forall|i: int| 0 <= i < old(towns)@.len() ==> (#[trigger] old(towns)@[i]).well_formed(),
        ids_are_indexes(old(towns)@),
        roads_symmetric(old(towns)@),
    ensures
        final(towns)@.len() == old(towns)@.len(),
        forall|i: int| 0 <= i < final(towns)@.len() ==> (#[trigger] final(towns)@[i]).well_formed()
            && final(towns)@[i].id == old(towns)@[i].id && final(towns)@[i].name == old(towns)@[i].name
            && final(towns)@[i].culture == old(towns)@[i].culture
            && final(towns)@[i].population_capacity == old(towns)@[i].population_capacity,
        roads_symmetric(final(towns)@),
        roads_kept(old(towns)@, final(towns)@),
        a != b ==> road_between(final(towns)@, a as int, b as int) && road_between(final(towns)@, b as int, a as int),
        connection_count(final(towns)@) <= connection_count(old(towns)@) + 2,
{
    if a == b {
        return;
    }
    let a_id = towns[a].id;
    let b_id = towns[b].id;
    let ghost before = towns@;
    let ghost d = clamped_distance(distance);
    towns[a].add_neighbor(TownConnection::new(b_id, distance));
    let ghost middle = towns@;
    proof {
        assert forall|i: int| 0 <= i < towns@.len() && i != a implies #[trigger] towns@[i] == before[i] by {}
    }
    towns[b].add_neighbor(TownConnection::new(a_id, distance));
    proof {
        assert forall|i: int| 0 <= i < towns@.len() && i != b implies #[trigger] towns@[i] == middle[i] by {}
        let old_a = before[a as int].neighbors@;
        let old_b = before[b as int].neighbors@;
        let new_a = towns@[a as int].neighbors@;
        let new_b = towns@[b as int].neighbors@;
        assert(a_id.0 == a && b_id.0 == b);
        assert(a_id != b_id);
        if has_connection(old_a, b_id) {
            let i = choose|i: int|
                first_connection_index(old_a, b_id, i) && new_a == old_a.update(
                    i,
                    TownConnection { destination: b_id, distance: min_u8(old_a[i].distance, d) },
                );
            let x = old_a[i].distance;
            let m = min_u8(x, d);
            assert(road_returns(before, before[a as int], old_a[i]));
            assert(old_b.contains(TownConnection { destination: a_id, distance: x }));
            let r = choose|r: int| 0 <= r < old_b.len() && old_b[r] == TownConnection { destination: a_id, distance: x };
            assert(has_connection(old_b, a_id));
            let j = choose|j: int|
                first_connection_index(old_b, a_id, j) && new_b == old_b.update(
                    j,
                    TownConnection { destination: a_id, distance: min_u8(old_b[j].distance, d) },
                );
            assert(j == r) by {
                if j < r {
                    assert(old_b[j].destination.0 < old_b[r].destination.0);
                } else if r < j {
                    assert(old_b[r].destination != a_id);
                }
            }
            assert(new_a[i] == TownConnection { destination: b_id, distance: m });
            assert(new_b[j] == TownConnection { destination: a_id, distance: m });
            assert forall|e: TownConnection| #[trigger] old_a.contains(e) && e.destination != b_id implies new_a.contains(e) by {
                let q = choose|q: int| 0 <= q < old_a.len() && old_a[q] == e;
                assert(new_a[q] == e);
            }
            assert forall|e: TownConnection| #[trigger] old_b.contains(e) && e.destination != a_id implies new_b.contains(e) by {
                let q = choose|q: int| 0 <= q < old_b.len() && old_b[q] == e;
                assert(new_b[q] == e);
            }
            assert forall|k: int| 0 <= k < new_a.len() && (#[trigger] new_a[k]).destination != b_id implies old_a.contains(
                new_a[k],
            ) by {
                assert(new_a[k] == old_a[k]);
            }
            assert forall|k: int| 0 <= k < new_b.len() && (#[trigger] new_b[k]).destination != a_id implies old_b.contains(
                new_b[k],
            ) by {
                assert(new_b[k] == old_b[k]);
            }
            assert forall|k: int| 0 <= k < new_a.len() && (#[trigger] new_a[k]).destination == b_id implies new_a[k].distance
                == m by {
                if k != i {
                    if k < i {
                        assert(old_a[k].destination != b_id);
                    } else {
                        assert(old_a[i].destination.0 < old_a[k].destination.0);
                    }
                }
            }
            assert forall|k: int| 0 <= k < new_b.len() && (#[trigger] new_b[k]).destination == a_id implies new_b[k].distance
                == m by {
                if k != j {
                    if k < j {
                        assert(old_b[k].destination != a_id);
                    } else {
                        assert(old_b[j].destination.0 < old_b[k].destination.0);
                    }
                }
            }
            lemma_road_added(before, towns@, a as int, b as int, m);
        } else {
            assert(!has_connection(old_b, a_id)) by {
                if has_connection(old_b, a_id) {
                    let r = choose|r: int| 0 <= r < old_b.len() && old_b[r].destination == a_id;
                    assert(road_returns(before, before[b as int], old_b[r]));
                    let back = TownConnection { destination: b_id, distance: old_b[r].distance };
                    assert(old_a.contains(back));
                    let q = choose|q: int| 0 <= q < old_a.len() && old_a[q] == back;
                    assert(old_a[q].destination == b_id);
                }
            }
            let c_a = TownConnection { destination: b_id, distance: d };
            let c_b = TownConnection { destination: a_id, distance: d };
            let p = choose|p: int| 0 <= p <= old_a.len() && new_a == old_a.insert(p, c_a);
            let q = choose|q: int| 0 <= q <= old_b.len() && new_b == old_b.insert(q, c_b);
            assert(new_a[p] == c_a);
            assert(new_b[q] == c_b);
            assert forall|e: TownConnection| #[trigger] old_a.contains(e) && e.destination != b_id implies new_a.contains(e) by {
                let r = choose|r: int| 0 <= r < old_a.len() && old_a[r] == e;
                if r < p {
                    assert(new_a[r] == e);
                } else {
                    assert(new_a[r + 1] == e);
                }
            }
            assert forall|e: TownConnection| #[trigger] old_b.contains(e) && e.destination != a_id implies new_b.contains(e) by {
                let r = choose|r: int| 0 <= r < old_b.len() && old_b[r] == e;
                if r < q {
                    assert(new_b[r] == e);
                } else {
                    assert(new_b[r + 1] == e);
                }
            }
            assert forall|k: int| 0 <= k < new_a.len() && (#[trigger] new_a[k]).destination != b_id implies old_a.contains(
                new_a[k],
            ) by {
                if k < p {
                    assert(new_a[k] == old_a[k]);
                } else {
                    assert(new_a[k] == old_a[k - 1]);
                }
            }
            assert forall|k: int| 0 <= k < new_b.len() && (#[trigger] new_b[k]).destination != a_id implies old_b.contains(
                new_b[k],
            ) by {
                if k < q {
                    assert(new_b[k] == old_b[k]);
                } else {
                    assert(new_b[k] == old_b[k - 1]);
                }
            }
            assert forall|k: int| 0 <= k < new_a.len() && (#[trigger] new_a[k]).destination == b_id implies new_a[k].distance
                == d by {
                if k < p {
                    assert(new_a[k] == old_a[k]);
                } else if k > p {
                    assert(new_a[k] == old_a[k - 1]);
                }
            }
            assert forall|k: int| 0 <= k < new_b.len() && (#[trigger] new_b[k]).destination == a_id implies new_b[k].distance
                == d by {
                if k < q {
                    assert(new_b[k] == old_b[k]);
                } else if k > q {
                    assert(new_b[k] == old_b[k - 1]);
                }
            }
            lemma_road_added(before, towns@, a as int, b as int, d);
        }
        assert(new_a.len() <= old_a.len() + 1 && new_b.len() <= old_b.len() + 1);
        assert forall|t: int| 0 <= t < before.len() implies (#[trigger] towns@[t]).neighbors@.len() <= before[t].neighbors@.len()
            + (if t == a {
            1int
        } else {
            0int
        }) + (if t == b {
            1int
        } else {
            0int
        }) by {
            if t != a && t != b {
                assert(towns@[t] == before[t]);
            }
        }
        lemma_connection_count_grows(before, towns@, a as int, b as int);
    }
}

/// Connects the towns sparsely: a random spanning tree, then about a third as many extra
/// edges, never a complete graph.
fn connect_towns(towns: &mut Vec<Town>, rng: &mut ChaCha8Rng)
    requires
        forall|i: int| 0 <= i < old(towns)@.len() ==> (#[trigger] old(towns)@[i]).well_formed(),
        ids_are_indexes(old(towns)@),
        roads_symmetric(old(towns)@),
    ensures
        roads_symmetric(final(towns)@),
        towns_connected(final(towns)@),
        old(towns)@.len() >= 1 ==> connection_count(final(towns)@) <= connection_count(old(towns)@) + 2 * (old(
            towns,
        )@.len() - 1) + 2 * (old(towns)@.len() / 3),
        final(towns)@.len() == old(towns)@.len(),
        forall|i: int| 0 <= i < final(towns)@.len() ==> (#[trigger] final(towns)@[i]).well_formed()
            && final(towns)@[i].id == old(towns)@[i].id && final(towns)@[i].name == old(towns)@[i].name
            && final(towns)@[i].culture == old(towns)@[i].culture
            && final(towns)@[i].population_capacity == old(towns)@[i].population_capacity,
{
    if towns.len() < 2 {
        proof {
            if towns@.len() == 1 {
                assert(is_walk(towns@, seq![0int]));
                assert(reachable(towns@, 0, 0));
            }
        }
        return;
    }
    let mut order: Vec<usize> = Vec::new();
    let mut i: usize = 0;
    while i < towns.len()
        invariant
            i <= towns@.len(),
            order@.len() == i,
            forall|j: int| 0 <= j < i ==> #[trigger] order@[j] == j,
        decreases towns.len() - i,
    {
        order.push(i);
        i = i + 1;
    }
    let ghost in_order = order@;
    shuffle(&mut order, rng);
    proof {
        assert forall|j: int| 0 <= j < order@.len() implies #[trigger] order@[j] < towns@.len() by {
            broadcast use vstd::seq_lib::group_to_multiset_ensures;
            assert(order@.to_multiset().count(order@[j]) > 0);
            assert(in_order.contains(order@[j]));
        }
        vstd::seq_lib::to_multiset_len(order@);
        vstd::seq_lib::to_multiset_len(in_order);
        assert(order@.len() == in_order.len());
        assert forall|t: int| 0 <= t < towns@.len() implies #[trigger] appears(order@, t) by {
            broadcast use vstd::seq_lib::group_to_multiset_ensures;
            assert(in_order[t] == t);
            assert(in_order.contains(t as usize));
            assert(in_order.to_multiset().count(t as usize) > 0);
            assert(order@.contains(t as usize));
        }
    }
    let ghost start = towns@;
    let ghost root = order@[0] as int;
    proof {
        assert(is_walk(towns@, seq![root]));
        assert(reachable(towns@, root, root));
    }
    let mut child: usize = 1;
    while child < order.len()
        invariant
            1 <= child <= order@.len(),
            order@.len() == towns@.len(),
            forall|j: int| 0 <= j < order@.len() ==> #[trigger] order@[j] < towns@.len(),
            towns@.len() == start.len(),
            forall|k: int| 0 <= k < towns@.len() ==> (#[trigger] towns@[k]).well_formed() && towns@[k].id == start[k].id
                && towns@[k].name == start[k].name && towns@[k].culture == start[k].culture
                && towns@[k].population_capacity == start[k].population_capacity,
            ids_are_indexes(start),
            roads_symmetric(towns@),
            root == order@[0],
            forall|t: int| 0 <= t < towns@.len() ==> #[trigger] appears(order@, t),
            forall|c: int| 0 <= c < child ==> #[trigger] reachable(towns@, root, order@[c] as int),
            connection_count(towns@) <= connection_count(start) + 2 * (child - 1),
        decreases order.len() - child,
    {
        let parent = random_usize_below(rng, 0, child);
        let distance = random_u8_between(rng, 1, 10);
        proof {
            assert(ids_are_indexes(towns@)) by {
                assert forall|i: int| 0 <= i < towns@.len() implies (#[trigger] towns@[i]).id.0 == i by {
                    assert(towns@[i].id == start[i].id);
                }
            }
        }
        let ghost before = towns@;
        add_undirected_connection(towns, order[child], order[parent], distance);
        proof {
            assert forall|c: int| 0 <= c < child + 1 implies #[trigger] reachable(towns@, root, order@[c] as int) by {
                if c < child {
                    lemma_reachable_kept(before, towns@, root, order@[c] as int);
                } else {
                    lemma_reachable_kept(before, towns@, root, order@[parent as int] as int);
                    if order@[child as int] != order@[parent as int] {
                        lemma_reachable_step(towns@, root, order@[parent as int] as int, order@[child as int] as int);
                    }
                }
            }
        }
        child = child + 1;
    }
    proof {
        assert forall|t: int| 0 <= t < towns@.len() implies #[trigger] reachable(towns@, root, t) by {
            assert(appears(order@, t));
            let c = choose|c: int| 0 <= c < order@.len() && #[trigger] order@[c] == t;
            assert(reachable(towns@, root, order@[c] as int));
        }
    }
    let extra_target = towns.len() / 3;
    let max_attempts: usize = match towns.len().checked_mul(8) {
        Some(product) => product,
        None => usize::MAX,
    };
    let mut extra_added: usize = 0;
    let mut attempt: usize = 0;
    while attempt < max_attempts
        invariant
            towns@.len() == start.len(),
            towns@.len() >= 2,
            forall|k: int| 0 <= k < towns@.len() ==> (#[trigger] towns@[k]).well_formed() && towns@[k].id == start[k].id
                && towns@[k].name == start[k].name && towns@[k].culture == start[k].culture
                && towns@[k].population_capacity == start[k].population_capacity,
            ids_are_indexes(start),
            roads_symmetric(towns@),
            0 <= root < towns@.len(),
            forall|t: int| 0 <= t < towns@.len() ==> #[trigger] reachable(towns@, root, t),
            extra_added <= attempt,
            extra_added <= extra_target,
            extra_target == start.len() / 3,
            connection_count(towns@) <= connection_count(start) + 2 * (start.len() - 1) + 2 * extra_added,
        decreases max_attempts - attempt,
    {
        if extra_added >= extra_target {
            break;
        }
        let a = random_usize_below(rng, 0, towns.len());
        let b = random_usize_below(rng, 0, towns.len());
        attempt = attempt + 1;
        if a == b || towns[a].connection_to(towns[b].id).is_some() {
            continue;
        }
        let distance = random_u8_between(rng, 1, 10);
        proof {
            assert(ids_are_indexes(towns@)) by {
                assert forall|i: int| 0 <= i < towns@.len() implies (#[trigger] towns@[i]).id.0 == i by {
                    assert(towns@[i].id == start[i].id);
                }
            }
        }
        let ghost before = towns@;
        add_undirected_connection(towns, a, b, distance);
        proof {
            assert forall|t: int| 0 <= t < towns@.len() implies #[trigger] reachable(towns@, root, t) by {
                lemma_reachable_kept(before, towns@, root, t);
            }
        }
        extra_added = extra_added + 1;
    }
    proof {
        assert(ids_are_indexes(towns@)) by {
            assert forall|i: int| 0 <= i < towns@.len() implies (#[trigger] towns@[i]).id.0 == i by {
                assert(towns@[i].id == start[i].id);
            }
        }
        lemma_connected_through(towns@, root);
    }
}

/// `(start + offset) % length` for a start and an offset below the length.
fn wrapped_index(start: usize, offset: usize, length: usize) -> (index: usize)
    requires
        start < length,
        offset < length,
    ensures
        index == (start + offset) % (length as int),
        index < length,
{
    if offset < length - start {
        proof {
            assert((start + offset) % (length as int) == start + offset) by (nonlinear_arith)
                requires
                    0 <= start + offset < length,
            ;
        }
        start + offset
    } else {
        proof {
            assert((start + offset) % (length as int) == start + offset - length) by (nonlinear_arith)
                requires
                    length <= start + offset < 2 * length,
            ;
        }
        offset - (length - start)
    }
}

/// Makes `a` and `b` partners, when both exist, differ and have no partner yet.
fn link_partners(world: &mut World, a: NpcId, b: NpcId, affinity: u8) -> (linked: bool)
    ensures
        linked == (a != b && npc_at(old(world).npcs@, a) && npc_at(old(world).npcs@, b)
            && old(world).npcs@[a.0 as int].partner is None && old(world).npcs@[b.0 as int].partner is None),
        !linked ==> *final(world) == *old(world),
        linked ==> {
            let tie = Relationship::with_relation_spec(
                affinity,
                10,
                RelationshipKind::Partner,
                old(world).year,
                INITIAL_RELATIONSHIP_MONTH,
            );
            let left = old(world).npcs@[a.0 as int];
            let right = old(world).npcs@[b.0 as int];
            &&& final(world).npcs@ == old(world).npcs@.update(
                a.0 as int,
                Npc { partner: Some(b), relationships: final(world).npcs@[a.0 as int].relationships, ..left },
            ).update(
                b.0 as int,
                Npc { partner: Some(a), relationships: final(world).npcs@[b.0 as int].relationships, ..right },
            )
            &&& final(world).npcs@[a.0 as int].relationships@ == left.relationships@.insert(b, tie)
            &&& final(world).npcs@[b.0 as int].relationships@ == right.relationships@.insert(a, tie)
        },
        final(world).npcs@.len() == old(world).npcs@.len(),
        forall|i: int| 0 <= i < final(world).npcs@.len() ==> (#[trigger] final(world).npcs@[i]).id == old(world).npcs@[i].id,
        *final(world) == (World { npcs: final(world).npcs, ..*old(world) }),
{
    let year = world.year;
    let ghost before = world.npcs@;
    let free = match (world.npc(a), world.npc(b)) {
        (Some(left), Some(right)) => left.partner.is_none() && right.partner.is_none(),
        _ => false,
    };
    if !free {
        return false;
    }
    match world.two_npcs_mut(a, b) {
        None => false,
        Some((left, right)) => {
            left.set_partner(b);
            right.set_partner(a);
            let relationship = Relationship::with_relation(
                affinity,
                10,
                RelationshipKind::Partner,
                year,
                INITIAL_RELATIONSHIP_MONTH,
            );
            proof {
                assert(relationship.normalized() == relationship);
            }
            left.set_relationship(b, relationship);
            right.set_relationship(a, relationship);
            true
        },
    }
}

/// The NPC is 18 to 50 years older than a child of the given age (the bounds kept within
/// `u8`) and has fewer than four children.
pub open spec fn may_adopt(parent: Npc, child_age: u8) -> bool {
    let minimum = if child_age + 18 > 255 {
        255
    } else {
        child_age + 18
    };
    let maximum = if child_age + 50 > 255 {
        255
    } else {
        child_age + 50
    };
    &&& minimum <= parent.age <= maximum
    &&& parent.children@.len() < 4
}

/// Whether two NPCs can adopt an initial child of the given age: both 18 to 50 years
/// older than the child, each with fewer than four children.
fn parents_can_adopt_initial_child(world: &World, parent_a: NpcId, parent_b: NpcId, child_age: u8) -> (fits: bool)
    ensures
        fits == (npc_at(world.npcs@, parent_a) && npc_at(world.npcs@, parent_b) && may_adopt(
            world.npcs@[parent_a.0 as int],
            child_age,
        ) && may_adopt(world.npcs@[parent_b.0 as int], child_age)),
{
    let a = match world.npc(parent_a) {
        Some(npc) => npc,
        None => {
            return false;
        },
    };
    let b = match world.npc(parent_b) {
        Some(npc) => npc,
        None => {
            return false;
        },
    };
    let minimum = child_age.saturating_add(18);
    let maximum = child_age.saturating_add(50);
    minimum <= a.age && a.age <= maximum && minimum <= b.age && b.age <= maximum && a.children.len() < 4
        && b.children.len() < 4
}

/// Links a parent and a child both ways, with a family relationship each way.
fn link_parent_child(world: &mut World, parent: NpcId, child: NpcId)
    ensures
        parent != child ==> {
            let tie = Relationship::with_relation_spec(8, 9, RelationshipKind::Family, old(world).year, INITIAL_RELATIONSHIP_MONTH);
            &&& forall|i: int|
                0 <= i < old(world).npcs@.len() && i != parent.0 && i != child.0 ==> #[trigger] final(world).npcs@[i]
                    == old(world).npcs@[i]
            &&& !npc_at(old(world).npcs@, parent) && 0 <= parent.0 < old(world).npcs@.len() ==> final(world).npcs@[parent.0 as int]
                == old(world).npcs@[parent.0 as int]
            &&& !npc_at(old(world).npcs@, child) && 0 <= child.0 < old(world).npcs@.len() ==> final(world).npcs@[child.0 as int]
                == old(world).npcs@[child.0 as int]
            &&& npc_at(old(world).npcs@, parent) ==> {
                let before = old(world).npcs@[parent.0 as int];
                let after = final(world).npcs@[parent.0 as int];
                &&& after == (Npc { children: after.children, relationships: after.relationships, ..before })
                &&& after.children@ == (if before.children@.contains(child) {
                    before.children@
                } else {
                    before.children@.push(child)
                })
                &&& after.relationships@ == before.relationships@.insert(child, tie)
            }
            &&& npc_at(old(world).npcs@, child) ==> {
                let before = old(world).npcs@[child.0 as int];
                let after = final(world).npcs@[child.0 as int];
                &&& after == (Npc { parents: after.parents, relationships: after.relationships, ..before })
                &&& after.parents@ == (if before.parents@.contains(parent) {
                    before.parents@
                } else {
                    before.parents@.push(parent)
                })
                &&& after.relationships@ == before.relationships@.insert(parent, tie)
            }
        },
        final(world).npcs@.len() == old(world).npcs@.len(),
        forall|i: int| 0 <= i < final(world).npcs@.len() ==> (#[trigger] final(world).npcs@[i]).id == old(world).npcs@[i].id,
        *final(world) == (World { npcs: final(world).npcs, ..*old(world) }),
{
    let year = world.year;
    let relationship = Relationship::with_relation(8, 9, RelationshipKind::Family, year, INITIAL_RELATIONSHIP_MONTH);
    proof {
        assert(relationship.normalized() == relationship);
    }
    let ghost start = *world;
    match world.npc_mut(parent) {
        Some(npc) => {
            npc.add_child(child);
            npc.set_relationship(child, relationship);
        },
        None => {},
    }
    match world.npc_mut(child) {
        Some(npc) => {
            npc.add_parent(parent);
            npc.set_relationship(parent, relationship);
        },
        None => {},
    }
}

/// The NPC is on the world's active list and lives in the town at index `town`.
pub open spec fn in_town(world: World, town: int, id: NpcId) -> bool {
    &&& world.active_npcs@.contains(id)
    &&& resident_in(world.npcs@, town)(id)
}

/// The age band in which adults are paired: the decade of years past eighteen, the sixth
/// band taking everyone from 68 on.
pub open spec fn age_band(age: u8) -> int {
    if (age - 18) / 10 < 5 {
        (age - 18) / 10
    } else {
        5
    }
}

/// The NPC at index `i` and `partner` became a couple: two different NPCs of the world
/// of opposite sex, aged 18 to 77 and in the same age band, on the active list and
/// living in the same town, each the other's partner.
pub open spec fn couple_formed(before: World, after: Seq<Npc>, i: int, partner: NpcId) -> bool {
    let npcs = before.npcs@;
    &&& npc_at(npcs, partner)
    &&& partner != npcs[i].id
    &&& after[partner.0 as int].partner == Some(npcs[i].id)
    &&& npcs[i].sex != npcs[partner.0 as int].sex
    &&& npcs[i].town == npcs[partner.0 as int].town
    &&& before.active_npcs@.contains(npcs[i].id)
    &&& before.active_npcs@.contains(partner)
    &&& 18 <= npcs[i].age <= 77
    &&& 18 <= npcs[partner.0 as int].age <= 77
    &&& age_band(npcs[i].age) == age_band(npcs[partner.0 as int].age)
}

/// `child` may be given the NPC at index `parent` as a parent: a minor of the world on
/// the active list, in the parent's town, 18 to 50 years younger than the parent, who is
/// on the active list too.
pub open spec fn adopted(before: World, parent: int, child: NpcId) -> bool {
    let npcs = before.npcs@;
    &&& npc_at(npcs, child)
    &&& child != npcs[parent].id
    &&& npcs[child.0 as int].age < 18
    &&& npcs[child.0 as int].town == npcs[parent].town
    &&& before.active_npcs@.contains(child)
    &&& before.active_npcs@.contains(npcs[parent].id)
    &&& npcs[child.0 as int].age + 18 <= npcs[parent].age <= npcs[child.0 as int].age + 50
}

/// The NPC's relationship with `other` is the one a new tie gives: the partner's, with
/// relation ten and affinity 7 to 10, or a parent's or child's family tie, dated month one
/// of the year.
pub open spec fn tie_formed(year: u64, npc: Npc, other: NpcId) -> bool {
    let relationship = npc.relationships@[other];
    ||| (npc.partner == Some(other) && relationship.kind == RelationshipKind::Partner && relationship.relation == 10
        && 7 <= relationship.affinity <= 10 && relationship.last_interaction_year == year
        && relationship.last_interaction_month == INITIAL_RELATIONSHIP_MONTH)
    ||| ((npc.children@.contains(other) || npc.parents@.contains(other)) && relationship == family_tie(year, 1))
}

/// `after` differs from `before` only by new couples and new parents for minors: partners
/// are only added, as couples; children and parents are only appended, both ways, as
/// adoptions; and a relationship is kept unless a new tie replaced it.
#[verifier::opaque]
pub open spec fn families_formed(before: World, after: Seq<Npc>) -> bool {
    let npcs = before.npcs@;
    &&& after.len() == npcs.len()
    &&& forall|i: int|
        0 <= i < npcs.len() ==> #[trigger] after[i] == (Npc {
            partner: after[i].partner,
            relationships: after[i].relationships,
            children: after[i].children,
            parents: after[i].parents,
            ..npcs[i]
        })
    &&& forall|i: int| 0 <= i < npcs.len() && (#[trigger] npcs[i]).partner is Some ==> after[i].partner == npcs[i].partner
    &&& forall|i: int|
        0 <= i < npcs.len() && npcs[i].partner is None && (#[trigger] after[i]).partner is Some ==> couple_formed(
            before,
            after,
            i,
            after[i].partner->0,
        )
    &&& forall|i: int|
        0 <= i < npcs.len() ==> (#[trigger] npcs[i]).children@.is_prefix_of(after[i].children@)
            && npcs[i].parents@.is_prefix_of(after[i].parents@)
    &&& forall|i: int, c: NpcId|
        0 <= i < npcs.len() && #[trigger] after[i].children@.contains(c) && !npcs[i].children@.contains(c) ==> adopted(
            before,
            i,
            c,
        ) && after[c.0 as int].parents@.contains(npcs[i].id)
    &&& forall|i: int, p: NpcId|
        0 <= i < npcs.len() && #[trigger] after[i].parents@.contains(p) && !npcs[i].parents@.contains(p) ==> npc_at(npcs, p)
            && adopted(before, p.0 as int, npcs[i].id) && after[p.0 as int].children@.contains(npcs[i].id)
    &&& forall|i: int, k: NpcId|
        0 <= i < npcs.len() && #[trigger] npcs[i].relationships@.contains_key(k) ==> after[i].relationships@.contains_key(k)
    &&& forall|i: int, k: NpcId|
        0 <= i < npcs.len() && #[trigger] after[i].relationships@.contains_key(k) ==> (npcs[i].relationships@.contains_key(k)
            && after[i].relationships@[k] == npcs[i].relationships@[k]) || tie_formed(before.year, after[i], k)
    &&& forall|i: int|
        0 <= i < npcs.len() && (#[trigger] npcs[i]).children@.no_duplicates() ==> after[i].children@.no_duplicates()
    &&& forall|i: int|
        0 <= i < npcs.len() && (#[trigger] npcs[i]).parents@.no_duplicates() ==> after[i].parents@.no_duplicates()
}

/// Two NPCs becoming partners keeps the world within `families_formed`.
proof fn lemma_couple_step(start: World, current: Seq<Npc>, next: Seq<Npc>, a: NpcId, b: NpcId, affinity: u8)
    requires
        families_formed(start, current),
        a != b,
        npc_at(start.npcs@, a),
        npc_at(start.npcs@, b),
        current[a.0 as int].partner is None,
        current[b.0 as int].partner is None,
        start.npcs@[a.0 as int].sex != start.npcs@[b.0 as int].sex,
        start.npcs@[a.0 as int].town == start.npcs@[b.0 as int].town,
        start.active_npcs@.contains(a),
        start.active_npcs@.contains(b),
        18 <= start.npcs@[a.0 as int].age <= 77,
        18 <= start.npcs@[b.0 as int].age <= 77,
        age_band(start.npcs@[a.0 as int].age) == age_band(start.npcs@[b.0 as int].age),
        7 <= affinity <= 10,
        next == current.update(
            a.0 as int,
            Npc { partner: Some(b), relationships: next[a.0 as int].relationships, ..current[a.0 as int] },
        ).update(
            b.0 as int,
            Npc { partner: Some(a), relationships: next[b.0 as int].relationships, ..current[b.0 as int] },
        ),
        next[a.0 as int].relationships@ == current[a.0 as int].relationships@.insert(
            b,
            Relationship::with_relation_spec(affinity, 10, RelationshipKind::Partner, start.year, INITIAL_RELATIONSHIP_MONTH),
        ),
        next[b.0 as int].relationships@ == current[b.0 as int].relationships@.insert(
            a,
            Relationship::with_relation_spec(affinity, 10, RelationshipKind::Partner, start.year, INITIAL_RELATIONSHIP_MONTH),
        ),
    ensures
        families_formed(start, next),
{
    reveal(families_formed);
    let npcs = start.npcs@;
    let ai = a.0 as int;
    let bi = b.0 as int;
    assert(current[ai] == (Npc {
        partner: current[ai].partner,
        relationships: current[ai].relationships,
        children: current[ai].children,
        parents: current[ai].parents,
        ..npcs[ai]
    }));
    assert(current[bi] == (Npc {
        partner: current[bi].partner,
        relationships: current[bi].relationships,
        children: current[bi].children,
        parents: current[bi].parents,
        ..npcs[bi]
    }));
    assert(npcs[ai].partner is None) by {
        if npcs[ai].partner is Some {
            assert(current[ai].partner == npcs[ai].partner);
        }
    }
    assert(npcs[bi].partner is None) by {
        if npcs[bi].partner is Some {
            assert(current[bi].partner == npcs[bi].partner);
        }
    }
    assert forall|i: int| 0 <= i < npcs.len() implies #[trigger] next[i] == (Npc {
        partner: next[i].partner,
        relationships: next[i].relationships,
        children: next[i].children,
        parents: next[i].parents,
        ..npcs[i]
    }) by {
        assert(current[i] == (Npc {
            partner: current[i].partner,
            relationships: current[i].relationships,
            children: current[i].children,
            parents: current[i].parents,
            ..npcs[i]
        }));
    }
    assert forall|i: int|
        0 <= i < npcs.len() && npcs[i].partner is None && (#[trigger] next[i]).partner is Some implies couple_formed(
        start,
        next,
        i,
        next[i].partner->0,
    ) by {
        if i != ai && i != bi {
            let p = next[i].partner->0;
            assert(current[i] == next[i]);
            assert(couple_formed(start, current, i, p));
            assert(p != a && p != b);
        }
    }
    assert forall|i: int, c: NpcId|
        0 <= i < npcs.len() && #[trigger] next[i].children@.contains(c) && !npcs[i].children@.contains(c) implies adopted(
        start,
        i,
        c,
    ) && next[c.0 as int].parents@.contains(npcs[i].id) by {
        assert(current[i].children@.contains(c));
    }
    assert forall|i: int, p: NpcId|
        0 <= i < npcs.len() && #[trigger] next[i].parents@.contains(p) && !npcs[i].parents@.contains(p) implies npc_at(npcs, p)
        && adopted(start, p.0 as int, npcs[i].id) && next[p.0 as int].children@.contains(npcs[i].id) by {
        assert(current[i].parents@.contains(p));
    }
    assert forall|i: int, k: NpcId|
        0 <= i < npcs.len() && #[trigger] npcs[i].relationships@.contains_key(k) implies next[i].relationships@.contains_key(k) by {
        assert(current[i].relationships@.contains_key(k));
    }
    assert forall|i: int, k: NpcId|
        0 <= i < npcs.len() && #[trigger] next[i].relationships@.contains_key(k) implies (npcs[i].relationships@.contains_key(k)
        && next[i].relationships@[k] == npcs[i].relationships@[k]) || tie_formed(start.year, next[i], k) by {
        if (i == ai && k == b) || (i == bi && k == a) {
        } else {
            assert(current[i].relationships@.contains_key(k));
            assert(next[i].relationships@[k] == current[i].relationships@[k]);
        }
    }
}

/// A parent and a minor linked both ways keep the world within `families_formed`.
proof fn lemma_adoption_step(start: World, current: Seq<Npc>, next: Seq<Npc>, parent: NpcId, child: NpcId)
    requires
        families_formed(start, current),
        parent != child,
        npc_at(start.npcs@, parent),
        adopted(start, parent.0 as int, child),
        forall|i: int|
            0 <= i < current.len() && i != parent.0 && i != child.0 ==> #[trigger] next[i] == current[i],
        next.len() == current.len(),
        ({
            let before = current[parent.0 as int];
            let after = next[parent.0 as int];
            &&& after == (Npc { children: after.children, relationships: after.relationships, ..before })
            &&& after.children@ == (if before.children@.contains(child) {
                before.children@
            } else {
                before.children@.push(child)
            })
            &&& after.relationships@ == before.relationships@.insert(child, family_tie(start.year, 1))
        }),
        ({
            let before = current[child.0 as int];
            let after = next[child.0 as int];
            &&& after == (Npc { parents: after.parents, relationships: after.relationships, ..before })
            &&& after.parents@ == (if before.parents@.contains(parent) {
                before.parents@
            } else {
                before.parents@.push(parent)
            })
            &&& after.relationships@ == before.relationships@.insert(parent, family_tie(start.year, 1))
        }),
    ensures
        families_formed(start, next),
        forall|i: int| 0 <= i < next.len() ==> (#[trigger] next[i]).partner == current[i].partner,
{
    reveal(families_formed);
    let npcs = start.npcs@;
    let pi = parent.0 as int;
    let ci = child.0 as int;
    assert forall|i: int| 0 <= i < npcs.len() implies #[trigger] next[i] == (Npc {
        partner: next[i].partner,
        relationships: next[i].relationships,
        children: next[i].children,
        parents: next[i].parents,
        ..npcs[i]
    }) by {
        assert(current[i] == (Npc {
            partner: current[i].partner,
            relationships: current[i].relationships,
            children: current[i].children,
            parents: current[i].parents,
            ..npcs[i]
        }));
    }
    assert forall|i: int| 0 <= i < npcs.len() implies (#[trigger] npcs[i]).children@.is_prefix_of(next[i].children@)
        && npcs[i].parents@.is_prefix_of(next[i].parents@) by {
        assert(npcs[i].children@.is_prefix_of(current[i].children@));
        assert(npcs[i].parents@.is_prefix_of(current[i].parents@));
    }
    assert forall|i: int|
        0 <= i < npcs.len() && npcs[i].partner is None && (#[trigger] next[i]).partner is Some implies couple_formed(
        start,
        next,
        i,
        next[i].partner->0,
    ) by {
        let p = next[i].partner->0;
        assert(current[i].partner == Some(p));
        assert(couple_formed(start, current, i, p));
    }
    assert forall|i: int, c: NpcId|
        0 <= i < npcs.len() && #[trigger] next[i].children@.contains(c) && !npcs[i].children@.contains(c) implies adopted(
        start,
        i,
        c,
    ) && next[c.0 as int].parents@.contains(npcs[i].id) by {
        if i == pi && c == child {
            assert(current[pi].id == npcs[pi].id);
            assert(next[ci].parents@.contains(parent)) by {
                if current[ci].parents@.contains(parent) {
                    let m = choose|m: int| 0 <= m < current[ci].parents@.len() && current[ci].parents@[m] == parent;
                    assert(next[ci].parents@[m] == parent);
                } else {
                    assert(next[ci].parents@[current[ci].parents@.len() as int] == parent);
                }
            }
        } else {
            assert(current[i].children@.contains(c));
            assert(current[c.0 as int].parents@.contains(npcs[i].id));
            assert(current[c.0 as int].parents@.is_prefix_of(next[c.0 as int].parents@) || next[c.0 as int]
                == current[c.0 as int]);
            if c.0 == ci {
                let k = choose|k: int| 0 <= k < current[ci].parents@.len() && current[ci].parents@[k] == npcs[i].id;
                assert(next[ci].parents@[k] == npcs[i].id);
            }
        }
    }
    assert forall|i: int, p: NpcId|
        0 <= i < npcs.len() && #[trigger] next[i].parents@.contains(p) && !npcs[i].parents@.contains(p) implies npc_at(npcs, p)
        && adopted(start, p.0 as int, npcs[i].id) && next[p.0 as int].children@.contains(npcs[i].id) by {
        if i == ci && p == parent {
            assert(current[ci].id == npcs[ci].id);
            assert(next[pi].children@.contains(child)) by {
                if current[pi].children@.contains(child) {
                    let m = choose|m: int| 0 <= m < current[pi].children@.len() && current[pi].children@[m] == child;
                    assert(next[pi].children@[m] == child);
                } else {
                    assert(next[pi].children@[current[pi].children@.len() as int] == child);
                }
            }
        } else {
            assert(current[i].parents@.contains(p));
            assert(current[p.0 as int].children@.contains(npcs[i].id));
            if p.0 == pi {
                let k = choose|k: int| 0 <= k < current[pi].children@.len() && current[pi].children@[k] == npcs[i].id;
                assert(next[pi].children@[k] == npcs[i].id);
            }
        }
    }
    assert forall|i: int, k: NpcId|
        0 <= i < npcs.len() && #[trigger] npcs[i].relationships@.contains_key(k) implies next[i].relationships@.contains_key(k) by {
        assert(current[i].relationships@.contains_key(k));
    }
    assert forall|i: int, k: NpcId|
        0 <= i < npcs.len() && #[trigger] next[i].relationships@.contains_key(k) implies (npcs[i].relationships@.contains_key(k)
        && next[i].relationships@[k] == npcs[i].relationships@[k]) || tie_formed(start.year, next[i], k) by {
        if i == pi && k == child {
            assert(next[pi].children@.contains(child)) by {
                if current[pi].children@.contains(child) {
                    let m = choose|m: int| 0 <= m < current[pi].children@.len() && current[pi].children@[m] == child;
                    assert(next[pi].children@[m] == child);
                } else {
                    assert(next[pi].children@[current[pi].children@.len() as int] == child);
                }
            }
        } else if i == ci && k == parent {
            assert(next[ci].parents@.contains(parent)) by {
                if current[ci].parents@.contains(parent) {
                    let m = choose|m: int| 0 <= m < current[ci].parents@.len() && current[ci].parents@[m] == parent;
                    assert(next[ci].parents@[m] == parent);
                } else {
                    assert(next[ci].parents@[current[ci].parents@.len() as int] == parent);
                }
            }
        } else {
            assert(current[i].relationships@.contains_key(k));
            assert(next[i].relationships@[k] == current[i].relationships@[k]);
            if tie_formed(start.year, current[i], k) && !(npcs[i].relationships@.contains_key(k)
                && current[i].relationships@[k] == npcs[i].relationships@[k]) {
                if current[i].children@.contains(k) {
                    let m = choose|m: int| 0 <= m < current[i].children@.len() && current[i].children@[m] == k;
                    assert(next[i].children@[m] == k);
                }
                if current[i].parents@.contains(k) {
                    let m = choose|m: int| 0 <= m < current[i].parents@.len() && current[i].parents@[m] == k;
                    assert(next[i].parents@[m] == k);
                }
            }
        }
    }
}

/// A world is within `families_formed` of itself.
proof fn lemma_families_formed_start(start: World)
    ensures
        families_formed(start, start.npcs@),
{
    reveal(families_formed);
    let npcs = start.npcs@;
    assert forall|i: int| 0 <= i < npcs.len() implies (#[trigger] npcs[i]).children@.is_prefix_of(npcs[i].children@)
        && npcs[i].parents@.is_prefix_of(npcs[i].parents@) by {
        assert(npcs[i].children@.subrange(0, npcs[i].children@.len() as int) =~= npcs[i].children@);
        assert(npcs[i].parents@.subrange(0, npcs[i].parents@.len() as int) =~= npcs[i].parents@);
    }
}

/// Within `families_formed`, an NPC keeps everything but its partner, relationships,
/// children and parents.
proof fn lemma_families_formed_keeps(start: World, after: Seq<Npc>, i: int)
    requires
        families_formed(start, after),
        0 <= i < start.npcs@.len(),
    ensures
        after.len() == start.npcs@.len(),
        after[i] == (Npc {
            partner: after[i].partner,
            relationships: after[i].relationships,
            children: after[i].children,
            parents: after[i].parents,
            ..start.npcs@[i]
        }),
{
    reveal(families_formed);
}

/// An active NPC listed among the residents of the town at index `town` lives there.
proof fn lemma_listed_resident(start: World, residents: Seq<NpcId>, town: int, id: NpcId)
    requires
        residents == start.active_npcs@.filter(resident_in(start.npcs@, town)),
        residents.contains(id),
    ensures
        in_town(start, town, id),
{
    broadcast use vstd::seq_lib::group_filter_ensures;

    let pick = resident_in(start.npcs@, town);
    start.active_npcs@.lemma_filter_contains_rev(pick, id);
    let m = choose|m: int| 0 <= m < residents.len() && residents[m] == id;
    assert(pick(start.active_npcs@.filter(pick)[m]));
}

/// What a sequence holds after a push: the pushed value and what it held before.
proof fn lemma_contains_after_push<T>(items: Seq<T>, value: T, x: T)
    requires
        items.push(value).contains(x),
        x != value,
    ensures
        items.contains(x),
{
    let k = choose|k: int| 0 <= k < items.push(value).len() && items.push(value)[k] == x;
    assert(items[k] == x);
}

/// A reordering keeps what a sequence holds.
proof fn lemma_contains_after_reorder<T>(before: Seq<T>, after: Seq<T>, x: T)
    requires
        after.to_multiset() == before.to_multiset(),
        after.contains(x),
    ensures
        before.contains(x),
{
    broadcast use vstd::seq_lib::group_to_multiset_ensures;

    assert(after.to_multiset().count(x) > 0);
}

/// The NPC is an active adult of 18 to 77 of the given sex, living in the town at index
/// `town`, in age band `band`.
pub open spec fn partner_candidate(start: World, town: int, band: int, sex: Sex, id: NpcId) -> bool {
    &&& in_town(start, town, id)
    &&& start.npcs@[id.0 as int].sex == sex
    &&& 18 <= start.npcs@[id.0 as int].age <= 77
    &&& age_band(start.npcs@[id.0 as int].age) == band
}

/// The test that picks, among a town's residents, the partner candidates of one sex and
/// age band.
pub open spec fn band_pick(start: World, band: int, sex: Sex) -> spec_fn(NpcId) -> bool {
    |id: NpcId|
        start.npcs@[id.0 as int].sex == sex && 18 <= start.npcs@[id.0 as int].age <= 77 && age_band(
            start.npcs@[id.0 as int].age,
        ) == band
}

/// `ids` holds exactly the partner candidates of the town, age band and sex.
pub open spec fn bucket_exact(start: World, town: int, band: int, sex: Sex, ids: Seq<NpcId>) -> bool {
    forall|x: NpcId|
        #![trigger ids.contains(x)]
        #![trigger partner_candidate(start, town, band, sex, x)]
        ids.contains(x) <==> partner_candidate(start, town, band, sex, x)
}

/// Both NPCs of every couple listed live in the town at index `town`.
pub open spec fn town_couples(start: World, town: int, couples: Seq<(NpcId, NpcId)>) -> bool {
    forall|c: (NpcId, NpcId)| #[trigger] couples.contains(c) ==> in_town(start, town, c.0) && in_town(start, town, c.1)
}

/// In the town at index `town` and age band `band`, every partner candidate of one of the
/// two sexes has a partner in `npcs`.
pub open spec fn band_paired(start: World, npcs: Seq<Npc>, town: int, band: int) -> bool {
    ||| forall|x: NpcId|
        #[trigger] partner_candidate(start, town, band, Sex::Male, x) ==> npcs[x.0 as int].partner is Some
    ||| forall|x: NpcId|
        #[trigger] partner_candidate(start, town, band, Sex::Female, x) ==> npcs[x.0 as int].partner is Some
}

/// Every age band of the towns before index `town`, and the bands before `band` in that
/// town, is paired in `npcs`.
pub open spec fn bands_paired_before(start: World, npcs: Seq<Npc>, town: int, band: int) -> bool {
    forall|u: int, v: int|
        0 <= u && 0 <= v < PARTNER_BUCKET_COUNT && (u < town || (u == town && v < band)) ==> #[trigger] band_paired(
            start,
            npcs,
            u,
            v,
        )
}

/// Nobody who has a partner in `before` is without one in `after`.
pub open spec fn partners_kept(before: Seq<Npc>, after: Seq<Npc>) -> bool {
    forall|i: int| 0 <= i < before.len() && (#[trigger] before[i]).partner is Some ==> after[i].partner is Some
}

/// Everyone with a partner in `npcs` lives in a town before index `town`, or in an age
/// band before `band` of that town, or is in that band among `males` or `females`.
pub open spec fn partnered_so_far(
    start: World,
    npcs: Seq<Npc>,
    town: int,
    band: int,
    males: Seq<NpcId>,
    females: Seq<NpcId>,
) -> bool {
    forall|i: int|
        0 <= i < npcs.len() && (#[trigger] npcs[i]).partner is Some ==> {
            let npc = start.npcs@[i];
            ||| npc.town.0 < town
            ||| (npc.town.0 == town && age_band(npc.age) < band)
            ||| (npc.town.0 == town && age_band(npc.age) == band && (males.contains(npc.id) || females.contains(
                npc.id,
            )))
        }
}

/// Everyone in the first `count` places of both lists has a partner in `npcs`.
pub open spec fn pairs_done(npcs: Seq<Npc>, males: Seq<NpcId>, females: Seq<NpcId>, count: int) -> bool {
    forall|k: int|
        0 <= k < count ==> npcs[(#[trigger] males[k]).0 as int].partner is Some && npcs[females[k].0 as int].partner is Some
}

/// A list of one town's partner candidates of one sex and age band, in any order, holds
/// exactly those candidates, and repeats none when the active list repeats none.
proof fn lemma_bucket_facts(start: World, town: int, band: int, sex: Sex, residents: Seq<NpcId>, bucket: Seq<NpcId>)
    requires
        residents == start.active_npcs@.filter(resident_in(start.npcs@, town)),
        bucket.to_multiset() == residents.filter(band_pick(start, band, sex)).to_multiset(),
    ensures
        bucket_exact(start, town, band, sex, bucket),
        start.active_npcs@.no_duplicates() ==> bucket.no_duplicates(),
{
    broadcast use vstd::seq_lib::group_filter_ensures;
    broadcast use vstd::seq_lib::group_to_multiset_ensures;

    let pick = band_pick(start, band, sex);
    let here = resident_in(start.npcs@, town);
    let active = start.active_npcs@;
    let chosen = residents.filter(pick);
    assert forall|x: NpcId| bucket.contains(x) <==> partner_candidate(start, town, band, sex, x) by {
        assert(bucket.contains(x) <==> bucket.to_multiset().count(x) > 0);
        assert(chosen.contains(x) <==> chosen.to_multiset().count(x) > 0);
        if chosen.contains(x) {
            residents.lemma_filter_contains_rev(pick, x);
            active.lemma_filter_contains_rev(here, x);
            let m = choose|m: int| 0 <= m < chosen.len() && chosen[m] == x;
            assert(pick(chosen[m]));
            let n = choose|n: int| 0 <= n < residents.len() && residents[n] == x;
            assert(here(active.filter(here)[n]));
        }
        if partner_candidate(start, town, band, sex, x) {
            let k = choose|k: int| 0 <= k < active.len() && active[k] == x;
            active.lemma_filter_contains(here, k);
            let m = choose|m: int| 0 <= m < residents.len() && residents[m] == x;
            residents.lemma_filter_contains(pick, m);
        }
    }
    if active.no_duplicates() {
        crate::crisis::lemma_filter_distinct(active, here);
        crate::crisis::lemma_filter_distinct(residents, pick);
        chosen.lemma_multiset_has_no_duplicates();
        bucket.lemma_multiset_has_no_duplicates_conv();
    }
}

/// A paired age band stays paired while nobody loses a partner.
proof fn lemma_band_paired_kept(start: World, before: Seq<Npc>, after: Seq<Npc>, town: int, band: int)
    requires
        band_paired(start, before, town, band),
        partners_kept(before, after),
        before.len() == start.npcs@.len(),
    ensures
        band_paired(start, after, town, band),
{
    if forall|x: NpcId| #[trigger]
        partner_candidate(start, town, band, Sex::Male, x) ==> before[x.0 as int].partner is Some {
        assert forall|x: NpcId| #[trigger] partner_candidate(start, town, band, Sex::Male, x) implies after[x.0 as int].partner is Some by {
            assert(before[x.0 as int].partner is Some);
        }
    } else {
        assert forall|x: NpcId| #[trigger] partner_candidate(start, town, band, Sex::Female, x) implies after[x.0 as int].partner is Some by {
            assert(before[x.0 as int].partner is Some);
        }
    }
}

/// The paired bands stay paired while nobody loses a partner.
proof fn lemma_bands_paired_kept(start: World, before: Seq<Npc>, after: Seq<Npc>, town: int, band: int)
    requires
        bands_paired_before(start, before, town, band),
        partners_kept(before, after),
        before.len() == start.npcs@.len(),
    ensures
        bands_paired_before(start, after, town, band),
{
    assert forall|u: int, v: int|
        0 <= u && 0 <= v < PARTNER_BUCKET_COUNT && (u < town || (u == town && v < band)) implies #[trigger] band_paired(
        start,
        after,
        u,
        v,
    ) by {
        lemma_band_paired_kept(start, before, after, u, v);
    }
}

/// Pairing moves on: what holds of the bands before one place holds of the bands before
/// a later one, once the band at the first place is paired.
proof fn lemma_bands_paired_advance(start: World, npcs: Seq<Npc>, town: int, band: int)
    requires
        bands_paired_before(start, npcs, town, band),
        0 <= band < PARTNER_BUCKET_COUNT ==> band_paired(start, npcs, town, band),
    ensures
        band < PARTNER_BUCKET_COUNT ==> bands_paired_before(start, npcs, town, band + 1),
        band >= PARTNER_BUCKET_COUNT ==> bands_paired_before(start, npcs, town + 1, 0),
{
}

/// Whoever had a partner before one place of the pairing had one before any later place.
proof fn lemma_partnered_later(
    start: World,
    npcs: Seq<Npc>,
    town: int,
    band: int,
    males: Seq<NpcId>,
    females: Seq<NpcId>,
    next_town: int,
    next_band: int,
)
    requires
        partnered_so_far(start, npcs, town, band, males, females),
        town < next_town || (town == next_town && band < next_band),
        band <= PARTNER_BUCKET_COUNT,
    ensures
        partnered_so_far(start, npcs, next_town, next_band, Seq::empty(), Seq::empty()),
{
}

/// At the next pair of a band, neither NPC has a partner yet, when the lists repeat no one.
proof fn lemma_pair_free(
    start: World,
    town: int,
    band: int,
    males: Seq<NpcId>,
    females: Seq<NpcId>,
    pair: int,
    npcs: Seq<Npc>,
)
    requires
        partnered_so_far(start, npcs, town, band, males.take(pair), females.take(pair)),
        bucket_exact(start, town, band, Sex::Male, males),
        bucket_exact(start, town, band, Sex::Female, females),
        males.no_duplicates(),
        females.no_duplicates(),
        0 <= pair < males.len(),
        pair < females.len(),
        npcs.len() == start.npcs@.len(),
    ensures
        npcs[males[pair].0 as int].partner is None,
        npcs[females[pair].0 as int].partner is None,
{
    let m = males[pair];
    let f = females[pair];
    assert(males.contains(m));
    assert(females.contains(f));
    assert(partner_candidate(start, town, band, Sex::Male, m));
    assert(partner_candidate(start, town, band, Sex::Female, f));
    if npcs[m.0 as int].partner is Some {
        if males.take(pair).contains(m) {
            let j = choose|j: int| 0 <= j < males.take(pair).len() && males.take(pair)[j] == m;
            assert(males[j] == males[pair]);
        } else {
            assert(females.take(pair).contains(m));
            let j = choose|j: int| 0 <= j < females.take(pair).len() && females.take(pair)[j] == m;
            assert(females[j] == m);
            assert(females.contains(m));
            assert(partner_candidate(start, town, band, Sex::Female, m));
        }
    }
    if npcs[f.0 as int].partner is Some {
        if females.take(pair).contains(f) {
            let j = choose|j: int| 0 <= j < females.take(pair).len() && females.take(pair)[j] == f;
            assert(females[j] == females[pair]);
        } else {
            assert(males.take(pair).contains(f));
            let j = choose|j: int| 0 <= j < males.take(pair).len() && males.take(pair)[j] == f;
            assert(males[j] == f);
            assert(males.contains(f));
            assert(partner_candidate(start, town, band, Sex::Male, f));
        }
    }
}

/// Linking the next pair of a band keeps the record of who has a partner, and nobody
/// loses one.
proof fn lemma_pair_linked(
    start: World,
    town: int,
    band: int,
    males: Seq<NpcId>,
    females: Seq<NpcId>,
    pair: int,
    current: Seq<Npc>,
    next: Seq<Npc>,
)
    requires
        partnered_so_far(start, current, town, band, males.take(pair), females.take(pair)),
        pairs_done(current, males, females, pair),
        bucket_exact(start, town, band, Sex::Male, males),
        bucket_exact(start, town, band, Sex::Female, females),
        0 <= pair < males.len(),
        pair < females.len(),
        current.len() == start.npcs@.len(),
        next.len() == current.len(),
        next[males[pair].0 as int].partner is Some,
        next[females[pair].0 as int].partner is Some,
        forall|i: int|
            0 <= i < current.len() && i != males[pair].0 && i != females[pair].0 ==> #[trigger] next[i] == current[i],
    ensures
        partnered_so_far(start, next, town, band, males.take(pair + 1), females.take(pair + 1)),
        pairs_done(next, males, females, pair + 1),
        partners_kept(current, next),
{
    let m = males[pair];
    let f = females[pair];
    assert(males.contains(m));
    assert(females.contains(f));
    assert(partner_candidate(start, town, band, Sex::Male, m));
    assert(partner_candidate(start, town, band, Sex::Female, f));
    assert(males.take(pair + 1)[pair] == m);
    assert(females.take(pair + 1)[pair] == f);
    assert forall|i: int| 0 <= i < next.len() && (#[trigger] next[i]).partner is Some implies {
        let npc = start.npcs@[i];
        ||| npc.town.0 < town
        ||| (npc.town.0 == town && age_band(npc.age) < band)
        ||| (npc.town.0 == town && age_band(npc.age) == band && (males.take(pair + 1).contains(npc.id)
            || females.take(pair + 1).contains(npc.id)))
    } by {
        let npc = start.npcs@[i];
        if i == m.0 {
            assert(npc.id == m);
        } else if i == f.0 {
            assert(npc.id == f);
        } else {
            assert(current[i].partner is Some);
            if males.take(pair).contains(npc.id) {
                let j = choose|j: int| 0 <= j < males.take(pair).len() && males.take(pair)[j] == npc.id;
                assert(males.take(pair + 1)[j] == npc.id);
            }
            if females.take(pair).contains(npc.id) {
                let j = choose|j: int| 0 <= j < females.take(pair).len() && females.take(pair)[j] == npc.id;
                assert(females.take(pair + 1)[j] == npc.id);
            }
        }
    }
    assert forall|k: int| 0 <= k < pair + 1 implies next[(#[trigger] males[k]).0 as int].partner is Some
        && next[females[k].0 as int].partner is Some by {
        if k < pair {
            let a = males[k].0 as int;
            let b = females[k].0 as int;
            assert(males.contains(males[k]));
            assert(females.contains(females[k]));
            assert(partner_candidate(start, town, band, Sex::Male, males[k]));
            assert(partner_candidate(start, town, band, Sex::Female, females[k]));
            assert(current[a].partner is Some);
            assert(current[b].partner is Some);
            if a != m.0 && a != f.0 {
                assert(next[a] == current[a]);
            }
            if b != m.0 && b != f.0 {
                assert(next[b] == current[b]);
            }
        }
    }
    assert forall|i: int| 0 <= i < current.len() && (#[trigger] current[i]).partner is Some implies next[i].partner is Some by {
        if i != m.0 && i != f.0 {
            assert(next[i] == current[i]);
        }
    }
}

/// Once the pairs of a band run out, every candidate of the shorter list has a partner.
proof fn lemma_band_finished(
    start: World,
    town: int,
    band: int,
    males: Seq<NpcId>,
    females: Seq<NpcId>,
    pair: int,
    npcs: Seq<Npc>,
)
    requires
        bucket_exact(start, town, band, Sex::Male, males),
        bucket_exact(start, town, band, Sex::Female, females),
        pairs_done(npcs, males, females, pair),
        pair >= males.len() || pair >= females.len(),
    ensures
        band_paired(start, npcs, town, band),
{
    if pair >= males.len() {
        assert forall|x: NpcId| #[trigger] partner_candidate(start, town, band, Sex::Male, x) implies npcs[x.0 as int].partner is Some by {
            assert(males.contains(x));
            let k = choose|k: int| 0 <= k < males.len() && males[k] == x;
            assert(npcs[males[k].0 as int].partner is Some);
        }
    } else {
        assert forall|x: NpcId| #[trigger] partner_candidate(start, town, band, Sex::Female, x) implies npcs[x.0 as int].partner is Some by {
            assert(females.contains(x));
            let k = choose|k: int| 0 <= k < females.len() && females[k] == x;
            assert(npcs[males[k].0 as int].partner is Some && npcs[females[k].0 as int].partner is Some);
        }
    }
}

/// Pairs adults of similar age and opposite sex within each town, then gives the minors
/// parents among the couples of their town.
#[verifier::rlimit(40)]
fn initialize_partners_and_families(world: &mut World, rng: &mut ChaCha8Rng)
    ensures
        families_formed(*old(world), final(world).npcs@),
        (forall|i: int| 0 <= i < old(world).npcs@.len() ==> (#[trigger] old(world).npcs@[i]).partner is None)
            && old(world).active_npcs@.no_duplicates() ==> forall|town: int, band: int|
            0 <= town < old(world).towns@.len() && 0 <= band < PARTNER_BUCKET_COUNT ==> #[trigger] band_paired(
                *old(world),
                final(world).npcs@,
                town,
                band,
            ),
        final(world).npcs@.len() == old(world).npcs@.len(),
        forall|i: int| 0 <= i < final(world).npcs@.len() ==> (#[trigger] final(world).npcs@[i]).id == old(world).npcs@[i].id,
        *final(world) == (World { npcs: final(world).npcs, ..*old(world) }),
{
    let residents = world.residents_by_town();
    let ghost start = *world;
    let ghost fresh = (forall|i: int| 0 <= i < start.npcs@.len() ==> (#[trigger] start.npcs@[i]).partner is None)
        && start.active_npcs@.no_duplicates();
    proof {
        lemma_families_formed_start(start);
    }
    let mut couples_by_town: Vec<Vec<(NpcId, NpcId)>> = Vec::new();
    let mut town_index: usize = 0;
    while town_index < residents.len()
        invariant
            town_index <= residents@.len(),
            couples_by_town@.len() == town_index,
            world.npcs@.len() == start.npcs@.len(),
            forall|i: int| 0 <= i < world.npcs@.len() ==> (#[trigger] world.npcs@[i]).id == start.npcs@[i].id,
            *world == (World { npcs: world.npcs, ..start }),
            families_formed(start, world.npcs@),
            forall|u: int| 0 <= u < residents@.len() ==> (#[trigger] residents@[u])@ == start.active_npcs@.filter(
                resident_in(start.npcs@, u),
            ),
            forall|u: int| 0 <= u < couples_by_town@.len() ==> town_couples(start, u, (#[trigger] couples_by_town@[u])@),
            fresh == ((forall|i: int| 0 <= i < start.npcs@.len() ==> (#[trigger] start.npcs@[i]).partner is None)
                && start.active_npcs@.no_duplicates()),
            fresh ==> partnered_so_far(start, world.npcs@, town_index as int, 0, Seq::empty(), Seq::empty()),
            fresh ==> bands_paired_before(start, world.npcs@, town_index as int, 0),
        decreases residents.len() - town_index,
    {
        let town_residents = &residents[town_index];
        let mut male_buckets: Vec<Vec<NpcId>> = Vec::new();
        let mut female_buckets: Vec<Vec<NpcId>> = Vec::new();
        let mut k: usize = 0;
        while k < PARTNER_BUCKET_COUNT
            invariant
                k <= PARTNER_BUCKET_COUNT,
                male_buckets@.len() == k,
                female_buckets@.len() == k,
                forall|j: int| 0 <= j < k ==> (#[trigger] male_buckets@[j])@ == Seq::<NpcId>::empty(),
                forall|j: int| 0 <= j < k ==> (#[trigger] female_buckets@[j])@ == Seq::<NpcId>::empty(),
            decreases PARTNER_BUCKET_COUNT - k,
        {
            male_buckets.push(Vec::new());
            female_buckets.push(Vec::new());
            k = k + 1;
        }
        proof {
            assert forall|j: int| 0 <= j < PARTNER_BUCKET_COUNT implies (#[trigger] male_buckets@[j])@ == town_residents@.take(
                0,
            ).filter(band_pick(start, j, Sex::Male)) by {
                reveal(Seq::filter);
                assert(town_residents@.take(0).filter(band_pick(start, j, Sex::Male)) =~= Seq::<NpcId>::empty());
            }
            assert forall|j: int| 0 <= j < PARTNER_BUCKET_COUNT implies (#[trigger] female_buckets@[j])@
                == town_residents@.take(0).filter(band_pick(start, j, Sex::Female)) by {
                reveal(Seq::filter);
                assert(town_residents@.take(0).filter(band_pick(start, j, Sex::Female)) =~= Seq::<NpcId>::empty());
            }
        }
        let mut r: usize = 0;
        while r < town_residents.len()
            invariant
                r <= town_residents@.len(),
                town_residents@ == start.active_npcs@.filter(resident_in(start.npcs@, town_index as int)),
                world.npcs@.len() == start.npcs@.len(),
                forall|i: int| 0 <= i < world.npcs@.len() ==> (#[trigger] world.npcs@[i]).id == start.npcs@[i].id,
                families_formed(start, world.npcs@),
                male_buckets@.len() == PARTNER_BUCKET_COUNT,
                female_buckets@.len() == PARTNER_BUCKET_COUNT,
                forall|j: int|
                    0 <= j < PARTNER_BUCKET_COUNT ==> (#[trigger] male_buckets@[j])@ == town_residents@.take(r as int).filter(
                        band_pick(start, j, Sex::Male),
                    ),
                forall|j: int|
                    0 <= j < PARTNER_BUCKET_COUNT ==> (#[trigger] female_buckets@[j])@ == town_residents@.take(
                        r as int,
                    ).filter(band_pick(start, j, Sex::Female)),
            decreases town_residents.len() - r,
        {
            let id = town_residents[r];
            proof {
                lemma_listed_resident(start, town_residents@, town_index as int, id);
                lemma_families_formed_keeps(start, world.npcs@, id.0 as int);
            }
            let ghost males_before = male_buckets@;
            let ghost females_before = female_buckets@;
            match world.npc(id) {
                Some(npc) => {
                    if 18 <= npc.age && npc.age <= 77 {
                        let decade = ((npc.age - 18) / 10) as usize;
                        let bucket: usize = if decade < PARTNER_BUCKET_COUNT - 1 {
                            decade
                        } else {
                            PARTNER_BUCKET_COUNT - 1
                        };
                        match npc.sex {
                            Sex::Male => male_buckets[bucket].push(id),
                            Sex::Female => female_buckets[bucket].push(id),
                        }
                    }
                },
                None => {},
            }
            proof {
                let prefix = town_residents@.take(r as int);
                assert(town_residents@.take(r as int + 1) =~= prefix.push(id));
                assert forall|j: int| 0 <= j < PARTNER_BUCKET_COUNT implies (#[trigger] male_buckets@[j])@
                    == town_residents@.take(r as int + 1).filter(band_pick(start, j, Sex::Male)) by {
                    prefix.lemma_filter_push(id, band_pick(start, j, Sex::Male));
                }
                assert forall|j: int| 0 <= j < PARTNER_BUCKET_COUNT implies (#[trigger] female_buckets@[j])@
                    == town_residents@.take(r as int + 1).filter(band_pick(start, j, Sex::Female)) by {
                    prefix.lemma_filter_push(id, band_pick(start, j, Sex::Female));
                }
            }
            r = r + 1;
        }
        proof {
            assert(town_residents@.take(town_residents@.len() as int) =~= town_residents@);
        }
        let mut couples: Vec<(NpcId, NpcId)> = Vec::new();
        let mut bucket: usize = 0;
        while bucket < PARTNER_BUCKET_COUNT
            invariant
                bucket <= PARTNER_BUCKET_COUNT,
                town_index < residents@.len(),
                town_residents@ == start.active_npcs@.filter(resident_in(start.npcs@, town_index as int)),
                male_buckets@.len() == PARTNER_BUCKET_COUNT,
                female_buckets@.len() == PARTNER_BUCKET_COUNT,
                forall|j: int|
                    bucket <= j < PARTNER_BUCKET_COUNT ==> (#[trigger] male_buckets@[j])@ == town_residents@.filter(
                        band_pick(start, j, Sex::Male),
                    ),
                forall|j: int|
                    bucket <= j < PARTNER_BUCKET_COUNT ==> (#[trigger] female_buckets@[j])@ == town_residents@.filter(
                        band_pick(start, j, Sex::Female),
                    ),
                world.npcs@.len() == start.npcs@.len(),
                forall|i: int| 0 <= i < world.npcs@.len() ==> (#[trigger] world.npcs@[i]).id == start.npcs@[i].id,
                *world == (World { npcs: world.npcs, ..start }),
                families_formed(start, world.npcs@),
                town_couples(start, town_index as int, couples@),
                fresh == ((forall|i: int| 0 <= i < start.npcs@.len() ==> (#[trigger] start.npcs@[i]).partner is None)
                    && start.active_npcs@.no_duplicates()),
                fresh ==> partnered_so_far(start, world.npcs@, town_index as int, bucket as int, Seq::empty(), Seq::empty()),
                fresh ==> bands_paired_before(start, world.npcs@, town_index as int, bucket as int),
            decreases PARTNER_BUCKET_COUNT - bucket,
        {
            let ghost males_before = male_buckets@;
            let ghost females_before = female_buckets@;
            shuffle(&mut male_buckets[bucket], rng);
            shuffle(&mut female_buckets[bucket], rng);
            let males = &male_buckets[bucket];
            let females = &female_buckets[bucket];
            proof {
                lemma_bucket_facts(start, town_index as int, bucket as int, Sex::Male, town_residents@, males@);
                lemma_bucket_facts(start, town_index as int, bucket as int, Sex::Female, town_residents@, females@);
                assert(males@.take(0) =~= Seq::<NpcId>::empty());
                assert(females@.take(0) =~= Seq::<NpcId>::empty());
            }
            let mut pair: usize = 0;
            while pair < males.len() && pair < females.len()
                invariant
                    pair <= males@.len(),
                    pair <= females@.len(),
                    bucket < PARTNER_BUCKET_COUNT,
                    world.npcs@.len() == start.npcs@.len(),
                    forall|i: int| 0 <= i < world.npcs@.len() ==> (#[trigger] world.npcs@[i]).id == start.npcs@[i].id,
                    *world == (World { npcs: world.npcs, ..start }),
                    families_formed(start, world.npcs@),
                    bucket_exact(start, town_index as int, bucket as int, Sex::Male, males@),
                    bucket_exact(start, town_index as int, bucket as int, Sex::Female, females@),
                    town_couples(start, town_index as int, couples@),
                    fresh == ((forall|i: int| 0 <= i < start.npcs@.len() ==> (#[trigger] start.npcs@[i]).partner is None)
                        && start.active_npcs@.no_duplicates()),
                    fresh ==> males@.no_duplicates() && females@.no_duplicates(),
                    fresh ==> partnered_so_far(
                        start,
                        world.npcs@,
                        town_index as int,
                        bucket as int,
                        males@.take(pair as int),
                        females@.take(pair as int),
                    ),
                    fresh ==> pairs_done(world.npcs@, males@, females@, pair as int),
                    fresh ==> bands_paired_before(start, world.npcs@, town_index as int, bucket as int),
                decreases males.len() - pair,
            {
                let male = males[pair];
                let female = females[pair];
                let affinity = random_u8_between(rng, 7, 10);
                proof {
                    assert(males@.contains(male));
                    assert(females@.contains(female));
                    assert(partner_candidate(start, town_index as int, bucket as int, Sex::Male, male));
                    assert(partner_candidate(start, town_index as int, bucket as int, Sex::Female, female));
                    if fresh {
                        lemma_pair_free(
                            start,
                            town_index as int,
                            bucket as int,
                            males@,
                            females@,
                            pair as int,
                            world.npcs@,
                        );
                    }
                }
                let ghost current = world.npcs@;
                if link_partners(world, male, female, affinity) {
                    proof {
                        lemma_couple_step(start, current, world.npcs@, male, female, affinity);
                        if fresh {
                            lemma_pair_linked(
                                start,
                                town_index as int,
                                bucket as int,
                                males@,
                                females@,
                                pair as int,
                                current,
                                world.npcs@,
                            );
                            lemma_bands_paired_kept(start, current, world.npcs@, town_index as int, bucket as int);
                        }
                    }
                    let ghost couples_before = couples@;
                    if male.0 <= female.0 {
                        couples.push((male, female));
                    } else {
                        couples.push((female, male));
                    }
                    proof {
                        assert forall|c: (NpcId, NpcId)| #[trigger] couples@.contains(c) implies in_town(
                            start,
                            town_index as int,
                            c.0,
                        ) && in_town(start, town_index as int, c.1) by {
                            if c != couples@.last() {
                                lemma_contains_after_push(couples_before, couples@.last(), c);
                            }
                        }
                    }
                } else {
                    proof {
                        if fresh {
                            assert(male != female);
                            assert(npc_at(current, male));
                            assert(npc_at(current, female));
                            assert(false);
                        }
                    }
                }
                pair = pair + 1;
            }
            proof {
                if fresh {
                    lemma_band_finished(
                        start,
                        town_index as int,
                        bucket as int,
                        males@,
                        females@,
                        pair as int,
                        world.npcs@,
                    );
                    lemma_partnered_later(
                        start,
                        world.npcs@,
                        town_index as int,
                        bucket as int,
                        males@.take(pair as int),
                        females@.take(pair as int),
                        town_index as int,
                        bucket as int + 1,
                    );
                    lemma_bands_paired_advance(start, world.npcs@, town_index as int, bucket as int);
                }
            }
            bucket = bucket + 1;
        }
        proof {
            if fresh {
                lemma_partnered_later(
                    start,
                    world.npcs@,
                    town_index as int,
                    PARTNER_BUCKET_COUNT as int,
                    Seq::empty(),
                    Seq::empty(),
                    town_index as int + 1,
                    0,
                );
                lemma_bands_paired_advance(start, world.npcs@, town_index as int, PARTNER_BUCKET_COUNT as int);
            }
        }
        let ghost couples_before = couples@;
        shuffle(&mut couples, rng);
        proof {
            assert forall|c: (NpcId, NpcId)| #[trigger] couples@.contains(c) implies in_town(start, town_index as int, c.0)
                && in_town(start, town_index as int, c.1) by {
                lemma_contains_after_reorder(couples_before, couples@, c);
            }
        }
        couples_by_town.push(couples);
        town_index = town_index + 1;
    }
    let ghost paired = world.npcs@;
    let mut town_index: usize = 0;
    while town_index < residents.len()
        invariant
            town_index <= residents@.len(),
            couples_by_town@.len() == residents@.len(),
            world.npcs@.len() == start.npcs@.len(),
            forall|i: int| 0 <= i < world.npcs@.len() ==> (#[trigger] world.npcs@[i]).id == start.npcs@[i].id,
            *world == (World { npcs: world.npcs, ..start }),
            families_formed(start, world.npcs@),
            forall|u: int| 0 <= u < residents@.len() ==> (#[trigger] residents@[u])@ == start.active_npcs@.filter(
                resident_in(start.npcs@, u),
            ),
            forall|u: int| 0 <= u < couples_by_town@.len() ==> town_couples(start, u, (#[trigger] couples_by_town@[u])@),
            paired.len() == world.npcs@.len(),
            forall|i: int| 0 <= i < world.npcs@.len() ==> (#[trigger] world.npcs@[i]).partner == paired[i].partner,
        decreases residents.len() - town_index,
    {
        let couples = &couples_by_town[town_index];
        if couples.len() > 0 {
            let town_residents = &residents[town_index];
            let mut r: usize = 0;
            while r < town_residents.len()
                invariant
                    couples@.len() > 0,
                    r <= town_residents@.len(),
                    world.npcs@.len() == start.npcs@.len(),
                    forall|i: int| 0 <= i < world.npcs@.len() ==> (#[trigger] world.npcs@[i]).id == start.npcs@[i].id,
                    *world == (World { npcs: world.npcs, ..start }),
                    families_formed(start, world.npcs@),
                    town_residents@ == start.active_npcs@.filter(resident_in(start.npcs@, town_index as int)),
                    town_couples(start, town_index as int, couples@),
                    paired.len() == world.npcs@.len(),
                    forall|i: int| 0 <= i < world.npcs@.len() ==> (#[trigger] world.npcs@[i]).partner == paired[i].partner,
                decreases town_residents.len() - r,
            {
                let child_id = town_residents[r];
                proof {
                    lemma_listed_resident(start, town_residents@, town_index as int, child_id);
                }
                let child_age = match world.npc(child_id) {
                    Some(npc) => npc.age,
                    None => 255,
                };
                if child_age < 18 {
                    proof {
                        lemma_families_formed_keeps(start, world.npcs@, child_id.0 as int);
                    }
                    let start_at = random_usize_below(rng, 0, couples.len());
                    let candidate_count: usize = if couples.len() < MAX_PARENT_CANDIDATES {
                        couples.len()
                    } else {
                        MAX_PARENT_CANDIDATES
                    };
                    let mut offset: usize = 0;
                    while offset < candidate_count
                        invariant
                            candidate_count <= couples@.len(),
                            start_at < couples@.len(),
                            offset <= candidate_count,
                            world.npcs@.len() == start.npcs@.len(),
                            forall|i: int| 0 <= i < world.npcs@.len() ==> (#[trigger] world.npcs@[i]).id == start.npcs@[i].id,
                            *world == (World { npcs: world.npcs, ..start }),
                            families_formed(start, world.npcs@),
                            town_couples(start, town_index as int, couples@),
                            in_town(start, town_index as int, child_id),
                            child_age == start.npcs@[child_id.0 as int].age,
                            child_age < 18,
                            paired.len() == world.npcs@.len(),
                            forall|i: int| 0 <= i < world.npcs@.len() ==> (#[trigger] world.npcs@[i]).partner == paired[i].partner,
                        decreases candidate_count - offset,
                    {
                        let position = wrapped_index(start_at, offset, couples.len());
                        let (parent_a, parent_b) = couples[position];
                        proof {
                            assert(couples@.contains(couples@[position as int]));
                        }
                        if parents_can_adopt_initial_child(world, parent_a, parent_b, child_age) {
                            proof {
                                lemma_families_formed_keeps(start, world.npcs@, parent_a.0 as int);
                                lemma_families_formed_keeps(start, world.npcs@, parent_b.0 as int);
                                assert(start.npcs@[parent_a.0 as int].town == start.npcs@[child_id.0 as int].town);
                                assert(start.npcs@[parent_b.0 as int].town == start.npcs@[child_id.0 as int].town);
                                assert(adopted(start, parent_a.0 as int, child_id));
                                assert(adopted(start, parent_b.0 as int, child_id));
                            }
                            let ghost current = world.npcs@;
                            link_parent_child(world, parent_a, child_id);
                            proof {
                                lemma_adoption_step(start, current, world.npcs@, parent_a, child_id);
                            }
                            let ghost current = world.npcs@;
                            link_parent_child(world, parent_b, child_id);
                            proof {
                                lemma_adoption_step(start, current, world.npcs@, parent_b, child_id);
                            }
                            break;
                        }
                        offset = offset + 1;
                    }
                }
                r = r + 1;
            }
        }
        town_index = town_index + 1;
    }
    proof {
        if fresh {
            assert(partners_kept(paired, world.npcs@));
            lemma_bands_paired_kept(start, paired, world.npcs@, residents@.len() as int, 0);
            assert forall|town: int, band: int|
                0 <= town < start.towns@.len() && 0 <= band < PARTNER_BUCKET_COUNT implies #[trigger] band_paired(
                start,
                world.npcs@,
                town,
                band,
            ) by {
            }
        }
    }
}

/// Whether a new friendship fits: two different existing NPCs, not related yet, both
/// under the relationship limit.
fn can_add_friendship(world: &World, a: NpcId, b: NpcId, limit: usize) -> (fits: bool)
    ensures
        fits == (a != b && limit > 0 && npc_at(world.npcs@, a) && npc_at(world.npcs@, b)
            && !world.npcs@[a.0 as int].relationships@.contains_key(b)
            && !world.npcs@[b.0 as int].relationships@.contains_key(a)
            && world.npcs@[a.0 as int].relationships@.len() < limit
            && world.npcs@[b.0 as int].relationships@.len() < limit),
{
    if a == b || limit == 0 {
        return false;
    }
    let left = match world.npc(a) {
        Some(npc) => npc,
        None => {
            return false;
        },
    };
    let right = match world.npc(b) {
        Some(npc) => npc,
        None => {
            return false;
        },
    };
    left.relationship(b).is_none() && right.relationship(a).is_none() && left.relationship_count() < limit
        && right.relationship_count() < limit
}

/// Gives both NPCs the same relationship to each other.
fn link_symmetric_relationship(world: &mut World, a: NpcId, b: NpcId, relationship: Relationship) -> (linked: bool)
    ensures
        linked == (a != b && npc_at(old(world).npcs@, a) && npc_at(old(world).npcs@, b)),
        !linked ==> *final(world) == *old(world),
        linked ==> {
            let left = old(world).npcs@[a.0 as int];
            let right = old(world).npcs@[b.0 as int];
            &&& final(world).npcs@ == old(world).npcs@.update(
                a.0 as int,
                Npc { relationships: final(world).npcs@[a.0 as int].relationships, ..left },
            ).update(b.0 as int, Npc { relationships: final(world).npcs@[b.0 as int].relationships, ..right })
            &&& final(world).npcs@[a.0 as int].relationships@ == left.relationships@.insert(b, relationship.normalized())
            &&& final(world).npcs@[b.0 as int].relationships@ == right.relationships@.insert(a, relationship.normalized())
        },
        final(world).npcs@.len() == old(world).npcs@.len(),
        forall|i: int| 0 <= i < final(world).npcs@.len() ==> (#[trigger] final(world).npcs@[i]).id == old(world).npcs@[i].id,
        *final(world) == (World { npcs: final(world).npcs, ..*old(world) }),
{
    match world.two_npcs_mut(a, b) {
        None => false,
        Some((left, right)) => {
            left.set_relationship(b, relationship);
            right.set_relationship(a, relationship);
            true
        },
    }
}

/// A friendship that the start of the world may add for the NPC at index `i`: with
/// another NPC of the world, both on the active list and living in the same town, as a
/// friend with relation 7 to 9 and affinity 5 to 10, dated month one of year zero.
pub open spec fn initial_friendship(world: World, i: int, other: NpcId, relationship: Relationship) -> bool {
    let npcs = world.npcs@;
    &&& npc_at(npcs, other)
    &&& other != npcs[i].id
    &&& npcs[other.0 as int].town == npcs[i].town
    &&& world.active_npcs@.contains(npcs[i].id)
    &&& world.active_npcs@.contains(other)
    &&& relationship.kind == RelationshipKind::Friend
    &&& 7 <= relationship.relation <= 9
    &&& 5 <= relationship.affinity <= 10
    &&& relationship.last_interaction_year == 0
    &&& relationship.last_interaction_month == INITIAL_RELATIONSHIP_MONTH
}

/// `after` differs from `before` only by friendships added in pairs: every relationship
/// held before is kept, each new one is an initial friendship held the same way by the
/// other side, and no NPC goes past the limit through them.
pub open spec fn friendships_added(before: World, after: Seq<Npc>, limit: usize) -> bool {
    let npcs = before.npcs@;
    &&& after.len() == npcs.len()
    &&& forall|i: int|
        0 <= i < npcs.len() ==> #[trigger] after[i] == (Npc { relationships: after[i].relationships, ..npcs[i] })
    &&& forall|i: int, k: NpcId|
        0 <= i < npcs.len() && #[trigger] npcs[i].relationships@.contains_key(k) ==> after[i].relationships@.contains_key(k)
            && after[i].relationships@[k] == npcs[i].relationships@[k]
    &&& forall|i: int, k: NpcId|
        0 <= i < npcs.len() && #[trigger] after[i].relationships@.contains_key(k) && !npcs[i].relationships@.contains_key(k)
            ==> {
            &&& initial_friendship(before, i, k, after[i].relationships@[k])
            &&& after[k.0 as int].relationships@.contains_key(npcs[i].id)
            &&& after[k.0 as int].relationships@[npcs[i].id] == after[i].relationships@[k]
        }
    &&& forall|i: int|
        0 <= i < npcs.len() ==> (#[trigger] after[i]).relationships@.len() <= npcs[i].relationships@.len()
            || after[i].relationships@.len() <= limit
}

/// In the town at index `town`, `id` is related, in one direction or the other, to
/// another resident, or some resident of the town holds `limit` relationships or more.
pub open spec fn befriended(start: World, npcs: Seq<Npc>, town: int, id: NpcId, limit: usize) -> bool {
    ||| exists|other: NpcId|
        #![trigger in_town(start, town, other)]
        in_town(start, town, other) && other != id && (npcs[id.0 as int].relationships@.contains_key(other)
            || npcs[other.0 as int].relationships@.contains_key(id))
    ||| exists|other: NpcId|
        #![trigger in_town(start, town, other)]
        in_town(start, town, other) && npcs[other.0 as int].relationships@.len() >= limit
}

/// Every resident of the towns before index `town` that have two residents or more is
/// befriended in `npcs`.
pub open spec fn towns_befriended(start: World, npcs: Seq<Npc>, town: int, limit: usize) -> bool {
    forall|u: int, id: NpcId|
        0 <= u < town && in_town(start, u, id) && start.active_npcs@.filter(resident_in(start.npcs@, u)).len() >= 2
            ==> #[trigger] befriended(start, npcs, u, id, limit)
}

/// Nobody's relationships shrink: every one held in `before` is held in `after`, and no
/// count drops.
pub open spec fn relationships_grow(before: Seq<Npc>, after: Seq<Npc>) -> bool {
    &&& after.len() == before.len()
    &&& forall|i: int, k: NpcId|
        0 <= i < before.len() && #[trigger] before[i].relationships@.contains_key(k) ==> after[i].relationships@.contains_key(k)
    &&& forall|i: int| 0 <= i < before.len() ==> (#[trigger] before[i]).relationships@.len() <= after[i].relationships@.len()
}

/// Growth of relationships adds up over two steps.
proof fn lemma_relationships_grow_chain(first: Seq<Npc>, second: Seq<Npc>, third: Seq<Npc>)
    requires
        relationships_grow(first, second),
        relationships_grow(second, third),
    ensures
        relationships_grow(first, third),
{
    assert forall|i: int, k: NpcId| 0 <= i < first.len() && #[trigger] first[i].relationships@.contains_key(k) implies third[i].relationships@.contains_key(k) by {
        assert(second[i].relationships@.contains_key(k));
    }
    assert forall|i: int| 0 <= i < first.len() implies (#[trigger] first[i]).relationships@.len() <= third[i].relationships@.len() by {
        assert(second[i].relationships@.len() <= third[i].relationships@.len());
    }
}

/// A befriended NPC stays befriended while relationships only grow.
proof fn lemma_befriended_kept(start: World, before: Seq<Npc>, after: Seq<Npc>, town: int, id: NpcId, limit: usize)
    requires
        befriended(start, before, town, id, limit),
        relationships_grow(before, after),
        before.len() == start.npcs@.len(),
        id.0 < before.len(),
    ensures
        befriended(start, after, town, id, limit),
{
    if exists|other: NpcId|
        #![trigger in_town(start, town, other)]
        in_town(start, town, other) && other != id && (before[id.0 as int].relationships@.contains_key(other)
            || before[other.0 as int].relationships@.contains_key(id)) {
        let other = choose|other: NpcId|
            #![trigger in_town(start, town, other)]
            in_town(start, town, other) && other != id && (before[id.0 as int].relationships@.contains_key(other)
                || before[other.0 as int].relationships@.contains_key(id));
        assert(in_town(start, town, other));
        if before[id.0 as int].relationships@.contains_key(other) {
            assert(after[id.0 as int].relationships@.contains_key(other));
        } else {
            assert(after[other.0 as int].relationships@.contains_key(id));
        }
    } else {
        let other = choose|other: NpcId|
            #![trigger in_town(start, town, other)]
            in_town(start, town, other) && before[other.0 as int].relationships@.len() >= limit;
        assert(in_town(start, town, other));
        assert(before[other.0 as int].relationships@.len() <= after[other.0 as int].relationships@.len());
    }
}

/// The befriended towns stay so while relationships only grow.
proof fn lemma_towns_befriended_kept(start: World, before: Seq<Npc>, after: Seq<Npc>, town: int, limit: usize)
    requires
        towns_befriended(start, before, town, limit),
        relationships_grow(before, after),
        before.len() == start.npcs@.len(),
    ensures
        towns_befriended(start, after, town, limit),
{
    assert forall|u: int, id: NpcId|
        0 <= u < town && in_town(start, u, id) && start.active_npcs@.filter(resident_in(start.npcs@, u)).len() >= 2
            implies #[trigger] befriended(start, after, u, id, limit) by {
        lemma_befriended_kept(start, before, after, u, id, limit);
    }
}

/// One more friendship, added on both sides, keeps the world within `friendships_added`.
proof fn lemma_friendship_step(
    start: World,
    current: Seq<Npc>,
    next: Seq<Npc>,
    a: NpcId,
    b: NpcId,
    relationship: Relationship,
    limit: usize,
)
    requires
        friendships_added(start, current, limit),
        a != b,
        npc_at(current, a),
        npc_at(current, b),
        !current[a.0 as int].relationships@.contains_key(b),
        !current[b.0 as int].relationships@.contains_key(a),
        current[a.0 as int].relationships@.len() < limit,
        current[b.0 as int].relationships@.len() < limit,
        current[a.0 as int].relationships@.dom().finite(),
        current[b.0 as int].relationships@.dom().finite(),
        start.npcs@[a.0 as int].town == start.npcs@[b.0 as int].town,
        start.active_npcs@.contains(a),
        start.active_npcs@.contains(b),
        relationship.kind == RelationshipKind::Friend,
        7 <= relationship.relation <= 9,
        5 <= relationship.affinity <= 10,
        relationship.last_interaction_year == 0,
        relationship.last_interaction_month == INITIAL_RELATIONSHIP_MONTH,
        next == current.update(
            a.0 as int,
            Npc { relationships: next[a.0 as int].relationships, ..current[a.0 as int] },
        ).update(b.0 as int, Npc { relationships: next[b.0 as int].relationships, ..current[b.0 as int] }),
        next[a.0 as int].relationships@ == current[a.0 as int].relationships@.insert(b, relationship),
        next[b.0 as int].relationships@ == current[b.0 as int].relationships@.insert(a, relationship),
    ensures
        friendships_added(start, next, limit),
        relationships_grow(current, next),
        next[a.0 as int].relationships@.contains_key(b),
{
    let npcs = start.npcs@;
    assert(a.0 != b.0);
    assert forall|i: int, k: NpcId|
        0 <= i < current.len() && #[trigger] current[i].relationships@.contains_key(k) implies next[i].relationships@.contains_key(k) by {
        if i != a.0 && i != b.0 {
            assert(next[i] == current[i]);
        }
    }
    assert forall|i: int| 0 <= i < current.len() implies (#[trigger] current[i]).relationships@.len()
        <= next[i].relationships@.len() by {
        if i != a.0 && i != b.0 {
            assert(next[i] == current[i]);
        }
    }
    assert(current[a.0 as int].id == npcs[a.0 as int].id);
    assert(current[b.0 as int].id == npcs[b.0 as int].id);
    assert forall|i: int| 0 <= i < npcs.len() implies #[trigger] next[i] == (Npc {
        relationships: next[i].relationships,
        ..npcs[i]
    }) by {
        assert(current[i] == (Npc { relationships: current[i].relationships, ..npcs[i] }));
    }
    assert forall|i: int, k: NpcId|
        0 <= i < npcs.len() && #[trigger] npcs[i].relationships@.contains_key(k) implies next[i].relationships@.contains_key(k)
            && next[i].relationships@[k] == npcs[i].relationships@[k] by {
        assert(current[i].relationships@.contains_key(k));
        if i == a.0 {
            assert(k != b);
        } else if i == b.0 {
            assert(k != a);
        }
    }
    assert forall|i: int, k: NpcId|
        0 <= i < npcs.len() && #[trigger] next[i].relationships@.contains_key(k) && !npcs[i].relationships@.contains_key(k)
            implies {
        &&& initial_friendship(start, i, k, next[i].relationships@[k])
        &&& next[k.0 as int].relationships@.contains_key(npcs[i].id)
        &&& next[k.0 as int].relationships@[npcs[i].id] == next[i].relationships@[k]
    } by {
        if (i == a.0 && k == b) || (i == b.0 && k == a) {
        } else {
            assert(current[i].relationships@.contains_key(k));
            assert(initial_friendship(start, i, k, current[i].relationships@[k]));
            let j = k.0 as int;
            assert(current[j].relationships@.contains_key(npcs[i].id));
            if j == a.0 {
                assert(npcs[i].id != b);
            } else if j == b.0 {
                assert(npcs[i].id != a);
            }
        }
    }
    assert forall|i: int| 0 <= i < npcs.len() implies (#[trigger] next[i]).relationships@.len()
        <= npcs[i].relationships@.len() || next[i].relationships@.len() <= limit by {
        if i == a.0 {
            assert(next[i].relationships@.len() == current[i].relationships@.len() + 1);
        } else if i == b.0 {
            assert(next[i].relationships@.len() == current[i].relationships@.len() + 1);
        } else {
            assert(current[i].relationships@.len() <= npcs[i].relationships@.len() || current[i].relationships@.len() <= limit);
        }
    }
}

/// Friendships between neighbours in a shuffled order of each town's residents.
#[verifier::rlimit(40)]
fn initialize_friendships(world: &mut World, max_relationships_per_npc: usize, rng: &mut ChaCha8Rng)
    ensures
        friendships_added(*old(world), final(world).npcs@, max_relationships_per_npc),
        old(world).active_npcs@.no_duplicates() && max_relationships_per_npc > 0 ==> forall|town: int, id: NpcId|
            0 <= town < old(world).towns@.len() && in_town(*old(world), town, id) && old(world).active_npcs@.filter(
                resident_in(old(world).npcs@, town),
            ).len() >= 2 ==> #[trigger] befriended(*old(world), final(world).npcs@, town, id, max_relationships_per_npc),
        final(world).npcs@.len() == old(world).npcs@.len(),
        forall|i: int| 0 <= i < final(world).npcs@.len() ==> (#[trigger] final(world).npcs@[i]).id == old(world).npcs@[i].id,
        *final(world) == (World { npcs: final(world).npcs, ..*old(world) }),
{
    let residents = world.residents_by_town();
    let ghost start = *world;
    let ghost fresh = start.active_npcs@.no_duplicates() && max_relationships_per_npc > 0;
    let mut t: usize = 0;
    while t < residents.len()
        invariant
            t <= residents@.len(),
            world.npcs@.len() == start.npcs@.len(),
            forall|i: int| 0 <= i < world.npcs@.len() ==> (#[trigger] world.npcs@[i]).id == start.npcs@[i].id,
            *world == (World { npcs: world.npcs, ..start }),
            friendships_added(start, world.npcs@, max_relationships_per_npc),
            forall|u: int| 0 <= u < residents@.len() ==> (#[trigger] residents@[u])@ == start.active_npcs@.filter(
                resident_in(start.npcs@, u),
            ),
            fresh == (start.active_npcs@.no_duplicates() && max_relationships_per_npc > 0),
            fresh ==> towns_befriended(start, world.npcs@, t as int, max_relationships_per_npc),
        decreases residents.len() - t,
    {
        let ghost snapshot = world.npcs@;
        let mut order = residents[t].clone();
        if order.len() >= 2 {
            shuffle(&mut order, rng);
            proof {
                vstd::seq_lib::to_multiset_len(order@);
                vstd::seq_lib::to_multiset_len(residents@[t as int]@);
                assert forall|x: NpcId| #[trigger] order@.contains(x) implies start.active_npcs@.contains(x) && resident_in(
                    start.npcs@,
                    t as int,
                )(x) by {
                    broadcast use vstd::seq_lib::group_to_multiset_ensures;
                    broadcast use vstd::seq_lib::group_filter_ensures;
                    assert(order@.to_multiset().count(x) > 0);
                    assert(residents@[t as int]@.contains(x));
                    let pick = resident_in(start.npcs@, t as int);
                    assert(residents@[t as int]@ == start.active_npcs@.filter(pick));
                    start.active_npcs@.lemma_filter_contains_rev(pick, x);
                    assert(residents@[t as int]@ == start.active_npcs@.filter(pick));
                    let m = choose|m: int| 0 <= m < residents@[t as int]@.len() && residents@[t as int]@[m] == x;
                    assert(pick(start.active_npcs@.filter(pick)[m]));
                }
                if fresh {
                    crate::crisis::lemma_filter_distinct(start.active_npcs@, resident_in(start.npcs@, t as int));
                    residents@[t as int]@.lemma_multiset_has_no_duplicates();
                    order@.lemma_multiset_has_no_duplicates_conv();
                }
            }
            let max_offset: usize = if INITIAL_FRIEND_OFFSETS < order.len() - 1 {
                INITIAL_FRIEND_OFFSETS
            } else {
                order.len() - 1
            };
            let mut offset: usize = 1;
            while offset <= max_offset
                invariant
                    order@.len() >= 2,
                    max_offset < order@.len(),
                    1 <= offset <= max_offset + 1,
                    world.npcs@.len() == start.npcs@.len(),
                    forall|i: int| 0 <= i < world.npcs@.len() ==> (#[trigger] world.npcs@[i]).id == start.npcs@[i].id,
                    *world == (World { npcs: world.npcs, ..start }),
                    friendships_added(start, world.npcs@, max_relationships_per_npc),
                    forall|x: NpcId| #[trigger] order@.contains(x) ==> start.active_npcs@.contains(x) && resident_in(
                        start.npcs@,
                        t as int,
                    )(x),
                    fresh == (start.active_npcs@.no_duplicates() && max_relationships_per_npc > 0),
                    fresh ==> order@.no_duplicates(),
                    fresh ==> relationships_grow(snapshot, world.npcs@),
                    fresh ==> forall|j: int|
                        0 <= j < order@.len() && offset > 1 ==> #[trigger] befriended(
                            start,
                            world.npcs@,
                            t as int,
                            order@[j],
                            max_relationships_per_npc,
                        ),
                decreases max_offset + 1 - offset,
            {
                let mut index: usize = 0;
                while index < order.len()
                    invariant
                        order@.len() >= 2,
                        max_offset < order@.len(),
                        1 <= offset <= max_offset,
                        index <= order@.len(),
                        world.npcs@.len() == start.npcs@.len(),
                        forall|i: int| 0 <= i < world.npcs@.len() ==> (#[trigger] world.npcs@[i]).id == start.npcs@[i].id,
                        *world == (World { npcs: world.npcs, ..start }),
                        friendships_added(start, world.npcs@, max_relationships_per_npc),
                        forall|x: NpcId| #[trigger] order@.contains(x) ==> start.active_npcs@.contains(x) && resident_in(
                            start.npcs@,
                            t as int,
                        )(x),
                        fresh == (start.active_npcs@.no_duplicates() && max_relationships_per_npc > 0),
                        fresh ==> order@.no_duplicates(),
                        fresh ==> relationships_grow(snapshot, world.npcs@),
                        fresh ==> forall|j: int|
                            0 <= j < order@.len() && (offset > 1 || j < index) ==> #[trigger] befriended(
                                start,
                                world.npcs@,
                                t as int,
                                order@[j],
                                max_relationships_per_npc,
                            ),
                    decreases order.len() - index,
                {
                    let a = order[index];
                    let b = order[wrapped_index(index, offset, order.len())];
                    let ghost current = world.npcs@;
                    proof {
                        assert(order@.contains(a));
                        assert(order@.contains(b));
                        if fresh && offset == 1 {
                            let w = (index + offset) % (order@.len() as int);
                            assert(w != index) by (nonlinear_arith)
                                requires
                                    w == (index + 1) % (order@.len() as int),
                                    0 <= index < order@.len(),
                                    order@.len() >= 2,
                            ;
                        }
                    }
                    if can_add_friendship(world, a, b, max_relationships_per_npc) {
                        let affinity = random_u8_between(rng, 5, 10);
                        let relation = random_u8_between(rng, 7, 9);
                        let relationship = Relationship::with_relation(
                            affinity,
                            relation,
                            RelationshipKind::Friend,
                            0,
                            INITIAL_RELATIONSHIP_MONTH,
                        );
                        proof {
                            assert(relationship.normalized() == relationship);
                            current[a.0 as int].relationships.lemma_finite();
                            current[b.0 as int].relationships.lemma_finite();
                        }
                        link_symmetric_relationship(world, a, b, relationship);
                        proof {
                            lemma_friendship_step(
                                start,
                                current,
                                world.npcs@,
                                a,
                                b,
                                relationship,
                                max_relationships_per_npc,
                            );
                        }
                    }
                    proof {
                        if fresh {
                            assert(relationships_grow(current, world.npcs@));
                            lemma_relationships_grow_chain(snapshot, current, world.npcs@);
                            assert forall|j: int|
                                0 <= j < order@.len() && (offset > 1 || j < index + 1) implies #[trigger] befriended(
                                start,
                                world.npcs@,
                                t as int,
                                order@[j],
                                max_relationships_per_npc,
                            ) by {
                                assert(order@.contains(order@[j]));
                                if offset > 1 || j < index {
                                    lemma_befriended_kept(
                                        start,
                                        current,
                                        world.npcs@,
                                        t as int,
                                        order@[j],
                                        max_relationships_per_npc,
                                    );
                                } else {
                                    assert(in_town(start, t as int, b));
                                    assert(in_town(start, t as int, a));
                                }
                            }
                        }
                    }
                    index = index + 1;
                }
                offset = offset + 1;
            }
            proof {
                if fresh {
                    lemma_towns_befriended_kept(start, snapshot, world.npcs@, t as int, max_relationships_per_npc);
                    assert forall|u: int, id: NpcId|
                        0 <= u < t + 1 && in_town(start, u, id) && start.active_npcs@.filter(resident_in(start.npcs@, u)).len()
                            >= 2 implies #[trigger] befriended(start, world.npcs@, u, id, max_relationships_per_npc) by {
                        if u == t {
                            broadcast use vstd::seq_lib::group_to_multiset_ensures;
                            broadcast use vstd::seq_lib::group_filter_ensures;
                            let pick = resident_in(start.npcs@, t as int);
                            let k = choose|k: int| 0 <= k < start.active_npcs@.len() && start.active_npcs@[k] == id;
                            start.active_npcs@.lemma_filter_contains(pick, k);
                            assert(residents@[t as int]@.contains(id));
                            assert(residents@[t as int]@.to_multiset().count(id) > 0);
                            assert(order@.contains(id));
                            let j = choose|j: int| 0 <= j < order@.len() && order@[j] == id;
                            assert(befriended(start, world.npcs@, t as int, order@[j], max_relationships_per_npc));
                        }
                    }
                }
            }
        } else {
            proof {
                if fresh {
                    vstd::seq_lib::to_multiset_len(residents@[t as int]@);
                    assert forall|u: int, id: NpcId|
                        0 <= u < t + 1 && in_town(start, u, id) && start.active_npcs@.filter(resident_in(start.npcs@, u)).len()
                            >= 2 implies #[trigger] befriended(start, world.npcs@, u, id, max_relationships_per_npc) by {
                    }
                }
            }
        }
        t = t + 1;
    }
}

/// The goal an initial NPC starts with given its family: raising children for a parent
/// under sixty, protecting the family for a partnered NPC that was looking for a partner.
pub open spec fn aligned_goal(npc: Npc) -> Goal {
    if npc.children@.len() > 0 && npc.age < 60 {
        Goal { kind: GoalKind::RaiseChildren, progress_bits: MIN_GOAL_PROGRESS_BITS, since_year: 0 }
    } else if npc.partner is Some && npc.goal.kind == GoalKind::FindPartner {
        Goal { kind: GoalKind::ProtectFamily, progress_bits: MIN_GOAL_PROGRESS_BITS, since_year: 0 }
    } else {
        npc.goal
    }
}

/// Parents under sixty aim to raise their children; a partnered NPC no longer looks for
/// a partner.
fn align_initial_goals_with_family(world: &mut World)
    ensures
        forall|i: int|
            0 <= i < old(world).npcs@.len() ==> #[trigger] final(world).npcs@[i] == (Npc {
                goal: aligned_goal(old(world).npcs@[i]),
                ..old(world).npcs@[i]
            }),
        final(world).npcs@.len() == old(world).npcs@.len(),
        forall|i: int| 0 <= i < final(world).npcs@.len() ==> (#[trigger] final(world).npcs@[i]).id == old(world).npcs@[i].id,
        *final(world) == (World { npcs: final(world).npcs, ..*old(world) }),
{
    let ghost start = *world;
    let mut i: usize = 0;
    while i < world.npcs.len()
        invariant
            i <= world.npcs@.len(),
            world.npcs@.len() == start.npcs@.len(),
            forall|k: int| 0 <= k < world.npcs@.len() ==> (#[trigger] world.npcs@[k]).id == start.npcs@[k].id,
            forall|k: int| 0 <= k < i ==> #[trigger] world.npcs@[k] == (Npc { goal: aligned_goal(start.npcs@[k]), ..start.npcs@[k] }),
            forall|k: int| i <= k < world.npcs@.len() ==> #[trigger] world.npcs@[k] == start.npcs@[k],
            *world == (World { npcs: world.npcs, ..start }),
        decreases world.npcs.len() - i,
    {
        let npc = &mut world.npcs[i];
        if npc.children.len() > 0 && npc.age < 60 {
            npc.goal = Goal::new(GoalKind::RaiseChildren, 0);
        } else if npc.partner.is_some() && npc.goal.kind == GoalKind::FindPartner {
            npc.goal = Goal::new(GoalKind::ProtectFamily, 0);
        }
        i = i + 1;
    }
}

/// An NPC just made for an initial world: stored at its id, in the town `index %
/// town_count`, alive and in the world, without partner, relatives or relationships, and
/// passing its own checks.
pub open spec fn fresh_npc(npc: Npc, index: int, town_count: int) -> bool {
    &&& npc.id.0 == index
    &&& npc.town.0 == index % town_count
    &&& npc.alive
    &&& npc.in_world
    &&& npc.partner is None
    &&& npc.parents@.len() == 0
    &&& npc.children@.len() == 0
    &&& npc.relationships@ == Map::<NpcId, Relationship>::empty()
    &&& npc.validation_error() is None
}

/// The three steps of an initial world's society: couples and families, friendships, and
/// the goals aligned with the family, each changing only what it should (and the random
/// generator handed back at the end).
pub open spec fn society_built(w0: World, w1: World, w2: World, w3: World, limit: usize) -> bool {
    &&& families_formed(w0, w1.npcs@)
    &&& w1 == (World { npcs: w1.npcs, ..w0 })
    &&& friendships_added(w1, w2.npcs@, limit)
    &&& w2 == (World { npcs: w2.npcs, ..w1 })
    &&& w3.npcs@.len() == w2.npcs@.len()
    &&& forall|i: int|
        0 <= i < w2.npcs@.len() ==> #[trigger] w3.npcs@[i] == (Npc { goal: aligned_goal(w2.npcs@[i]), ..w2.npcs@[i] })
    &&& w3 == (World { npcs: w3.npcs, rng: w3.rng, ..w2 })
}

/// Through the three steps an NPC keeps all but its partner, relatives and relationships
/// from the first step, its relationships from the second, and gets its goal in the third.
proof fn lemma_society_frames(w0: World, w1: World, w2: World, w3: World, limit: usize, j: int)
    requires
        society_built(w0, w1, w2, w3, limit),
        0 <= j < w0.npcs@.len(),
    ensures
        w3.npcs@.len() == w0.npcs@.len(),
        w3.npcs@[j] == (Npc {
            goal: aligned_goal(w2.npcs@[j]),
            relationships: w2.npcs@[j].relationships,
            partner: w1.npcs@[j].partner,
            children: w1.npcs@[j].children,
            parents: w1.npcs@[j].parents,
            ..w0.npcs@[j]
        }),
        w2.npcs@[j].goal == w0.npcs@[j].goal,
        w2.npcs@[j].partner == w1.npcs@[j].partner,
        w2.npcs@[j].children == w1.npcs@[j].children,
        w2.npcs@[j].parents == w1.npcs@[j].parents,
{
    reveal(families_formed);
    let a1 = w1.npcs@;
    let a2 = w2.npcs@;
    assert(a1[j] == (Npc {
        partner: a1[j].partner,
        relationships: a1[j].relationships,
        children: a1[j].children,
        parents: a1[j].parents,
        ..w0.npcs@[j]
    }));
    assert(a2[j] == (Npc { relationships: a2[j].relationships, ..a1[j] }));
    assert(w3.npcs@[j] == (Npc { goal: aligned_goal(a2[j]), ..a2[j] }));
}

/// Every NPC of a world built from fresh NPCs by the three steps is consistent with it.
proof fn lemma_generated_npc_ok(w0: World, w1: World, w2: World, w3: World, limit: usize, i: int)
    requires
        w0.towns@.len() > 0,
        forall|t: int| 0 <= t < w0.towns@.len() ==> #[trigger] town_ok(w0.towns@, t),
        forall|j: int| 0 <= j < w0.npcs@.len() ==> fresh_npc(#[trigger] w0.npcs@[j], j, w0.towns@.len() as int),
        w0.active_npcs@ == active_ids(w0.npcs@),
        society_built(w0, w1, w2, w3, limit),
        0 <= i < w0.npcs@.len(),
    ensures
        npc_ok(w3, i),
{
    reveal(families_formed);
    let npcs0 = w0.npcs@;
    let a1 = w1.npcs@;
    let a2 = w2.npcs@;
    let a3 = w3.npcs@;
    let n0 = npcs0[i];
    let n3 = a3[i];
    let tc = w0.towns@.len() as int;
    assert(fresh_npc(n0, i, tc));
    lemma_society_frames(w0, w1, w2, w3, limit, i);
    assert forall|j: int| 0 <= j < npcs0.len() implies #[trigger] a3[j].id == npcs0[j].id && a3[j].alive && a3[j].in_world by {
        lemma_society_frames(w0, w1, w2, w3, limit, j);
        assert(fresh_npc(npcs0[j], j, tc));
    }
    assert forall|k: NpcId| npc_at(npcs0, k) implies npc_at(a3, k) by {
        assert(a3[k.0 as int].id == npcs0[k.0 as int].id);
    }
    // the active list
    assert forall|j: int| 0 <= j < npcs0.len() implies (#[trigger] npcs0[j]).active() by {
        assert(fresh_npc(npcs0[j], j, tc));
    }
    crate::world::lemma_active_ids_all(npcs0);
    assert(active_ids(npcs0)[i] == n0.id);
    assert(w3.active_npcs@.contains(n3.id));
    // the town
    assert(town_ok(w0.towns@, n0.town.0 as int));
    assert(town_at(w3.towns@, n3.town));
    // the values
    crate::npc::lemma_no_belief_problem_valid(n0.beliefs@, 0);
    assert(n0.goal.valid());
    assert(aligned_goal(a2[i]).valid());
    let a1i = a1[i];
    assert forall|k: NpcId| #[trigger] n3.relationships@.contains_key(k) implies n3.relationships@[k].in_range()
        && k != n3.id && npc_at(npcs0, k) by {
        if a1i.relationships@.contains_key(k) && a2[i].relationships@[k] == a1i.relationships@[k] {
            assert(tie_formed(w0.year, a1i, k));
            if a1i.partner == Some(k) {
                assert(couple_formed(w0, a1, i, k));
            } else if a1i.children@.contains(k) {
                assert(adopted(w0, i, k));
            } else {
                assert(a1i.parents@.contains(k));
                assert(npc_at(npcs0, k) && adopted(w0, k.0 as int, npcs0[i].id));
            }
        } else {
            assert(initial_friendship(w1, i, k, a2[i].relationships@[k]));
        }
    }
    assert forall|k: NpcId| #[trigger] n3.parents@.contains(k) implies npc_at(npcs0, k) && adopted(w0, k.0 as int, n0.id)
        && a1[k.0 as int].children@.contains(n0.id) by {
        assert(!n0.parents@.contains(k));
    }
    assert forall|k: NpcId| #[trigger] n3.children@.contains(k) implies adopted(w0, i, k) && a1[k.0 as int].parents@.contains(n0.id) by {
        assert(!n0.children@.contains(k));
    }
    assert(n0.parents@.no_duplicates());
    assert(n0.children@.no_duplicates());
    assert(n3.parents@.no_duplicates());
    assert(n3.children@.no_duplicates());
    assert(!n3.parents@.contains(n3.id)) by {
        if n3.parents@.contains(n3.id) {
            assert(adopted(w0, n3.id.0 as int, n0.id));
        }
    }
    assert(!n3.children@.contains(n3.id)) by {
        if n3.children@.contains(n3.id) {
            assert(adopted(w0, i, n3.id));
        }
    }
    if a1i.partner is Some {
        assert(couple_formed(w0, a1, i, a1i.partner->0));
    }
    crate::npc::lemma_validation_passes(n3);
    // the partner
    if n3.partner is Some {
        let p = n3.partner->0;
        assert(couple_formed(w0, a1, i, p));
        lemma_society_frames(w0, w1, w2, w3, limit, p.0 as int);
        let q = a3[p.0 as int];
        assert(!n3.parents@.contains(q.id));
        assert(!n3.children@.contains(q.id)) by {
            if n3.children@.contains(q.id) {
                assert(adopted(w0, i, p));
            }
        }
        assert(!q.parents@.contains(n3.id)) by {
            if q.parents@.contains(n3.id) {
                assert(a1[p.0 as int].parents@.contains(n0.id));
                assert(!npcs0[p.0 as int].parents@.contains(n0.id));
                assert(adopted(w0, n0.id.0 as int, npcs0[p.0 as int].id));
            }
        }
        assert(!q.children@.contains(n3.id)) by {
            if q.children@.contains(n3.id) {
                assert(a1[p.0 as int].children@.contains(n0.id));
                assert(!npcs0[p.0 as int].children@.contains(n0.id));
                assert(adopted(w0, p.0 as int, n0.id));
            }
        }
        assert(!(exists|k: int| 0 <= k < n3.parents@.len() && q.parents@.contains(#[trigger] n3.parents@[k]))) by {
            if exists|k: int| 0 <= k < n3.parents@.len() && q.parents@.contains(#[trigger] n3.parents@[k]) {
                let k = choose|k: int| 0 <= k < n3.parents@.len() && q.parents@.contains(#[trigger] n3.parents@[k]);
                assert(n3.parents@.contains(n3.parents@[k]));
            }
        }
    }
    // parents and children
    assert forall|k: int| 0 <= k < n3.parents@.len() implies npc_at(a3, #[trigger] n3.parents@[k])
        && a3[n3.parents@[k].0 as int].children@.contains(n3.id) by {
        let p = n3.parents@[k];
        assert(n3.parents@.contains(p));
        lemma_society_frames(w0, w1, w2, w3, limit, p.0 as int);
    }
    assert forall|k: int| 0 <= k < n3.children@.len() implies npc_at(a3, #[trigger] n3.children@[k])
        && a3[n3.children@[k].0 as int].parents@.contains(n3.id) by {
        let c = n3.children@[k];
        assert(n3.children@.contains(c));
        lemma_society_frames(w0, w1, w2, w3, limit, c.0 as int);
    }
}

/// A world built from fresh NPCs in consistent towns by the three steps is consistent.
proof fn lemma_generated_world_consistent(w0: World, w1: World, w2: World, w3: World, limit: usize)
    requires
        w0.towns@.len() > 0,
        forall|t: int| 0 <= t < w0.towns@.len() ==> #[trigger] town_ok(w0.towns@, t),
        forall|j: int| 0 <= j < w0.npcs@.len() ==> fresh_npc(#[trigger] w0.npcs@[j], j, w0.towns@.len() as int),
        w0.active_npcs@ == active_ids(w0.npcs@),
        society_built(w0, w1, w2, w3, limit),
    ensures
        world_consistent(w3),
{
    let npcs0 = w0.npcs@;
    let tc = w0.towns@.len() as int;
    assert forall|j: int| 0 <= j < npcs0.len() implies (#[trigger] npcs0[j]).active() by {
        assert(fresh_npc(npcs0[j], j, tc));
    }
    crate::world::lemma_active_ids_all(npcs0);
    reveal(families_formed);
    assert forall|j: int| 0 <= j < w3.active_npcs@.len() implies crate::world::active_entry_ok(w3.npcs@, #[trigger] w3.active_npcs@[j]) by {
        lemma_society_frames(w0, w1, w2, w3, limit, j);
        assert(fresh_npc(npcs0[j], j, tc));
    }
    assert(w3.active_npcs@.no_duplicates()) by {
        assert forall|a: int, b: int| 0 <= a < w3.active_npcs@.len() && 0 <= b < w3.active_npcs@.len() && a != b implies
            w3.active_npcs@[a] != w3.active_npcs@[b] by {
            assert(fresh_npc(npcs0[a], a, tc));
            assert(fresh_npc(npcs0[b], b, tc));
        }
    }
    assert forall|i: int| 0 <= i < w3.npcs@.len() implies #[trigger] npc_ok(w3, i) by {
        lemma_generated_npc_ok(w0, w1, w2, w3, limit, i);
    }
}

/// A whole initial world from a seed: towns, a sparse road graph, NPCs spread evenly, then
/// couples, families and friendships. An NPC's id is its index, and so is a town's. Every
/// road runs both ways over the same distance, every town can be reached from every other,
/// and there are at most `towns - 1 + towns / 3` roads. Each town can hold 110% to 150% of
/// the people it starts with (20 to 50 when it starts empty).
/// Random walks go over id-ordered lists only, so the same seed gives the same world.
/// The world is validated before it is returned.
pub fn generate_initial_world(
    town_count: usize,
    population: usize,
    seed: u64,
    max_beliefs: usize,
    max_relationships_per_npc: usize,
) -> (result: Result<World, PopulationError>)
    ensures
        town_count == 0 ==> result == Err::<World, PopulationError>(PopulationError::NoTowns),
        town_count > 0 && town_count - 1 > u16::MAX ==> result == Err::<World, PopulationError>(
            PopulationError::TooManyTowns(town_count),
        ),
        town_count > 0 && town_count - 1 <= u16::MAX && population > u32::MAX ==> result == Err::<
            World,
            PopulationError,
        >(PopulationError::TooManyNpcs(population)),
        town_count > 0 && town_count - 1 <= u16::MAX && population <= u32::MAX ==> result is Ok,
        result matches Ok(world) ==> {
            &&& world_consistent(world)
            &&& world.towns@.len() == town_count
            &&& world.npcs@.len() == population
            &&& world.year == 0
            &&& world.month == 0
            &&& world.statistics.initial_population == population
            &&& world.statistics.years@.len() == 0
            &&& roads_symmetric(world.towns@)
            &&& towns_connected(world.towns@)
            &&& connection_count(world.towns@) <= 2 * (town_count - 1) + 2 * (town_count / 3)
            &&& forall|t: int| 0 <= t < town_count ==> capacity_drawn(
                #[trigger] world.towns@[t].population_capacity,
                town_share(population, town_count, t) as usize,
            )
        },
{
    match validate_world_size(town_count, population) {
        Ok(()) => {},
        Err(error) => {
            return Err(error);
        },
    }
    let mut rng = seeded_rng(seed);
    let town_populations = balanced_town_populations(town_count, population);
    let mut towns = match generate_towns(&town_populations, &mut rng) {
        Ok(towns) => towns,
        Err(error) => {
            return Err(error);
        },
    };
    proof {
        assert forall|i: int| 0 <= i < towns@.len() implies (#[trigger] towns@[i]).id.0 == i by {}
        assert forall|i: int, k: int|
            #![trigger towns@[i].neighbors@[k]]
            0 <= i < towns@.len() && 0 <= k < towns@[i].neighbors@.len() implies road_returns(
            towns@,
            towns@[i],
            towns@[i].neighbors@[k],
        ) by {}
        lemma_no_connections(towns@);
    }
    let ghost generated = towns@;
    connect_towns(&mut towns, &mut rng);
    proof {
        assert forall|t: int| 0 <= t < towns@.len() implies #[trigger] town_ok(towns@, t) by {
            assert(towns@[t].well_formed());
            assert(towns@[t].id == generated[t].id);
            assert forall|k: int| 0 <= k < towns@[t].neighbors@.len() implies crate::world::connection_ok(
                towns@,
                towns@[t],
                #[trigger] towns@[t].neighbors@[k],
            ) by {
                let d = towns@[t].neighbors@[k].destination;
                assert(road_returns(towns@, towns@[t], towns@[t].neighbors@[k]));
                assert(towns@[d.0 as int].id == generated[d.0 as int].id);
                assert(generated[d.0 as int].id.0 == d.0);
            }
        }
    }
    let mut npcs: Vec<Npc> = Vec::new();
    let mut index: usize = 0;
    while index < population
        invariant
            index <= population <= u32::MAX,
            town_count > 0,
            town_count - 1 <= u16::MAX,
            towns@.len() == town_count,
            roads_symmetric(towns@),
            towns_connected(towns@),
            connection_count(towns@) <= 2 * (town_count - 1) + 2 * (town_count / 3),
            forall|t: int| 0 <= t < town_count ==> capacity_drawn(
                #[trigger] towns@[t].population_capacity,
                town_share(population, town_count, t) as usize,
            ),
            npcs@.len() == index,
            forall|t: int| 0 <= t < towns@.len() ==> #[trigger] town_ok(towns@, t),
            forall|j: int| 0 <= j < index ==> fresh_npc(#[trigger] npcs@[j], j, town_count as int),
        decreases population - index,
    {
        let id = NpcId(index as u32);
        let town_position = index % town_count;
        let town = TownId(town_position as u16);
        let age = sample_age(&mut rng);
        let sex = sample_sex(&mut rng);
        let attributes = sample_attributes(&mut rng);
        let beliefs = sample_initial_beliefs(&towns[town_position].culture, max_beliefs, &mut rng);
        let goal_kind = sample_goal(age, &mut rng);
        let goal = Goal::new(goal_kind, 0);
        npcs.push(Npc::with_default_name(id, age, sex, town, town, attributes, beliefs, goal));
        index = index + 1;
    }
    let mut world = World::empty(seed);
    world.towns = towns;
    world.npcs = npcs;
    world.statistics = Statistics::new(population);
    world.rebuild_active_npcs();
    let ghost w0 = world;
    initialize_partners_and_families(&mut world, &mut rng);
    let ghost w1 = world;
    initialize_friendships(&mut world, max_relationships_per_npc, &mut rng);
    let ghost w2 = world;
    align_initial_goals_with_family(&mut world);
    world.rng = rng;
    proof {
        lemma_generated_world_consistent(w0, w1, w2, world, max_relationships_per_npc);
    }
    match world.validate() {
        Ok(()) => Ok(world),
        Err(error) => Err(PopulationError::Invariant(error)),
    }
}

/// The family relationship between a newborn and each parent.
pub open spec fn family_tie(year: u64, month: u8) -> Relationship {
    Relationship::with_relation_spec(8, 9, RelationshipKind::Family, year, if month < 1 {
        1
    } else {
        month
    })
}

/// Each of `child`'s attributes is the average of the parents' (rounded down) moved by a
/// variation in `-2..=2`, within `0..=10`.
pub open spec fn attributes_inherited(parent_a: Attributes, parent_b: Attributes, child: Attributes) -> bool {
    &&& exists|v: i8| -2 <= v <= 2 && child.physical == #[trigger] inherited_attribute(parent_a.physical, parent_b.physical, v)
    &&& exists|v: i8| -2 <= v <= 2 && child.dexterity == #[trigger] inherited_attribute(parent_a.dexterity, parent_b.dexterity, v)
    &&& exists|v: i8|
        -2 <= v <= 2 && child.intelligence == #[trigger] inherited_attribute(parent_a.intelligence, parent_b.intelligence, v)
    &&& exists|v: i8| -2 <= v <= 2 && child.charisma == #[trigger] inherited_attribute(parent_a.charisma, parent_b.charisma, v)
    &&& exists|v: i8| -2 <= v <= 2 && child.willpower == #[trigger] inherited_attribute(parent_a.willpower, parent_b.willpower, v)
}

/// A newborn of two living parents in the same town, added to the world. Whether a birth
/// happens (ages, chance, crowding) is the caller's decision; this makes the child and
/// links it to both parents at once.
pub fn generate_child(
    world: &mut World,
    parent_a: NpcId,
    parent_b: NpcId,
    max_beliefs: usize,
) -> (result: Result<NpcId, PopulationError>)
    ensures
        ({
            let npcs = old(world).npcs@;
            let error = if parent_a == parent_b {
                Some(PopulationError::SameParent)
            } else if !npc_at(npcs, parent_a) {
                Some(PopulationError::InvalidNpc(parent_a))
            } else if !npc_at(npcs, parent_b) {
                Some(PopulationError::InvalidNpc(parent_b))
            } else if !npcs[parent_a.0 as int].active() {
                Some(PopulationError::InactiveParent(parent_a))
            } else if !npcs[parent_b.0 as int].active() {
                Some(PopulationError::InactiveParent(parent_b))
            } else if npcs[parent_a.0 as int].town != npcs[parent_b.0 as int].town {
                Some(PopulationError::ParentsInDifferentTowns(parent_a, parent_b))
            } else if !town_at(old(world).towns@, npcs[parent_a.0 as int].town) {
                Some(PopulationError::InvalidTown(npcs[parent_a.0 as int].town))
            } else if npcs.len() > u32::MAX {
                Some(PopulationError::TooManyNpcs((npcs.len() as usize).saturating_add(1)))
            } else {
                None
            };
            match error {
                Some(e) => result == Err::<NpcId, PopulationError>(e) && final(world).npcs@ == old(world).npcs@
                    && final(world).active_npcs@ == old(world).active_npcs@
                    && final(world).important_events@ == old(world).important_events@,
                None => {
                    let id = NpcId(npcs.len() as u32);
                    let town = npcs[parent_a.0 as int].town;
                    let tie = family_tie(old(world).year, old(world).month);
                    &&& result == Ok::<NpcId, PopulationError>(id)
                    &&& final(world).npcs@.len() == npcs.len() + 1
                    &&& final(world).active_npcs@ == old(world).active_npcs@.push(id)
                    &&& final(world).important_events@ == crate::world::logged(
                        old(world).important_events@,
                        WorldEvent::Birth { npc: id },
                    )
                    &&& final(world).towns == old(world).towns
                    &&& final(world).year == old(world).year
                    &&& final(world).month == old(world).month
                    &&& {
                        let child = final(world).npcs@[npcs.len() as int];
                        &&& child.id == id
                        &&& child.age == 0
                        &&& child.town == town
                        &&& child.hometown == town
                        &&& child.parents@ == seq![parent_a, parent_b]
                        &&& child.children@.len() == 0
                        &&& child.partner is None
                        &&& child.alive && child.in_world
                        &&& child.goal == Goal { kind: GoalKind::LivePeacefully, progress_bits: 0, since_year: old(world).year }
                        &&& child.relationships@ == Map::<NpcId, Relationship>::empty().insert(parent_a, tie).insert(parent_b, tie)
                        &&& child.attributes.in_range()
                        &&& attributes_inherited(
                            npcs[parent_a.0 as int].attributes,
                            npcs[parent_b.0 as int].attributes,
                            child.attributes,
                        )
                        &&& distinct_valid_beliefs(child.beliefs@)
                        &&& beliefs_ascending(child.beliefs@)
                        &&& child.beliefs@.len() <= max_beliefs
                        &&& child.beliefs@.len() <= MAX_BELIEFS
                        &&& max_beliefs == 0 ==> child.beliefs@.len() == 0
                        &&& max_beliefs == 1 ==> child.beliefs@.len() == 1
                        &&& max_beliefs >= 2 ==> child.beliefs@.len() >= 2
                    }
                    &&& forall|i: int| 0 <= i < npcs.len() && i != parent_a.0 && i != parent_b.0 ==> #[trigger] final(world).npcs@[i] == npcs[i]
                    &&& forall|p: NpcId| #![trigger final(world).npcs@[p.0 as int]] (p == parent_a || p == parent_b) ==> {
                        let before = npcs[p.0 as int];
                        let after = final(world).npcs@[p.0 as int];
                        &&& after == (Npc { children: after.children, relationships: after.relationships, ..before })
                        &&& after.children@ == (if before.children@.contains(id) {
                            before.children@
                        } else {
                            before.children@.push(id)
                        })
                        &&& after.relationships@ == before.relationships@.insert(id, tie)
                    }
                },
            }
        }),
{
    if parent_a == parent_b {
        return Err(PopulationError::SameParent);
    }
    let a = match world.npc(parent_a) {
        Some(npc) => npc,
        None => {
            return Err(PopulationError::InvalidNpc(parent_a));
        },
    };
    let b = match world.npc(parent_b) {
        Some(npc) => npc,
        None => {
            return Err(PopulationError::InvalidNpc(parent_b));
        },
    };
    if !a.is_active() {
        return Err(PopulationError::InactiveParent(parent_a));
    }
    if !b.is_active() {
        return Err(PopulationError::InactiveParent(parent_b));
    }
    if a.town != b.town {
        return Err(PopulationError::ParentsInDifferentTowns(parent_a, parent_b));
    }
    let town = a.town;
    let attributes_a = a.attributes;
    let attributes_b = b.attributes;
    let beliefs_a = copy_beliefs(&a.beliefs);
    let beliefs_b = copy_beliefs(&b.beliefs);
    let culture = match world.town(town) {
        Some(found) => copy_beliefs(&found.culture),
        None => {
            return Err(PopulationError::InvalidTown(town));
        },
    };
    let id = match next_npc_id(world.npcs.len()) {
        Ok(id) => id,
        Err(error) => {
            return Err(error);
        },
    };
    let variation: [i8; 5] = [
        random_i8_between(&mut world.rng, -2, 2),
        random_i8_between(&mut world.rng, -2, 2),
        random_i8_between(&mut world.rng, -2, 2),
        random_i8_between(&mut world.rng, -2, 2),
        random_i8_between(&mut world.rng, -2, 2),
    ];
    let attributes = Attributes::average_with_variation(&attributes_a, &attributes_b, variation);
    let beliefs = sample_child_beliefs(&beliefs_a, &beliefs_b, &culture, max_beliefs, &mut world.rng);
    let ghost sampled = beliefs@;
    let sex = sample_sex(&mut world.rng);
    let year = world.year;
    let month: u8 = if world.month < 1 {
        1
    } else {
        world.month
    };
    let mut child = Npc::with_default_name(
        id,
        0,
        sex,
        town,
        town,
        attributes,
        beliefs,
        Goal::new(GoalKind::LivePeacefully, year),
    );
    child.add_parent(parent_a);
    child.add_parent(parent_b);
    let tie = Relationship::with_relation(8, 9, RelationshipKind::Family, year, month);
    child.set_relationship(parent_a, tie);
    child.set_relationship(parent_b, tie);
    let ghost before = world.npcs@;
    world.npcs.push(child);
    world.active_npcs.push(id);
    match world.npc_mut(parent_a) {
        Some(npc) => {
            npc.add_child(id);
            npc.set_relationship(id, tie);
        },
        None => {},
    }
    match world.npc_mut(parent_b) {
        Some(npc) => {
            npc.add_child(id);
            npc.set_relationship(id, tie);
        },
        None => {},
    }
    world.push_event(WorldEvent::Birth { npc: id });
    proof {
        assert(tie.normalized() == tie);
        let child_now = world.npcs@[before.len() as int];
        assert(child_now.parents@ =~= seq![parent_a, parent_b]);
        assert(child_now.relationships@ == Map::<NpcId, Relationship>::empty().insert(parent_a, tie).insert(parent_b, tie));
        crate::npc::lemma_normalized_is_normal(sampled);
        lemma_distinct_beliefs_normal(sampled);
        assert(attributes.normalized() == attributes);
        let v = variation@;
        assert(inherited_attribute(attributes_a.physical, attributes_b.physical, v[0]) == attributes.physical);
        assert(inherited_attribute(attributes_a.dexterity, attributes_b.dexterity, v[1]) == attributes.dexterity);
        assert(inherited_attribute(attributes_a.intelligence, attributes_b.intelligence, v[2]) == attributes.intelligence);
        assert(inherited_attribute(attributes_a.charisma, attributes_b.charisma, v[3]) == attributes.charisma);
        assert(inherited_attribute(attributes_a.willpower, attributes_b.willpower, v[4]) == attributes.willpower);
    }
    Ok(id)
}

fn copy_beliefs(beliefs: &Vec<Belief>) -> (copy: Vec<Belief>)
    ensures
        copy@ == beliefs@,
{
    let mut copy: Vec<Belief> = Vec::new();
    let mut i: usize = 0;
    while i < beliefs.len()
        invariant
            i <= beliefs@.len(),
            copy@ == beliefs@.take(i as int),
        decreases beliefs.len() - i,
    {
        copy.push(beliefs[i]);
        proof {
            assert(beliefs@.take(i + 1) =~= beliefs@.take(i as int).push(beliefs@[i as int]));
        }
        i = i + 1;
    }
    proof {
        assert(beliefs@.take(beliefs@.len() as int) =~= beliefs@);
    }
    copy
}

/// The goals an arrival from outside may bring.
pub open spec fn immigrant_goals() -> Seq<GoalKind> {
    seq![GoalKind::GainWealth, GoalKind::MoveToBetterTown, GoalKind::LivePeacefully, GoalKind::BecomeSkilled]
}

/// A new NPC arriving from outside into `destination`, added to the world and logged.
pub fn generate_external_immigrant(world: &mut World, destination: TownId, max_beliefs: usize) -> (result: Result<NpcId, PopulationError>)
    ensures
        !town_at(old(world).towns@, destination) ==> result == Err::<NpcId, PopulationError>(
            PopulationError::InvalidTown(destination),
        ) && final(world).npcs@ == old(world).npcs@,
        town_at(old(world).towns@, destination) && old(world).npcs@.len() > u32::MAX ==> result == Err::<
            NpcId,
            PopulationError,
        >(PopulationError::TooManyNpcs((old(world).npcs@.len() as usize).saturating_add(1))) && final(world).npcs@
            == old(world).npcs@,
        town_at(old(world).towns@, destination) && old(world).npcs@.len() <= u32::MAX ==> {
            let id = NpcId(old(world).npcs@.len() as u32);
            let npc = final(world).npcs@[old(world).npcs@.len() as int];
            &&& result == Ok::<NpcId, PopulationError>(id)
            &&& final(world).npcs@ == old(world).npcs@.push(npc)
            &&& final(world).active_npcs@ == old(world).active_npcs@.push(id)
            &&& final(world).important_events@ == crate::world::logged(
                old(world).important_events@,
                WorldEvent::ExternalImmigration { npc: id, to: destination },
            )
            &&& npc.id == id
            &&& 18 <= npc.age <= 75
            &&& npc.town == destination
            &&& npc.hometown == destination
            &&& npc.active()
            &&& immigrant_goals().contains(npc.goal.kind)
            &&& npc.goal.since_year == old(world).year
            &&& npc.relationships@ == Map::<NpcId, Relationship>::empty()
            &&& npc.validation_error() is None
            &&& final(world).towns == old(world).towns
        },
{
    let culture = match world.town(destination) {
        Some(town) => copy_beliefs(&town.culture),
        None => {
            return Err(PopulationError::InvalidTown(destination));
        },
    };
    let id = match next_npc_id(world.npcs.len()) {
        Ok(id) => id,
        Err(error) => {
            return Err(error);
        },
    };
    let age = sample_migrant_age(&mut world.rng);
    let beliefs = sample_initial_beliefs(&culture, max_beliefs, &mut world.rng);
    let options = vec![GoalKind::GainWealth, GoalKind::MoveToBetterTown, GoalKind::LivePeacefully, GoalKind::BecomeSkilled];
    let goal = options[random_usize_below(&mut world.rng, 0, options.len())];
    proof {
        assert(options@ =~= immigrant_goals());
    }
    let sex = sample_sex(&mut world.rng);
    let attributes = sample_attributes(&mut world.rng);
    let npc = Npc::with_default_name(id, age, sex, destination, destination, attributes, beliefs, Goal::new(goal, world.year));
    world.npcs.push(npc);
    world.active_npcs.push(id);
    world.push_event(WorldEvent::ExternalImmigration { npc: id, to: destination });
    Ok(id)
}

} // verus!
