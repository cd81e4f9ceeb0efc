use vstd::prelude::*;

use crate::economy::{Good, Inventory, Money};
use crate::belief::{as_signed_byte, adjusted_strength, clamp_int, clamped_strength, Belief, BeliefKind, MAX_BELIEFS};
use crate::goal::{clamped_progress_bits, Goal, GoalKind, MIN_GOAL_PROGRESS_BITS};
use crate::id::{NpcId, TownId};
use crate::relationship::{clamped_month, clamped_value, Relationship, RelationshipKind, NEUTRAL_RELATION};
use crate::relationship_map::RelationshipMap;
use crate::text::{append_padded, decimal, padded_left};
use vstd::string::StringExecFns;

verus! {

pub const MIN_ATTRIBUTE: u8 = 0;
pub const MAX_ATTRIBUTE: u8 = 10;
pub const ADULT_AGE: u8 = 18;

#[derive(Clone, Copy, Debug, Default, PartialEq, Eq, Hash, Structural)]
pub enum Sex {
    #[default]
    Male,
    Female,
}

#[derive(Clone, Copy, Debug, Default, PartialEq, Eq, Hash, Structural)]
pub enum NpcState {
    #[default]
    Normal,
    Sick,
    Evacuating,
}

pub open spec fn clamped_attribute(value: u8) -> u8 {
    if value > MAX_ATTRIBUTE {
        MAX_ATTRIBUTE
    } else {
        value
    }
}

pub fn clamp_attribute(value: u8) -> (clamped: u8)
    ensures
        clamped == clamped_attribute(value),
{
    if value > MAX_ATTRIBUTE {
        MAX_ATTRIBUTE
    } else {
        value
    }
}

/// A child's value: the parents' average (rounded down) plus the variation, kept in `0..=10`.
pub open spec fn inherited_attribute(parent_a: u8, parent_b: u8, variation: i8) -> u8 {
    clamp_int((parent_a + parent_b) / 2 + variation, 0, 10) as u8
}

fn average_attribute(parent_a: u8, parent_b: u8, variation: i8) -> (value: u8)
    ensures
        value == inherited_attribute(parent_a, parent_b, variation),
{
    let average: i16 = (parent_a as i16 + parent_b as i16) / 2;
    let shifted: i16 = average + variation as i16;
    if shifted < MIN_ATTRIBUTE as i16 {
        MIN_ATTRIBUTE
    } else if shifted > MAX_ATTRIBUTE as i16 {
        MAX_ATTRIBUTE
    } else {
        shifted as u8
    }
}

/// An NPC's basic abilities, each within `0..=10`.
#[derive(Clone, Copy, Debug, PartialEq, Eq, Hash, Structural)]
pub struct Attributes {
    pub physical: u8,
    pub dexterity: u8,
    pub intelligence: u8,
    pub charisma: u8,
    pub willpower: u8,
}

impl Attributes {
    pub open spec fn in_range(&self) -> bool {
        &&& self.physical <= MAX_ATTRIBUTE
        &&& self.dexterity <= MAX_ATTRIBUTE
        &&& self.intelligence <= MAX_ATTRIBUTE
        &&& self.charisma <= MAX_ATTRIBUTE
        &&& self.willpower <= MAX_ATTRIBUTE
    }

    pub open spec fn normalized(self) -> Attributes {
        Attributes {
            physical: clamped_attribute(self.physical),
            dexterity: clamped_attribute(self.dexterity),
            intelligence: clamped_attribute(self.intelligence),
            charisma: clamped_attribute(self.charisma),
            willpower: clamped_attribute(self.willpower),
        }
    }

    pub fn new(physical: u8, dexterity: u8, intelligence: u8, charisma: u8, willpower: u8) -> (attributes: Self)
        ensures
            attributes == (Attributes { physical, dexterity, intelligence, charisma, willpower }).normalized(),
    {
        Attributes {
            physical: clamp_attribute(physical),
            dexterity: clamp_attribute(dexterity),
            intelligence: clamp_attribute(intelligence),
            charisma: clamp_attribute(charisma),
            willpower: clamp_attribute(willpower),
        }
    }

    pub fn uniform(value: u8) -> (attributes: Self)
        ensures
            attributes == (Attributes {
                physical: value,
                dexterity: value,
                intelligence: value,
                charisma: value,
                willpower: value,
            }).normalized(),
    {
        let value = clamp_attribute(value);
        Self::new(value, value, value, value, value)
    }

    /// A child's abilities: each the parents' average plus its variation, kept in range
    /// whatever the variation (normally within `-2..=2`).
    pub fn average_with_variation(parent_a: &Self, parent_b: &Self, variation: [i8; 5]) -> (child: Self)
        ensures
            child == (Attributes {
                physical: inherited_attribute(parent_a.physical, parent_b.physical, variation@[0]),
                dexterity: inherited_attribute(parent_a.dexterity, parent_b.dexterity, variation@[1]),
                intelligence: inherited_attribute(parent_a.intelligence, parent_b.intelligence, variation@[2]),
                charisma: inherited_attribute(parent_a.charisma, parent_b.charisma, variation@[3]),
                willpower: inherited_attribute(parent_a.willpower, parent_b.willpower, variation@[4]),
            }),
            child.in_range(),
    {
        Attributes {
            physical: average_attribute(parent_a.physical, parent_b.physical, variation[0]),
            dexterity: average_attribute(parent_a.dexterity, parent_b.dexterity, variation[1]),
            intelligence: average_attribute(parent_a.intelligence, parent_b.intelligence, variation[2]),
            charisma: average_attribute(parent_a.charisma, parent_b.charisma, variation[3]),
            willpower: average_attribute(parent_a.willpower, parent_b.willpower, variation[4]),
        }
    }

    pub fn values_in_range(&self) -> (in_range: bool)
        ensures
            in_range == self.in_range(),
    {
        self.physical <= MAX_ATTRIBUTE && self.dexterity <= MAX_ATTRIBUTE && self.intelligence
            <= MAX_ATTRIBUTE && self.charisma <= MAX_ATTRIBUTE && self.willpower <= MAX_ATTRIBUTE
    }

    pub fn normalize(&mut self)
        ensures
            *final(self) == old(self).normalized(),
            final(self).in_range(),
    {
        self.physical = clamp_attribute(self.physical);
        self.dexterity = clamp_attribute(self.dexterity);
        self.intelligence = clamp_attribute(self.intelligence);
        self.charisma = clamp_attribute(self.charisma);
        self.willpower = clamp_attribute(self.willpower);
    }
}

impl Default for Attributes {
    fn default() -> (attributes: Self)
        ensures
            attributes == (Attributes {
                physical: 5,
                dexterity: 5,
                intelligence: 5,
                charisma: 5,
                willpower: 5,
            }),
    {
        Self::uniform(5)
    }
}

/// A broken invariant that can be seen from one NPC alone. Links to other NPCs and the
/// existence of towns are checked by the world.
#[derive(Clone, Copy, Debug, PartialEq, Eq, Structural)]
pub enum NpcInvariantError {
    AttributeOutOfRange,
    BeliefOutOfRange { kind: BeliefKind },
    TooManyBeliefs { count: usize },
    DuplicateBelief { kind: BeliefKind },
    GoalProgressOutOfRange,
    SelfRelationship,
    RelationshipValueOutOfRange { other: NpcId },
    SelfParent,
    DuplicateParent { parent: NpcId },
    SelfChild,
    DuplicateChild { child: NpcId },
    SelfPartner,
    DeadNpcMarkedInWorld,
}

// ---------------------------------------------------------------- beliefs

pub open spec fn holds_kind(beliefs: Seq<Belief>, kind: BeliefKind) -> bool {
    exists|i: int| 0 <= i < beliefs.len() && (#[trigger] beliefs[i]).kind == kind
}

/// `index` is the first belief of `kind`.
pub open spec fn first_of_kind(beliefs: Seq<Belief>, kind: BeliefKind, index: int) -> bool {
    &&& 0 <= index < beliefs.len()
    &&& beliefs[index].kind == kind
    &&& forall|j: int| 0 <= j < index ==> (#[trigger] beliefs[j]).kind != kind
}

/// No two beliefs of the same kind.
pub open spec fn distinct_kinds(beliefs: Seq<Belief>) -> bool {
    forall|i: int, j: int| 0 <= i < j < beliefs.len() ==> (#[trigger] beliefs[i]).kind != (#[trigger] beliefs[j]).kind
}

/// The strength of the first belief of `kind`, zero without one.
pub open spec fn strength_of(beliefs: Seq<Belief>, kind: BeliefKind) -> u8 {
    if holds_kind(beliefs, kind) {
        beliefs[choose|i: int| first_of_kind(beliefs, kind, i)].strength
    } else {
        0
    }
}

pub open spec fn max_u8(a: u8, b: u8) -> u8 {
    if a >= b {
        a
    } else {
        b
    }
}

/// One step of belief normalization: the belief is clamped; a kind already present keeps
/// the stronger strength; a new kind is added while there are fewer than three.
pub open spec fn belief_step(accepted: Seq<Belief>, belief: Belief) -> Seq<Belief> {
    let clamped = Belief { kind: belief.kind, strength: clamped_strength(belief.strength) };
    if holds_kind(accepted, belief.kind) {
        let i = choose|i: int| first_of_kind(accepted, belief.kind, i);
        accepted.update(
            i,
            Belief { kind: belief.kind, strength: max_u8(accepted[i].strength, clamped.strength) },
        )
    } else if accepted.len() < MAX_BELIEFS {
        accepted.push(clamped)
    } else {
        accepted
    }
}

/// The normal form of a belief list: beliefs taken in order through `belief_step`.
pub open spec fn normalized_beliefs(beliefs: Seq<Belief>) -> Seq<Belief>
    decreases beliefs.len(),
{
    if beliefs.len() == 0 {
        Seq::empty()
    } else {
        belief_step(normalized_beliefs(beliefs.drop_last()), beliefs.last())
    }
}

/// A belief list in normal form: at most three, each valid, each kind once.
pub open spec fn beliefs_normal(beliefs: Seq<Belief>) -> bool {
    &&& beliefs.len() <= MAX_BELIEFS
    &&& distinct_kinds(beliefs)
    &&& forall|i: int| 0 <= i < beliefs.len() ==> (#[trigger] beliefs[i]).valid()
}

pub proof fn lemma_first_of_kind_unique(beliefs: Seq<Belief>, kind: BeliefKind, i: int)
    requires
        first_of_kind(beliefs, kind, i),
    ensures
        (choose|j: int| first_of_kind(beliefs, kind, j)) == i,
{
    let j = choose|j: int| first_of_kind(beliefs, kind, j);
    assert(first_of_kind(beliefs, kind, j));
    if j < i {
        assert(beliefs[j].kind != kind);
    } else if j > i {
        assert(beliefs[i].kind != kind);
    }
}

proof fn lemma_step_keeps_normal(accepted: Seq<Belief>, belief: Belief)
    requires
        beliefs_normal(accepted),
    ensures
        beliefs_normal(belief_step(accepted, belief)),
{
    let next = belief_step(accepted, belief);
    if holds_kind(accepted, belief.kind) {
        let i = choose|i: int| first_of_kind(accepted, belief.kind, i);
        let k = choose|k: int| 0 <= k < accepted.len() && (#[trigger] accepted[k]).kind == belief.kind;
        assert(first_of_kind(accepted, belief.kind, k)) by {
            assert forall|j: int| 0 <= j < k implies (#[trigger] accepted[j]).kind != belief.kind by {
                assert(accepted[j].kind != accepted[k].kind);
            }
        }
        assert(accepted[i].kind == belief.kind);
        assert(distinct_kinds(next)) by {
            assert forall|a: int, b: int| 0 <= a < b < next.len() implies (#[trigger] next[a]).kind
                != (#[trigger] next[b]).kind by {
                assert(next[a].kind == accepted[a].kind);
                assert(next[b].kind == accepted[b].kind);
            }
        }
    } else if accepted.len() < MAX_BELIEFS {
        assert(distinct_kinds(next)) by {
            assert forall|a: int, b: int| 0 <= a < b < next.len() implies (#[trigger] next[a]).kind
                != (#[trigger] next[b]).kind by {
                if b == accepted.len() {
                    assert(next[a] == accepted[a]);
                    if accepted[a].kind == belief.kind {
                        assert(holds_kind(accepted, belief.kind));
                    }
                }
            }
        }
    }
}

/// The normal form of any belief list is normal: at most three, valid, kinds distinct.
pub proof fn lemma_normalized_is_normal(beliefs: Seq<Belief>)
    ensures
        beliefs_normal(normalized_beliefs(beliefs)),
    decreases beliefs.len(),
{
    if beliefs.len() > 0 {
        lemma_normalized_is_normal(beliefs.drop_last());
        lemma_step_keeps_normal(normalized_beliefs(beliefs.drop_last()), beliefs.last());
    }
}

proof fn lemma_holds_kind_push(beliefs: Seq<Belief>, belief: Belief, kind: BeliefKind)
    ensures
        holds_kind(beliefs.push(belief), kind) == (holds_kind(beliefs, kind) || belief.kind == kind),
{
    if holds_kind(beliefs, kind) {
        let w = choose|w: int| 0 <= w < beliefs.len() && (#[trigger] beliefs[w]).kind == kind;
        assert(beliefs.push(belief)[w] == beliefs[w]);
    }
    if belief.kind == kind {
        assert(beliefs.push(belief)[beliefs.len() as int] == belief);
    }
    if holds_kind(beliefs.push(belief), kind) {
        let w = choose|w: int| 0 <= w < beliefs.push(belief).len() && (#[trigger] beliefs.push(belief)[w]).kind == kind;
        if w < beliefs.len() {
            assert(beliefs[w] == beliefs.push(belief)[w]);
        }
    }
}

/// The first belief of `kind`, by index.
fn find_belief(beliefs: &Vec<Belief>, kind: BeliefKind) -> (index: Option<usize>)
    ensures
        index matches Some(i) ==> first_of_kind(beliefs@, kind, i as int),
        index is None ==> !holds_kind(beliefs@, kind),
{
    let mut i: usize = 0;
    while i < beliefs.len()
        invariant
            i <= beliefs@.len(),
            forall|j: int| 0 <= j < i ==> (#[trigger] beliefs@[j]).kind != kind,
        decreases beliefs.len() - i,
    {
        if beliefs[i].kind == kind {
            return Some(i);
        }
        i = i + 1;
    }
    None
}

/// Brings a belief list into its normal form.
pub fn normalize_beliefs(beliefs: &mut Vec<Belief>)
    ensures
        final(beliefs)@ == normalized_beliefs(old(beliefs)@),
        beliefs_normal(final(beliefs)@),
{
    let mut normalized: Vec<Belief> = Vec::new();
    let mut i: usize = 0;
    while i < beliefs.len()
        invariant
            i <= beliefs@.len(),
            normalized@ == normalized_beliefs(beliefs@.take(i as int)),
            beliefs_normal(normalized@),
        decreases beliefs.len() - i,
    {
        let ghost before = normalized@;
        let mut belief = beliefs[i];
        belief.normalize();
        match find_belief(&normalized, belief.kind) {
            Some(k) => {
                proof {
                    lemma_first_of_kind_unique(before, belief.kind, k as int);
                }
                let existing = normalized[k];
                let strength: u8 = if existing.strength >= belief.strength {
                    existing.strength
                } else {
                    belief.strength
                };
                normalized.set(k, Belief { kind: belief.kind, strength });
            },
            None => {
                if normalized.len() < MAX_BELIEFS {
                    normalized.push(belief);
                }
            },
        }
        proof {
            assert(beliefs@.take(i + 1).drop_last() =~= beliefs@.take(i as int));
            assert(beliefs@.take(i + 1).last() == beliefs@[i as int]);
            lemma_step_keeps_normal(before, beliefs@[i as int]);
        }
        i = i + 1;
    }
    proof {
        assert(beliefs@.take(beliefs@.len() as int) =~= beliefs@);
    }
    *beliefs = normalized;
}

// ---------------------------------------------------------------- relatives

/// The list with the owner and repeated ids dropped, first occurrences kept in order.
pub open spec fn normalized_relatives(owner: NpcId, relatives: Seq<NpcId>) -> Seq<NpcId>
    decreases relatives.len(),
{
    if relatives.len() == 0 {
        Seq::empty()
    } else {
        let kept = normalized_relatives(owner, relatives.drop_last());
        let last = relatives.last();
        if last == owner || kept.contains(last) {
            kept
        } else {
            kept.push(last)
        }
    }
}

/// Neither the owner nor any id twice.
pub open spec fn relatives_valid(owner: NpcId, relatives: Seq<NpcId>) -> bool {
    &&& !relatives.contains(owner)
    &&& relatives.no_duplicates()
}

/// The first problem in a relative list, scanning from `index`: the owner itself (true),
/// or an id seen before (false), with its position.
pub open spec fn relative_problem_from(owner: NpcId, relatives: Seq<NpcId>, index: int) -> Option<(int, bool)>
    decreases relatives.len() - index,
{
    if index < 0 || index >= relatives.len() {
        None
    } else if relatives[index] == owner {
        Some((index, true))
    } else if relatives.take(index).contains(relatives[index]) {
        Some((index, false))
    } else {
        relative_problem_from(owner, relatives, index + 1)
    }
}

proof fn lemma_normalized_relatives_valid(owner: NpcId, relatives: Seq<NpcId>)
    ensures
        relatives_valid(owner, normalized_relatives(owner, relatives)),
        forall|x: NpcId| #[trigger] normalized_relatives(owner, relatives).contains(x) <==> (relatives.contains(x)
            && x != owner),
    decreases relatives.len(),
{
    broadcast use vstd::seq_lib::group_seq_properties;
    if relatives.len() > 0 {
        lemma_normalized_relatives_valid(owner, relatives.drop_last());
        let kept = normalized_relatives(owner, relatives.drop_last());
        assert(relatives.drop_last().push(relatives.last()) =~= relatives);
        assert forall|x: NpcId| #[trigger] normalized_relatives(owner, relatives).contains(x) <==> (relatives.contains(x)
            && x != owner) by {
            if relatives.contains(x) {
                let k = choose|k: int| 0 <= k < relatives.len() && relatives[k] == x;
                if k < relatives.len() - 1 {
                    assert(relatives.drop_last()[k] == x);
                }
            }
        }
        if !(relatives.last() == owner || kept.contains(relatives.last())) {
            assert(kept.push(relatives.last()).no_duplicates()) by {
                assert forall|i: int, j: int| 0 <= i < kept.len() + 1 && 0 <= j < kept.len() + 1 && i != j implies kept.push(
                    relatives.last(),
                )[i] != kept.push(relatives.last())[j] by {
                    if i == kept.len() {
                        assert(kept[j] != relatives.last());
                    } else if j == kept.len() {
                        assert(kept[i] != relatives.last());
                    }
                }
            }
        }
    }
}

fn contains_npc_id(ids: &Vec<NpcId>, id: NpcId) -> (found: bool)
    ensures
        found == ids@.contains(id),
{
    let mut i: usize = 0;
    while i < ids.len()
        invariant
            i <= ids@.len(),
            forall|j: int| 0 <= j < i ==> (#[trigger] ids@[j]) != id,
        decreases ids.len() - i,
    {
        if ids[i] == id {
            return true;
        }
        i = i + 1;
    }
    false
}

fn normalize_relatives(owner: NpcId, relatives: &mut Vec<NpcId>)
    ensures
        final(relatives)@ == normalized_relatives(owner, old(relatives)@),
        relatives_valid(owner, final(relatives)@),
{
    let mut kept: Vec<NpcId> = Vec::new();
    let mut i: usize = 0;
    while i < relatives.len()
        invariant
            i <= relatives@.len(),
            kept@ == normalized_relatives(owner, relatives@.take(i as int)),
        decreases relatives.len() - i,
    {
        let relative = relatives[i];
        if relative != owner && !contains_npc_id(&kept, relative) {
            kept.push(relative);
        }
        proof {
            assert(relatives@.take(i + 1).drop_last() =~= relatives@.take(i as int));
        }
        i = i + 1;
    }
    proof {
        assert(relatives@.take(relatives@.len() as int) =~= relatives@);
        lemma_normalized_relatives_valid(owner, relatives@);
    }
    *relatives = kept;
}

fn add_unique_relative(owner: NpcId, relatives: &mut Vec<NpcId>, relative: NpcId) -> (added: bool)
    ensures
        added == (owner != relative && !old(relatives)@.contains(relative)),
        added ==> final(relatives)@ == old(relatives)@.push(relative),
        !added ==> final(relatives)@ == old(relatives)@,
{
    if owner == relative || contains_npc_id(relatives, relative) {
        return false;
    }
    relatives.push(relative);
    true
}

/// Keeps every id but `relative`.
pub open spec fn other_than(relative: NpcId) -> spec_fn(NpcId) -> bool {
    |candidate: NpcId| candidate != relative
}

fn remove_relative(relatives: &mut Vec<NpcId>, relative: NpcId) -> (removed: bool)
    ensures
        final(relatives)@ == old(relatives)@.filter(other_than(relative)),
        removed == old(relatives)@.contains(relative),
{
    let mut kept: Vec<NpcId> = Vec::new();
    let mut i: usize = 0;
    while i < relatives.len()
        invariant
            i <= relatives@.len(),
            kept@ == relatives@.take(i as int).filter(other_than(relative)),
            kept@.len() <= i,
            (kept@.len() == i) <==> !relatives@.take(i as int).contains(relative),
        decreases relatives.len() - i,
    {
        proof {
            broadcast use vstd::seq_lib::group_seq_properties;
            assert(relatives@.take(i + 1) =~= relatives@.take(i as int).push(relatives@[i as int]));
            relatives@.take(i as int).lemma_filter_push(relatives@[i as int], other_than(relative));
        }
        if relatives[i] != relative {
            kept.push(relatives[i]);
        }
        i = i + 1;
    }
    proof {
        assert(relatives@.take(relatives@.len() as int) =~= relatives@);
    }
    let removed = kept.len() != relatives.len();
    *relatives = kept;
    removed
}

fn relative_problem(owner: NpcId, relatives: &Vec<NpcId>) -> (problem: Option<(usize, bool)>)
    ensures
        match problem {
            Some((i, is_owner)) => relative_problem_from(owner, relatives@, 0) == Some((i as int, is_owner))
                && i < relatives@.len(),
            None => relative_problem_from(owner, relatives@, 0) is None,
        },
{
    let mut i: usize = 0;
    while i < relatives.len()
        invariant
            i <= relatives@.len(),
            relative_problem_from(owner, relatives@, 0) == relative_problem_from(owner, relatives@, i as int),
        decreases relatives.len() - i,
    {
        let relative = relatives[i];
        if relative == owner {
            return Some((i, true));
        }
        let mut j: usize = 0;
        let mut seen = false;
        while j < i
            invariant
                j <= i < relatives@.len(),
                seen == relatives@.take(j as int).contains(relative),
            decreases i - j,
        {
            proof {
                broadcast use vstd::seq_lib::group_seq_properties;
                assert(relatives@.take(j + 1) =~= relatives@.take(j as int).push(relatives@[j as int]));
            }
            if relatives[j] == relative {
                seen = true;
            }
            j = j + 1;
        }
        if seen {
            return Some((i, false));
        }
        i = i + 1;
    }
    None
}

// ---------------------------------------------------------------- validation

/// The first belief problem from `index` on: a strength out of range, or a kind seen before.
pub open spec fn belief_problem_from(beliefs: Seq<Belief>, index: int) -> Option<NpcInvariantError>
    decreases beliefs.len() - index,
{
    if index < 0 || index >= beliefs.len() {
        None
    } else if !beliefs[index].valid() {
        Some(NpcInvariantError::BeliefOutOfRange { kind: beliefs[index].kind })
    } else if holds_kind(beliefs.take(index), beliefs[index].kind) {
        Some(NpcInvariantError::DuplicateBelief { kind: beliefs[index].kind })
    } else {
        belief_problem_from(beliefs, index + 1)
    }
}

/// The first related NPC, in ascending id order from `index` on, whose relationship is out
/// of range.
pub open spec fn first_out_of_range(keys: Seq<NpcId>, relationships: Map<NpcId, Relationship>, index: int) -> Option<NpcId>
    decreases keys.len() - index,
{
    if index < 0 || index >= keys.len() {
        None
    } else if !relationships[keys[index]].in_range() {
        Some(keys[index])
    } else {
        first_out_of_range(keys, relationships, index + 1)
    }
}

/// The error for the first problem of a relative list, if any.
pub open spec fn relative_error(
    owner: NpcId,
    relatives: Seq<NpcId>,
    self_error: NpcInvariantError,
    parents: bool,
) -> Option<NpcInvariantError> {
    match relative_problem_from(owner, relatives, 0) {
        Some((_, true)) => Some(self_error),
        Some((i, false)) => Some(
            if parents {
                NpcInvariantError::DuplicateParent { parent: relatives[i] }
            } else {
                NpcInvariantError::DuplicateChild { child: relatives[i] }
            },
        ),
        None => None,
    }
}

proof fn lemma_normal_beliefs_have_no_problem(beliefs: Seq<Belief>, index: int)
    requires
        beliefs_normal(beliefs),
        0 <= index,
    ensures
        belief_problem_from(beliefs, index) is None,
    decreases beliefs.len() - index,
{
    if index < beliefs.len() {
        assert(beliefs[index].valid());
        if holds_kind(beliefs.take(index), beliefs[index].kind) {
            let j = choose|j: int| 0 <= j < beliefs.take(index).len() && (#[trigger] beliefs.take(index)[j]).kind
                == beliefs[index].kind;
            assert(beliefs[j].kind != beliefs[index].kind);
        }
        lemma_normal_beliefs_have_no_problem(beliefs, index + 1);
    }
}

proof fn lemma_valid_relatives_have_no_problem(owner: NpcId, relatives: Seq<NpcId>, index: int)
    requires
        relatives_valid(owner, relatives),
        0 <= index,
    ensures
        relative_problem_from(owner, relatives, index) is None,
    decreases relatives.len() - index,
{
    if index < relatives.len() {
        assert(relatives[index] != owner) by {
            if relatives[index] == owner {
                assert(relatives.contains(owner));
            }
        }
        if relatives.take(index).contains(relatives[index]) {
            let j = choose|j: int| 0 <= j < relatives.take(index).len() && relatives.take(index)[j] == relatives[index];
            assert(relatives[j] == relatives[index]);
        }
        lemma_valid_relatives_have_no_problem(owner, relatives, index + 1);
    }
}

proof fn lemma_in_range_has_no_problem(keys: Seq<NpcId>, relationships: Map<NpcId, Relationship>, index: int)
    requires
        forall|k: NpcId| #[trigger] relationships.contains_key(k) ==> relationships[k].in_range(),
        forall|i: int| 0 <= i < keys.len() ==> relationships.contains_key(#[trigger] keys[i]),
        0 <= index,
    ensures
        first_out_of_range(keys, relationships, index) is None,
    decreases keys.len() - index,
{
    if index < keys.len() {
        assert(relationships.contains_key(keys[index]));
        lemma_in_range_has_no_problem(keys, relationships, index + 1);
    }
}

/// Beliefs without a problem from `index` on are valid from there on.
pub proof fn lemma_no_belief_problem_valid(beliefs: Seq<Belief>, index: int)
    requires
        0 <= index,
        belief_problem_from(beliefs, index) is None,
    ensures
        forall|j: int| index <= j < beliefs.len() ==> (#[trigger] beliefs[j]).valid(),
    decreases beliefs.len() - index,
{
    if index < beliefs.len() {
        lemma_no_belief_problem_valid(beliefs, index + 1);
    }
}

/// Relatives that repeat nobody and leave the owner out have no problem.
pub proof fn lemma_distinct_relatives_fine(owner: NpcId, relatives: Seq<NpcId>, index: int)
    requires
        0 <= index,
        relatives.no_duplicates(),
        !relatives.contains(owner),
    ensures
        relative_problem_from(owner, relatives, index) is None,
    decreases relatives.len() - index,
{
    if index < relatives.len() {
        assert(relatives[index] != owner) by {
            if relatives[index] == owner {
                assert(relatives.contains(owner));
            }
        }
        if relatives.take(index).contains(relatives[index]) {
            let k = choose|k: int| 0 <= k < relatives.take(index).len() && relatives.take(index)[k] == relatives[index];
            assert(relatives[k] == relatives[index]);
        }
        lemma_distinct_relatives_fine(owner, relatives, index + 1);
    }
}

/// An NPC passes its own checks when its attributes, beliefs and goal are in order, its
/// relationships are in range and not with itself, its relatives repeat nobody and leave
/// it out, it is not its own partner, and it is in the world only while alive.
pub proof fn lemma_validation_passes(npc: Npc)
    requires
        npc.attributes.in_range(),
        npc.beliefs@.len() <= MAX_BELIEFS,
        belief_problem_from(npc.beliefs@, 0) is None,
        npc.goal.valid(),
        !npc.relationships@.contains_key(npc.id),
        relationships_in_range(npc.relationships@),
        npc.parents@.no_duplicates(),
        !npc.parents@.contains(npc.id),
        npc.children@.no_duplicates(),
        !npc.children@.contains(npc.id),
        npc.partner != Some(npc.id),
        npc.alive || !npc.in_world,
    ensures
        npc.validation_error() is None,
{
    npc.relationships.lemma_key_order_is_domain();
    let keys = npc.relationships.key_order();
    assert forall|i: int| 0 <= i < keys.len() implies npc.relationships@.contains_key(#[trigger] keys[i]) by {
        assert(keys.contains(keys[i]));
    }
    lemma_in_range_has_no_problem(keys, npc.relationships@, 0);
    lemma_distinct_relatives_fine(npc.id, npc.parents@, 0);
    lemma_distinct_relatives_fine(npc.id, npc.children@, 0);
}

// ---------------------------------------------------------------- the NPC

/// An NPC held by the simulation.
#[derive(Clone, Debug, PartialEq, Eq)]
pub struct Npc {
    pub id: NpcId,
    pub name: String,
    pub age: u8,
    pub sex: Sex,
    pub hometown: TownId,
    pub town: TownId,
    pub attributes: Attributes,
    pub beliefs: Vec<Belief>,
    pub goal: Goal,
    pub relationships: RelationshipMap,
    pub parents: Vec<NpcId>,
    pub children: Vec<NpcId>,
    pub partner: Option<NpcId>,
    /// Cash in hundredths of the currency.
    pub money_cents: Money,
    /// Goods held.
    pub inventory: Inventory,
    pub alive: bool,
    /// Whether the NPC is in the world now. An emigrant is alive with this `false`.
    pub in_world: bool,
    pub state: NpcState,
}

pub fn default_true() -> (value: bool)
    ensures
        value,
{
    true
}

/// Whether the relationship with an NPC is strong.
pub open spec fn strong_in(relationships: Map<NpcId, Relationship>) -> spec_fn(NpcId) -> bool {
    |k: NpcId| relationships[k].strong()
}

/// All of the NPC's values are in range.
pub open spec fn relationships_in_range(relationships: Map<NpcId, Relationship>) -> bool {
    forall|k: NpcId| #[trigger] relationships.contains_key(k) ==> relationships[k].in_range()
}

impl Npc {
    pub open spec fn active(&self) -> bool {
        self.alive && self.in_world
    }

    pub open spec fn adult(&self) -> bool {
        self.age >= ADULT_AGE
    }

    /// The first broken invariant, in the order in which `validate` checks them.
    pub open spec fn validation_error(&self) -> Option<NpcInvariantError> {
        if !self.attributes.in_range() {
            Some(NpcInvariantError::AttributeOutOfRange)
        } else if self.beliefs@.len() > MAX_BELIEFS {
            Some(NpcInvariantError::TooManyBeliefs { count: self.beliefs@.len() as usize })
        } else if belief_problem_from(self.beliefs@, 0) is Some {
            belief_problem_from(self.beliefs@, 0)
        } else if !self.goal.valid() {
            Some(NpcInvariantError::GoalProgressOutOfRange)
        } else if self.relationships@.contains_key(self.id) {
            Some(NpcInvariantError::SelfRelationship)
        } else if first_out_of_range(self.relationships.key_order(), self.relationships@, 0) is Some {
            Some(
                NpcInvariantError::RelationshipValueOutOfRange {
                    other: first_out_of_range(self.relationships.key_order(), self.relationships@, 0)->0,
                },
            )
        } else if relative_error(self.id, self.parents@, NpcInvariantError::SelfParent, true) is Some {
            relative_error(self.id, self.parents@, NpcInvariantError::SelfParent, true)
        } else if relative_error(self.id, self.children@, NpcInvariantError::SelfChild, false) is Some {
            relative_error(self.id, self.children@, NpcInvariantError::SelfChild, false)
        } else if self.partner == Some(self.id) {
            Some(NpcInvariantError::SelfPartner)
        } else if !self.alive && self.in_world {
            Some(NpcInvariantError::DeadNpcMarkedInWorld)
        } else {
            None
        }
    }

    pub fn new(
        id: NpcId,
        name: String,
        age: u8,
        sex: Sex,
        hometown: TownId,
        town: TownId,
        attributes: Attributes,
        beliefs: Vec<Belief>,
        goal: Goal,
    ) -> (npc: Self)
        ensures
            npc.id == id,
            npc.name == name,
            npc.age == age,
            npc.sex == sex,
            npc.hometown == hometown,
            npc.town == town,
            npc.attributes == attributes.normalized(),
            npc.beliefs@ == normalized_beliefs(beliefs@),
            npc.goal == (Goal { progress_bits: clamped_progress_bits(goal.progress_bits), ..goal }),
            npc.relationships@ == Map::<NpcId, Relationship>::empty(),
            npc.parents@.len() == 0,
            npc.children@.len() == 0,
            npc.partner is None,
            npc.money_cents == 0,
            forall|good: Good| #[trigger] npc.inventory.count(good) == 0,
            npc.alive,
            npc.in_world,
            npc.state == NpcState::Normal,
            npc.validation_error() is None,
    {
        let mut npc = Npc {
            id,
            name,
            age,
            sex,
            hometown,
            town,
            attributes,
            beliefs,
            goal,
            relationships: RelationshipMap::new(),
            parents: Vec::new(),
            children: Vec::new(),
            partner: None,
            money_cents: 0,
            inventory: Inventory::empty(),
            alive: true,
            in_world: true,
            state: NpcState::Normal,
        };
        npc.normalize();
        proof {
            assert(npc.relationships@ =~= Map::<NpcId, Relationship>::empty());
            assert(normalized_relatives(id, Seq::<NpcId>::empty()) =~= Seq::<NpcId>::empty());
        }
        npc
    }

    pub fn is_adult(&self) -> (adult: bool)
        ensures
            adult == self.adult(),
    {
        self.age >= ADULT_AGE
    }

    pub fn is_active(&self) -> (active: bool)
        ensures
            active == self.active(),
    {
        self.alive && self.in_world
    }

    /// One year older, never past 255.
    pub fn age_one_year(&mut self)
        ensures
            final(self).age == (if old(self).age < 255 {
                old(self).age + 1
            } else {
                255
            }),
            *final(self) == (Npc { age: final(self).age, ..*old(self) }),
    {
        self.age = self.age.saturating_add(1);
    }

    /// Moves an active NPC to another town; false (and no change) otherwise.
    pub fn move_to(&mut self, town: TownId) -> (moved: bool)
        ensures
            moved == (old(self).active() && old(self).town != town),
            moved ==> *final(self) == (Npc { town, ..*old(self) }),
            !moved ==> *final(self) == *old(self),
    {
        if !self.is_active() || self.town == town {
            return false;
        }
        self.town = town;
        true
    }

    /// Marks the NPC dead and returns the former partner, whose link the caller clears.
    pub fn mark_dead(&mut self) -> (former_partner: Option<NpcId>)
        ensures
            former_partner == old(self).partner,
            *final(self) == (Npc {
                alive: false,
                in_world: false,
                state: NpcState::Normal,
                partner: None,
                ..*old(self)
            }),
    {
        self.alive = false;
        self.in_world = false;
        self.state = NpcState::Normal;
        let former_partner = self.partner;
        self.partner = None;
        former_partner
    }

    /// Sends a living NPC out of the world; false when dead or already outside.
    pub fn leave_world(&mut self) -> (left: bool)
        ensures
            left == old(self).active(),
            left ==> *final(self) == (Npc { in_world: false, ..*old(self) }),
            !left ==> *final(self) == *old(self),
    {
        if !self.alive || !self.in_world {
            return false;
        }
        self.in_world = false;
        true
    }

    /// Brings a living NPC from outside back into the given town.
    pub fn enter_world(&mut self, town: TownId) -> (entered: bool)
        ensures
            entered == (old(self).alive && !old(self).in_world),
            entered ==> *final(self) == (Npc { town, in_world: true, ..*old(self) }),
            !entered ==> *final(self) == *old(self),
    {
        if !self.alive || self.in_world {
            return false;
        }
        self.town = town;
        self.in_world = true;
        true
    }

    /// The first belief of the given kind.
    pub fn belief(&self, kind: BeliefKind) -> (belief: Option<&Belief>)
        ensures
            belief is None <==> !holds_kind(self.beliefs@, kind),
            belief matches Some(b) ==> exists|i: int| first_of_kind(self.beliefs@, kind, i) && self.beliefs@[i] == *b,
    {
        match find_belief(&self.beliefs, kind) {
            Some(i) => Some(&self.beliefs[i]),
            None => None,
        }
    }

    /// The first belief of the given kind, to change in place.
    pub fn belief_mut(&mut self, kind: BeliefKind) -> (belief: Option<&mut Belief>)
        ensures
            !holds_kind(old(self).beliefs@, kind) ==> belief is None && *final(self) == *old(self),
            holds_kind(old(self).beliefs@, kind) ==> belief is Some && exists|i: int|
                first_of_kind(old(self).beliefs@, kind, i) && *belief->0 == old(self).beliefs@[i]
                    && final(self).beliefs@ == old(self).beliefs@.update(i, *final(belief->0))
                    && *final(self) == (Npc { beliefs: final(self).beliefs, ..*old(self) }),
    {
        match find_belief(&self.beliefs, kind) {
            Some(i) => Some(&mut self.beliefs[i]),
            None => None,
        }
    }

    /// The strength of the belief of the given kind, zero without one.
    pub fn belief_strength(&self, kind: BeliefKind) -> (strength: u8)
        ensures
            strength == strength_of(self.beliefs@, kind),
    {
        match find_belief(&self.beliefs, kind) {
            Some(i) => {
                proof {
                    lemma_first_of_kind_unique(self.beliefs@, kind, i as int);
                }
                self.beliefs[i].strength
            },
            None => 0,
        }
    }

    /// Replaces the belief of the same kind, or adds a new kind while there are fewer
    /// than three. The belief is clamped first. True when the beliefs changed.
    pub fn add_belief(&mut self, belief: Belief) -> (changed: bool)
        ensures
            ({
                let clamped = Belief { kind: belief.kind, strength: clamped_strength(belief.strength) };
                &&& *final(self) == (Npc { beliefs: final(self).beliefs, ..*old(self) })
                &&& holds_kind(old(self).beliefs@, belief.kind) ==> exists|i: int|
                    first_of_kind(old(self).beliefs@, belief.kind, i) && changed == (old(self).beliefs@[i] != clamped)
                        && final(self).beliefs@ == old(self).beliefs@.update(i, clamped)
                &&& !holds_kind(old(self).beliefs@, belief.kind) ==> changed == (old(self).beliefs@.len() < MAX_BELIEFS)
                &&& !holds_kind(old(self).beliefs@, belief.kind) && changed ==> final(self).beliefs@
                    == old(self).beliefs@.push(clamped)
                &&& !changed ==> final(self).beliefs@ == old(self).beliefs@
            }),
    {
        let mut belief = belief;
        belief.normalize();
        match find_belief(&self.beliefs, belief.kind) {
            Some(i) => {
                if self.beliefs[i] == belief {
                    proof {
                        assert(self.beliefs@.update(i as int, belief) =~= self.beliefs@);
                    }
                    return false;
                }
                self.beliefs.set(i, belief);
                true
            },
            None => {
                if self.beliefs.len() >= MAX_BELIEFS {
                    return false;
                }
                self.beliefs.push(belief);
                true
            },
        }
    }

    /// Adjusts the belief of the given kind; returns the change applied, or `None`
    /// without such a belief.
    pub fn adjust_belief(&mut self, kind: BeliefKind, change: i8) -> (applied: Option<i8>)
        requires
            forall|i: int| first_of_kind(old(self).beliefs@, kind, i) ==> -128 <= as_signed_byte(
                adjusted_strength(old(self).beliefs@[i].strength, change),
            ) - as_signed_byte(old(self).beliefs@[i].strength) <= 127,
        ensures
            !holds_kind(old(self).beliefs@, kind) ==> applied is None && *final(self) == *old(self),
            holds_kind(old(self).beliefs@, kind) ==> exists|i: int|
                first_of_kind(old(self).beliefs@, kind, i) && final(self).beliefs@ == old(self).beliefs@.update(
                    i,
                    Belief { kind, strength: adjusted_strength(old(self).beliefs@[i].strength, change) },
                ) && applied == Some((as_signed_byte(adjusted_strength(old(self).beliefs@[i].strength, change))
                    - as_signed_byte(old(self).beliefs@[i].strength)) as i8),
            *final(self) == (Npc { beliefs: final(self).beliefs, ..*old(self) }),
    {
        match find_belief(&self.beliefs, kind) {
            Some(i) => {
                let mut belief = self.beliefs[i];
                let applied = belief.adjust(change);
                self.beliefs.set(i, belief);
                Some(applied)
            },
            None => None,
        }
    }

    /// Replaces the beliefs by the normal form of the given list.
    pub fn replace_beliefs(&mut self, beliefs: Vec<Belief>)
        ensures
            final(self).beliefs@ == normalized_beliefs(beliefs@),
            *final(self) == (Npc { beliefs: final(self).beliefs, ..*old(self) }),
    {
        let mut beliefs = beliefs;
        normalize_beliefs(&mut beliefs);
        self.beliefs = beliefs;
    }

    pub fn change_goal(&mut self, new_kind: GoalKind, current_year: u64, cooldown_years: u16, major_event: bool) -> (changed: bool)
        ensures
            changed == (old(self).goal.kind != new_kind && old(self).goal.may_change(
                current_year,
                cooldown_years,
                major_event,
            )),
            changed ==> final(self).goal == (Goal { kind: new_kind, progress_bits: MIN_GOAL_PROGRESS_BITS, since_year: current_year }),
            !changed ==> final(self).goal == old(self).goal,
            *final(self) == (Npc { goal: final(self).goal, ..*old(self) }),
    {
        self.goal.change_to(new_kind, current_year, cooldown_years, major_event)
    }

    /// Sets the relationship with another NPC, clamped into range; a relationship with
    /// oneself is refused. True when set.
    pub fn set_relationship(&mut self, other: NpcId, relationship: Relationship) -> (set: bool)
        ensures
            set == (other != old(self).id),
            set ==> final(self).relationships@ == old(self).relationships@.insert(other, relationship.normalized()),
            !set ==> final(self).relationships@ == old(self).relationships@,
            *final(self) == (Npc { relationships: final(self).relationships, ..*old(self) }),
    {
        if other == self.id {
            return false;
        }
        let mut relationship = relationship;
        relationship.normalize();
        self.relationships.insert(other, relationship);
        true
    }

    /// The relationship with another NPC, created as a neutral acquaintance when missing.
    /// `None` for oneself.
    pub fn ensure_relationship(&mut self, other: NpcId, affinity: u8, year: u64, month: u8) -> (relationship: Option<&mut Relationship>)
        ensures
            other == old(self).id ==> relationship is None && *final(self) == *old(self),
            other != old(self).id ==> relationship is Some
                && *relationship->0 == (if old(self).relationships@.contains_key(other) {
                    old(self).relationships@[other]
                } else {
                    Relationship {
                        affinity: clamped_value(affinity),
                        relation: NEUTRAL_RELATION,
                        kind: RelationshipKind::Acquaintance,
                        last_interaction_year: year,
                        last_interaction_month: clamped_month(month),
                    }
                })
                && final(self).relationships@ == old(self).relationships@.insert(other, *final(relationship->0))
                && *final(self) == (Npc { relationships: final(self).relationships, ..*old(self) }),
    {
        if other == self.id {
            return None;
        }
        if !self.relationships.contains_key(other) {
            let created = Relationship::new(affinity, RelationshipKind::Acquaintance, year, month);
            self.relationships.insert(other, created);
        }
        let ghost middle = self.relationships@;
        proof {
            assert forall|value: Relationship| #[trigger] middle.insert(other, value) =~= old(self).relationships@.insert(other, value) by {}
        }
        match self.relationships.get_mut(other) {
            Some(relationship) => Some(relationship),
            None => None,
        }
    }

    pub fn relationship(&self, other: NpcId) -> (relationship: Option<&Relationship>)
        ensures
            self.relationships@.contains_key(other) ==> relationship == Some(&self.relationships@[other]),
            !self.relationships@.contains_key(other) ==> relationship is None,
    {
        self.relationships.get(other)
    }

    /// The relationship with another NPC, to change in place; never one with oneself.
    pub fn relationship_mut(&mut self, other: NpcId) -> (relationship: Option<&mut Relationship>)
        ensures
            (other == old(self).id || !old(self).relationships@.contains_key(other)) ==> relationship is None
                && final(self).relationships@ == old(self).relationships@,
            (other != old(self).id && old(self).relationships@.contains_key(other)) ==> relationship is Some
                && *relationship->0 == old(self).relationships@[other]
                && final(self).relationships@ == old(self).relationships@.insert(other, *final(relationship->0)),
            *final(self) == (Npc { relationships: final(self).relationships, ..*old(self) }),
    {
        if other == self.id {
            return None;
        }
        self.relationships.get_mut(other)
    }

    pub fn remove_relationship(&mut self, other: NpcId) -> (removed: Option<Relationship>)
        ensures
            final(self).relationships@ == old(self).relationships@.remove(other),
            old(self).relationships@.contains_key(other) ==> removed == Some(old(self).relationships@[other]),
            !old(self).relationships@.contains_key(other) ==> removed is None,
            *final(self) == (Npc { relationships: final(self).relationships, ..*old(self) }),
    {
        self.relationships.remove(other)
    }

    pub fn relationship_count(&self) -> (count: usize)
        ensures
            count == self.relationships@.len(),
    {
        self.relationships.len()
    }

    /// How many relationships are strong (relation at least seven).
    pub fn strong_relationship_count(&self) -> (count: usize)
        ensures
            count == self.relationships.key_order().filter(strong_in(self.relationships@)).len(),
    {
        let entries = self.relationships.entries();
        let ghost keys = self.relationships.key_order();
        let mut count: usize = 0;
        let mut i: usize = 0;
        while i < entries.len()
            invariant
                i <= entries@.len(),
                entries@.len() == keys.len(),
                forall|j: int| 0 <= j < entries@.len() ==> (#[trigger] entries@[j]).0 == keys[j]
                    && self.relationships@.contains_key(entries@[j].0) && entries@[j].1 == self.relationships@[entries@[j].0],
                count == keys.take(i as int).filter(strong_in(self.relationships@)).len(),
                count <= i,
            decreases entries.len() - i,
        {
            proof {
                broadcast use vstd::seq_lib::group_seq_properties;
                assert(keys.take(i + 1) =~= keys.take(i as int).push(keys[i as int]));
                keys.take(i as int).lemma_filter_push(keys[i as int], strong_in(self.relationships@));
            }
            proof {
                assert(strong_in(self.relationships@)(keys[i as int]) == entries@[i as int].1.strong());
            }
            if entries[i].1.is_strong() {
                count = count + 1;
            }
            i = i + 1;
        }
        proof {
            assert(keys.take(keys.len() as int) =~= keys);
        }
        count
    }

    /// Forgets the stale relationships at the yearly tick; returns their ids, ascending.
    pub fn forget_stale_relationships(&mut self, current_year: u64) -> (forgotten: Vec<NpcId>)
        ensures
            crate::sorted_ids::npc_ids_sorted(forgotten@),
            forall|k: NpcId| #[trigger] forgotten@.contains(k) <==> (old(self).relationships@.contains_key(k)
                && old(self).relationships@[k].forgotten_in(current_year)),
            final(self).relationships@ == old(self).relationships@.remove_keys(forgotten@.to_set()),
            *final(self) == (Npc { relationships: final(self).relationships, ..*old(self) }),
    {
        let entries = self.relationships.entries();
        let ghost keys = self.relationships.key_order();
        let ghost before = self.relationships@;
        let keys_exec = self.relationships.keys();
        let mut forgotten: Vec<NpcId> = Vec::new();
        let mut i: usize = 0;
        while i < entries.len()
            invariant
                i <= entries@.len(),
                entries@.len() == keys.len(),
                keys_exec@ == keys,
                crate::sorted_ids::npc_ids_sorted(keys),
                before == self.relationships@,
                forall|k: NpcId| #[trigger] keys.contains(k) <==> before.contains_key(k),
                forall|j: int| 0 <= j < entries@.len() ==> (#[trigger] entries@[j]).0 == keys[j]
                    && before.contains_key(entries@[j].0) && entries@[j].1 == before[entries@[j].0],
                crate::sorted_ids::npc_ids_sorted(forgotten@),
                forall|j: int| 0 <= j < forgotten@.len() ==> exists|m: int| 0 <= m < i && #[trigger] forgotten@[j] == keys[m],
                forall|k: NpcId| #[trigger] forgotten@.contains(k) <==> (keys.take(i as int).contains(k)
                    && before[k].forgotten_in(current_year)),
            decreases entries.len() - i,
        {
            let (id, relationship) = entries[i];
            proof {
                broadcast use vstd::seq_lib::group_seq_properties;
                assert(keys.take(i + 1) =~= keys.take(i as int).push(keys[i as int]));
            }
            if relationship.should_forget(current_year) {
                proof {
                    assert forall|j: int| 0 <= j < forgotten@.len() implies (#[trigger] forgotten@[j]).0 < id.0 by {
                        let m = choose|m: int| 0 <= m < i && forgotten@[j] == keys[m];
                        assert(keys[m].0 < keys[i as int].0);
                    }
                }
                forgotten.push(id);
            }
            i = i + 1;
        }
        proof {
            assert(keys.take(keys.len() as int) =~= keys);
        }
        let mut j: usize = 0;
        while j < forgotten.len()
            invariant
                j <= forgotten@.len(),
                self.relationships@ == before.remove_keys(forgotten@.take(j as int).to_set()),
                *self == (Npc { relationships: self.relationships, ..*old(self) }),
            decreases forgotten.len() - j,
        {
            self.relationships.remove(forgotten[j]);
            proof {
                broadcast use vstd::seq_lib::group_seq_properties;
                assert(forgotten@.take(j + 1) =~= forgotten@.take(j as int).push(forgotten@[j as int]));
                assert(self.relationships@ =~= before.remove_keys(forgotten@.take(j + 1).to_set()));
            }
            j = j + 1;
        }
        proof {
            assert(forgotten@.take(forgotten@.len() as int) =~= forgotten@);
        }
        forgotten
    }
}

impl Npc {
    /// Repairs what can be repaired from the NPC alone: values are clamped, beliefs and
    /// relatives brought into normal form, a relationship with or partnership to oneself
    /// dropped, and a dead NPC taken out of the world. Links between NPCs are left as
    /// they are. Afterwards `validate` passes.
    pub fn normalize(&mut self)
        ensures
            final(self).id == old(self).id,
            final(self).name == old(self).name,
            final(self).age == old(self).age,
            final(self).sex == old(self).sex,
            final(self).hometown == old(self).hometown,
            final(self).town == old(self).town,
            final(self).attributes == old(self).attributes.normalized(),
            final(self).beliefs@ == normalized_beliefs(old(self).beliefs@),
            final(self).goal == (Goal { progress_bits: clamped_progress_bits(old(self).goal.progress_bits), ..old(self).goal }),
            final(self).relationships@ == old(self).relationships@.remove(old(self).id).map_values(
                |relationship: Relationship| relationship.normalized(),
            ),
            final(self).parents@ == normalized_relatives(old(self).id, old(self).parents@),
            final(self).children@ == normalized_relatives(old(self).id, old(self).children@),
            final(self).partner == (if old(self).partner == Some(old(self).id) {
                None
            } else {
                old(self).partner
            }),
            final(self).money_cents == old(self).money_cents,
            final(self).inventory == old(self).inventory,
            final(self).alive == old(self).alive,
            final(self).in_world == (old(self).alive && old(self).in_world),
            final(self).state == old(self).state,
            final(self).validation_error() is None,
    {
        self.attributes.normalize();
        normalize_beliefs(&mut self.beliefs);
        self.goal.normalize();
        self.relationships.remove(self.id);
        self.relationships.normalize_values();
        normalize_relatives(self.id, &mut self.parents);
        normalize_relatives(self.id, &mut self.children);
        if self.partner == Some(self.id) {
            self.partner = None;
        }
        if !self.alive {
            self.in_world = false;
        }
        proof {
            lemma_normal_beliefs_have_no_problem(self.beliefs@, 0);
            lemma_valid_relatives_have_no_problem(self.id, self.parents@, 0);
            lemma_valid_relatives_have_no_problem(self.id, self.children@, 0);
            let keys = self.relationships.key_order();
            self.relationships.lemma_key_order_is_domain();
            assert forall|i: int| 0 <= i < keys.len() implies self.relationships@.contains_key(#[trigger] keys[i]) by {
                assert(keys.contains(keys[i]));
            }
            lemma_in_range_has_no_problem(keys, self.relationships@, 0);
        }
    }
}

impl Npc {
    /// The month-accurate version of forgetting; returns the ids, ascending.
    pub fn forget_stale_relationships_at(&mut self, current_year: u64, current_month: u8) -> (forgotten: Vec<NpcId>)
        ensures
            crate::sorted_ids::npc_ids_sorted(forgotten@),
            forall|k: NpcId| #[trigger] forgotten@.contains(k) <==> (old(self).relationships@.contains_key(k)
                && old(self).relationships@[k].forgotten_at(current_year, current_month)),
            final(self).relationships@ == old(self).relationships@.remove_keys(forgotten@.to_set()),
            *final(self) == (Npc { relationships: final(self).relationships, ..*old(self) }),
    {
        let entries = self.relationships.entries();
        let ghost keys = self.relationships.key_order();
        let ghost before = self.relationships@;
        let keys_exec = self.relationships.keys();
        let mut forgotten: Vec<NpcId> = Vec::new();
        let mut i: usize = 0;
        while i < entries.len()
            invariant
                i <= entries@.len(),
                entries@.len() == keys.len(),
                keys_exec@ == keys,
                crate::sorted_ids::npc_ids_sorted(keys),
                before == self.relationships@,
                forall|k: NpcId| #[trigger] keys.contains(k) <==> before.contains_key(k),
                forall|j: int| 0 <= j < entries@.len() ==> (#[trigger] entries@[j]).0 == keys[j]
                    && before.contains_key(entries@[j].0) && entries@[j].1 == before[entries@[j].0],
                crate::sorted_ids::npc_ids_sorted(forgotten@),
                forall|j: int| 0 <= j < forgotten@.len() ==> exists|m: int| 0 <= m < i && #[trigger] forgotten@[j] == keys[m],
                forall|k: NpcId| #[trigger] forgotten@.contains(k) <==> (keys.take(i as int).contains(k)
                    && before[k].forgotten_at(current_year, current_month)),
            decreases entries.len() - i,
        {
            let (id, relationship) = entries[i];
            proof {
                broadcast use vstd::seq_lib::group_seq_properties;
                assert(keys.take(i + 1) =~= keys.take(i as int).push(keys[i as int]));
            }
            if relationship.should_forget_at(current_year, current_month) {
                proof {
                    assert forall|j: int| 0 <= j < forgotten@.len() implies (#[trigger] forgotten@[j]).0 < id.0 by {
                        let m = choose|m: int| 0 <= m < i && forgotten@[j] == keys[m];
                        assert(keys[m].0 < keys[i as int].0);
                    }
                }
                forgotten.push(id);
            }
            i = i + 1;
        }
        proof {
            assert(keys.take(keys.len() as int) =~= keys);
        }
        let mut j: usize = 0;
        while j < forgotten.len()
            invariant
                j <= forgotten@.len(),
                self.relationships@ == before.remove_keys(forgotten@.take(j as int).to_set()),
                *self == (Npc { relationships: self.relationships, ..*old(self) }),
            decreases forgotten.len() - j,
        {
            self.relationships.remove(forgotten[j]);
            proof {
                broadcast use vstd::seq_lib::group_seq_properties;
                assert(forgotten@.take(j + 1) =~= forgotten@.take(j as int).push(forgotten@[j as int]));
                assert(self.relationships@ =~= before.remove_keys(forgotten@.take(j + 1).to_set()));
            }
            j = j + 1;
        }
        proof {
            assert(forgotten@.take(forgotten@.len() as int) =~= forgotten@);
        }
        forgotten
    }

    /// Adds a parent unless it is the NPC itself or already listed.
    pub fn add_parent(&mut self, parent: NpcId) -> (added: bool)
        ensures
            added == (parent != old(self).id && !old(self).parents@.contains(parent)),
            added ==> final(self).parents@ == old(self).parents@.push(parent),
            !added ==> final(self).parents@ == old(self).parents@,
            *final(self) == (Npc { parents: final(self).parents, ..*old(self) }),
    {
        add_unique_relative(self.id, &mut self.parents, parent)
    }

    pub fn remove_parent(&mut self, parent: NpcId) -> (removed: bool)
        ensures
            final(self).parents@ == old(self).parents@.filter(other_than(parent)),
            removed == old(self).parents@.contains(parent),
            *final(self) == (Npc { parents: final(self).parents, ..*old(self) }),
    {
        remove_relative(&mut self.parents, parent)
    }

    /// Adds a child unless it is the NPC itself or already listed.
    pub fn add_child(&mut self, child: NpcId) -> (added: bool)
        ensures
            added == (child != old(self).id && !old(self).children@.contains(child)),
            added ==> final(self).children@ == old(self).children@.push(child),
            !added ==> final(self).children@ == old(self).children@,
            *final(self) == (Npc { children: final(self).children, ..*old(self) }),
    {
        add_unique_relative(self.id, &mut self.children, child)
    }

    pub fn remove_child(&mut self, child: NpcId) -> (removed: bool)
        ensures
            final(self).children@ == old(self).children@.filter(other_than(child)),
            removed == old(self).children@.contains(child),
            *final(self) == (Npc { children: final(self).children, ..*old(self) }),
    {
        remove_relative(&mut self.children, child)
    }

    /// Sets the partner when it is another NPC; true when the value changed.
    pub fn set_partner(&mut self, partner: NpcId) -> (changed: bool)
        ensures
            changed == (partner != old(self).id && old(self).partner != Some(partner)),
            changed ==> *final(self) == (Npc { partner: Some(partner), ..*old(self) }),
            !changed ==> *final(self) == *old(self),
    {
        if partner == self.id || self.partner == Some(partner) {
            return false;
        }
        self.partner = Some(partner);
        true
    }

    pub fn clear_partner(&mut self) -> (former: Option<NpcId>)
        ensures
            former == old(self).partner,
            *final(self) == (Npc { partner: None, ..*old(self) }),
    {
        let former = self.partner;
        self.partner = None;
        former
    }

    /// Clears the partner only when it is `expected`.
    pub fn clear_partner_if(&mut self, expected: NpcId) -> (cleared: bool)
        ensures
            cleared == (old(self).partner == Some(expected)),
            cleared ==> *final(self) == (Npc { partner: None, ..*old(self) }),
            !cleared ==> *final(self) == *old(self),
    {
        if self.partner == Some(expected) {
            self.partner = None;
            true
        } else {
            false
        }
    }

    /// Every `0..=10` value and the goal progress are in range.
    pub fn values_in_range(&self) -> (in_range: bool)
        ensures
            in_range == (self.attributes.in_range() && (forall|i: int|
                0 <= i < self.beliefs@.len() ==> (#[trigger] self.beliefs@[i]).valid()) && self.goal.valid()
                && relationships_in_range(self.relationships@)),
    {
        if !self.attributes.values_in_range() {
            return false;
        }
        let mut i: usize = 0;
        while i < self.beliefs.len()
            invariant
                i <= self.beliefs@.len(),
                forall|j: int| 0 <= j < i ==> (#[trigger] self.beliefs@[j]).valid(),
            decreases self.beliefs.len() - i,
        {
            if !self.beliefs[i].is_valid() {
                return false;
            }
            i = i + 1;
        }
        if !self.goal.is_valid() {
            return false;
        }
        let entries = self.relationships.entries();
        proof {
            self.relationships.lemma_key_order_is_domain();
        }
        let mut k: usize = 0;
        while k < entries.len()
            invariant
                k <= entries@.len(),
                entries@.len() == self.relationships.key_order().len(),
                forall|j: int| 0 <= j < entries@.len() ==> (#[trigger] entries@[j]).0 == self.relationships.key_order()[j]
                    && self.relationships@.contains_key(entries@[j].0) && entries@[j].1 == self.relationships@[entries@[j].0],
                forall|j: int| 0 <= j < k ==> (#[trigger] entries@[j]).1.in_range(),
            decreases entries.len() - k,
        {
            if !entries[k].1.values_in_range() {
                return false;
            }
            k = k + 1;
        }
        proof {
            assert forall|id: NpcId| #[trigger] self.relationships@.contains_key(id) implies self.relationships@[id].in_range() by {
                let keys = self.relationships.key_order();
                assert(keys.contains(id));
                let m = choose|m: int| 0 <= m < keys.len() && keys[m] == id;
                assert(entries@[m].0 == id);
            }
        }
        true
    }

    /// Checks the invariants that can be seen from this NPC alone; the first broken one
    /// is reported.
    pub fn validate(&self) -> (result: Result<(), NpcInvariantError>)
        ensures
            match self.validation_error() {
                None => result is Ok,
                Some(error) => result == Err::<(), NpcInvariantError>(error),
            },
    {
        if !self.attributes.values_in_range() {
            return Err(NpcInvariantError::AttributeOutOfRange);
        }
        if self.beliefs.len() > MAX_BELIEFS {
            return Err(NpcInvariantError::TooManyBeliefs { count: self.beliefs.len() });
        }
        let mut i: usize = 0;
        while i < self.beliefs.len()
            invariant
                i <= self.beliefs@.len(),
                self.attributes.in_range(),
                self.beliefs@.len() <= MAX_BELIEFS,
                belief_problem_from(self.beliefs@, 0) == belief_problem_from(self.beliefs@, i as int),
            decreases self.beliefs.len() - i,
        {
            let belief = self.beliefs[i];
            if !belief.is_valid() {
                return Err(NpcInvariantError::BeliefOutOfRange { kind: belief.kind });
            }
            let mut j: usize = 0;
            let mut seen = false;
            while j < i
                invariant
                    j <= i < self.beliefs@.len(),
                    seen == holds_kind(self.beliefs@.take(j as int), belief.kind),
                decreases i - j,
            {
                proof {
                    assert(self.beliefs@.take(j + 1) =~= self.beliefs@.take(j as int).push(self.beliefs@[j as int]));
                    lemma_holds_kind_push(self.beliefs@.take(j as int), self.beliefs@[j as int], belief.kind);
                }
                if self.beliefs[j].kind == belief.kind {
                    seen = true;
                }
                j = j + 1;
            }
            if seen {
                return Err(NpcInvariantError::DuplicateBelief { kind: belief.kind });
            }
            i = i + 1;
        }
        if !self.goal.is_valid() {
            return Err(NpcInvariantError::GoalProgressOutOfRange);
        }
        if self.relationships.contains_key(self.id) {
            return Err(NpcInvariantError::SelfRelationship);
        }
        let entries = self.relationships.entries();
        let ghost keys = self.relationships.key_order();
        let mut k: usize = 0;
        while k < entries.len()
            invariant
                k <= entries@.len(),
                entries@.len() == keys.len(),
                keys == self.relationships.key_order(),
                forall|j: int| 0 <= j < entries@.len() ==> (#[trigger] entries@[j]).0 == keys[j]
                    && self.relationships@.contains_key(entries@[j].0) && entries@[j].1 == self.relationships@[entries@[j].0],
                self.attributes.in_range(),
                self.beliefs@.len() <= MAX_BELIEFS,
                belief_problem_from(self.beliefs@, 0) is None,
                self.goal.valid(),
                !self.relationships@.contains_key(self.id),
                first_out_of_range(keys, self.relationships@, 0) == first_out_of_range(keys, self.relationships@, k as int),
            decreases entries.len() - k,
        {
            let (other, relationship) = entries[k];
            if !relationship.values_in_range() {
                return Err(NpcInvariantError::RelationshipValueOutOfRange { other });
            }
            k = k + 1;
        }
        match relative_problem(self.id, &self.parents) {
            Some((index, true)) => {
                return Err(NpcInvariantError::SelfParent);
            },
            Some((index, false)) => {
                return Err(NpcInvariantError::DuplicateParent { parent: self.parents[index] });
            },
            None => {},
        }
        match relative_problem(self.id, &self.children) {
            Some((index, true)) => {
                return Err(NpcInvariantError::SelfChild);
            },
            Some((index, false)) => {
                return Err(NpcInvariantError::DuplicateChild { child: self.children[index] });
            },
            None => {},
        }
        if self.partner == Some(self.id) {
            return Err(NpcInvariantError::SelfPartner);
        }
        if !self.alive && self.in_world {
            return Err(NpcInvariantError::DeadNpcMarkedInWorld);
        }
        Ok(())
    }
}

/// The generated name of an NPC: `NPC-` and the id zero-padded to six digits.
pub open spec fn default_name_text(id: NpcId) -> Seq<char> {
    seq!['N', 'P', 'C', '-'] + padded_left(decimal(id.0 as nat), 6, '0')
}

impl Npc {
    pub fn default_name(id: NpcId) -> (name: String)
        ensures
            name@ == default_name_text(id),
    {
        proof {
            reveal_strlit("NPC-");
            reveal_strlit("0");
        }
        let mut name = String::from_str("NPC-");
        append_padded(&mut name, id.0 as u64, 6, "0");
        name
    }

    /// An NPC named after its id.
    pub fn with_default_name(
        id: NpcId,
        age: u8,
        sex: Sex,
        hometown: TownId,
        town: TownId,
        attributes: Attributes,
        beliefs: Vec<Belief>,
        goal: Goal,
    ) -> (npc: Self)
        ensures
            npc.id == id,
            npc.name@ == default_name_text(id),
            npc.age == age,
            npc.sex == sex,
            npc.hometown == hometown,
            npc.town == town,
            npc.attributes == attributes.normalized(),
            npc.beliefs@ == normalized_beliefs(beliefs@),
            npc.goal == (Goal { progress_bits: clamped_progress_bits(goal.progress_bits), ..goal }),
            npc.relationships@ == Map::<NpcId, Relationship>::empty(),
            npc.parents@.len() == 0,
            npc.children@.len() == 0,
            npc.partner is None,
            npc.money_cents == 0,
            forall|good: Good| #[trigger] npc.inventory.count(good) == 0,
            npc.alive,
            npc.in_world,
            npc.state == NpcState::Normal,
            npc.validation_error() is None,
    {
        Self::new(id, Self::default_name(id), age, sex, hometown, town, attributes, beliefs, goal)
    }
}

} // verus!
