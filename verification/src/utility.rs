use vstd::prelude::*;

use crate::id::{NpcId, TownId};
use crate::npc::Npc;
use crate::town::Town;
use crate::relationship::{Relationship, RelationshipKind};

verus! {

pub const MAX_SITUATION_VALUE: u8 = 10;
pub const MIN_DISTANCE: u8 = 1;
pub const MAX_DISTANCE: u8 = 10;
pub const EMERGENCY_DANGER: u8 = 7;

/// The deliberately small set of actions the utility AI can choose from.
#[derive(Clone, Copy, Debug, PartialEq, Eq, Hash, Structural)]
pub enum Action {
    Work,
    Rest,
    Socialize,
    HelpPerson(NpcId),
    AvoidPerson(NpcId),
    SeekPartner,
    CareForFamily,
    MoveTown(TownId),
    FleeTown(TownId),
    DefendTown,
}

pub open spec fn clamped_situation_value(value: u8) -> u8 {
    if value > MAX_SITUATION_VALUE {
        MAX_SITUATION_VALUE
    } else {
        value
    }
}

pub fn clamp_situation_value(value: u8) -> (clamped: u8)
    ensures
        clamped == clamped_situation_value(value),
{
    if value > MAX_SITUATION_VALUE {
        MAX_SITUATION_VALUE
    } else {
        value
    }
}

pub open spec fn clamped_travel_distance(distance: u8) -> u8 {
    if distance < MIN_DISTANCE {
        MIN_DISTANCE
    } else if distance > MAX_DISTANCE {
        MAX_DISTANCE
    } else {
        distance
    }
}

pub fn clamp_distance(distance: u8) -> (clamped: u8)
    ensures
        clamped == clamped_travel_distance(distance),
{
    if distance < MIN_DISTANCE {
        MIN_DISTANCE
    } else if distance > MAX_DISTANCE {
        MAX_DISTANCE
    } else {
        distance
    }
}

/// A small, explicit candidate for an action aimed at a person. The caller limits the
/// candidates, to acquaintances in the same town for instance, never all NPCs.
#[derive(Clone, Copy, Debug, PartialEq, Eq, Structural)]
pub struct PersonCandidate {
    pub npc: NpcId,
    pub relation: u8,
    pub danger: u8,
    pub is_family: bool,
    pub is_outsider: bool,
    pub needs_help: bool,
    pub is_threat: bool,
    pub reachable: bool,
    pub partner_eligible: bool,
}

impl PersonCandidate {
    pub fn new(npc: NpcId, relation: u8) -> (candidate: Self)
        ensures
            candidate == (PersonCandidate {
                npc,
                relation: clamped_situation_value(relation),
                danger: 0,
                is_family: false,
                is_outsider: false,
                needs_help: false,
                is_threat: false,
                reachable: true,
                partner_eligible: false,
            }),
    {
        PersonCandidate {
            npc,
            relation: clamp_situation_value(relation),
            danger: 0,
            is_family: false,
            is_outsider: false,
            needs_help: false,
            is_threat: false,
            reachable: true,
            partner_eligible: false,
        }
    }

    /// A candidate for an existing relationship: family and partners count as family,
    /// rivals and enemies as threats.
    pub fn from_relationship(npc: NpcId, relationship: &Relationship) -> (candidate: Self)
        ensures
            candidate == (PersonCandidate {
                npc,
                relation: clamped_situation_value(relationship.relation),
                danger: 0,
                is_family: relationship.kind == RelationshipKind::Family || relationship.kind
                    == RelationshipKind::Partner,
                is_outsider: false,
                needs_help: false,
                is_threat: relationship.kind == RelationshipKind::Rival || relationship.kind
                    == RelationshipKind::Enemy,
                reachable: true,
                partner_eligible: false,
            }),
    {
        PersonCandidate {
            npc,
            relation: clamp_situation_value(relationship.relation),
            danger: 0,
            is_family: match relationship.kind {
                RelationshipKind::Family | RelationshipKind::Partner => true,
                _ => false,
            },
            is_outsider: false,
            needs_help: false,
            is_threat: match relationship.kind {
                RelationshipKind::Rival | RelationshipKind::Enemy => true,
                _ => false,
            },
            reachable: true,
            partner_eligible: false,
        }
    }

    pub fn needing_help(self, danger: u8) -> (candidate: Self)
        ensures
            candidate == (PersonCandidate { needs_help: true, danger: clamped_situation_value(danger), ..self }),
    {
        PersonCandidate { needs_help: true, danger: clamp_situation_value(danger), ..self }
    }

    pub fn threatening(self, danger: u8) -> (candidate: Self)
        ensures
            candidate == (PersonCandidate { is_threat: true, danger: clamped_situation_value(danger), ..self }),
    {
        PersonCandidate { is_threat: true, danger: clamp_situation_value(danger), ..self }
    }

    pub fn as_family(self) -> (candidate: Self)
        ensures
            candidate == (PersonCandidate { is_family: true, ..self }),
    {
        PersonCandidate { is_family: true, ..self }
    }

    pub fn as_outsider(self) -> (candidate: Self)
        ensures
            candidate == (PersonCandidate { is_outsider: true, ..self }),
    {
        PersonCandidate { is_outsider: true, ..self }
    }

    pub fn eligible_partner(self) -> (candidate: Self)
        ensures
            candidate == (PersonCandidate { partner_eligible: true, ..self }),
    {
        PersonCandidate { partner_eligible: true, ..self }
    }

    pub fn normalize(&mut self)
        ensures
            *final(self) == (PersonCandidate {
                relation: clamped_situation_value(old(self).relation),
                danger: clamped_situation_value(old(self).danger),
                ..*old(self)
            }),
    {
        self.relation = clamp_situation_value(self.relation);
        self.danger = clamp_situation_value(self.danger);
    }

    pub fn values_in_range(&self) -> (in_range: bool)
        ensures
            in_range == (self.relation <= MAX_SITUATION_VALUE && self.danger <= MAX_SITUATION_VALUE),
    {
        self.relation <= MAX_SITUATION_VALUE && self.danger <= MAX_SITUATION_VALUE
    }
}

impl Default for PersonCandidate {
    fn default() -> (candidate: Self)
        ensures
            candidate == (PersonCandidate {
                npc: NpcId(0),
                relation: 5,
                danger: 0,
                is_family: false,
                is_outsider: false,
                needs_help: false,
                is_threat: false,
                reachable: true,
                partner_eligible: false,
            }),
    {
        PersonCandidate::new(NpcId(0), 5)
    }
}

/// A town to move or flee to. The caller limits these to neighbours and towns two hops
/// away. The real-valued scores are kept as their IEEE-754 single-precision bits; the
/// choice of available actions never reads them.
#[derive(Clone, Copy, Debug, PartialEq, Eq, Structural)]
pub struct MoveCandidate {
    pub town: TownId,
    pub attractiveness_bits: u32,
    pub distance: u8,
    pub known_people: u16,
    pub belief_compatibility_bits: u32,
    pub family_separation_penalty_bits: u32,
    pub moving_cost_bits: u32,
    pub safe_for_fleeing: bool,
}

impl MoveCandidate {
    pub fn with_known_people(self, known_people: u16) -> (candidate: Self)
        ensures
            candidate == (MoveCandidate { known_people, ..self }),
    {
        MoveCandidate { known_people, ..self }
    }

    pub fn safe_for_fleeing(self, safe: bool) -> (candidate: Self)
        ensures
            candidate == (MoveCandidate { safe_for_fleeing: safe, ..self }),
    {
        MoveCandidate { safe_for_fleeing: safe, ..self }
    }
}

/// A snapshot of the situation for one decision, cut loose from the world.
#[derive(Clone, Debug, PartialEq, Eq)]
pub struct Situation {
    pub danger: u8,
    pub tiredness: u8,
    pub at_war: bool,
    pub natural_disaster: bool,
    pub disease_outbreak: bool,
    pub has_work: bool,
    pub socializing_allowed: bool,
    pub family_needs_care: bool,
    pub can_move: bool,
    pub can_defend_town: bool,
    pub people: Vec<PersonCandidate>,
    pub move_candidates: Vec<MoveCandidate>,
}

impl Situation {
    /// An NPC's situation this month in its town: the danger, war, outbreak, family and
    /// people given; how tired it is cycles through `0..=10` with the month and its id; a
    /// natural disaster strikes where the town has lost three or more points of safety;
    /// there is work where the town has jobs; socializing is allowed without an outbreak;
    /// it can move when there is another town and defend its town with physical three or
    /// more.
    pub fn of_npc(
        npc: &Npc,
        town: &Town,
        month: u8,
        town_count: usize,
        danger: u8,
        at_war: bool,
        disease_outbreak: bool,
        family_needs_care: bool,
        people: Vec<PersonCandidate>,
        move_candidates: Vec<MoveCandidate>,
    ) -> (situation: Situation)
        requires
            month + npc.id.0 <= u32::MAX,
        ensures
            situation.danger == danger,
            situation.tiredness == (month + npc.id.0) % 11,
            situation.at_war == at_war,
            situation.natural_disaster == (town.temporary_damage.safety_loss >= 3),
            situation.disease_outbreak == disease_outbreak,
            situation.has_work == (town.effective_jobs_spec() > 0),
            situation.socializing_allowed == !disease_outbreak,
            situation.family_needs_care == family_needs_care,
            situation.can_move == (town_count > 1),
            situation.can_defend_town == (npc.attributes.physical >= 3),
            situation.people == people,
            situation.move_candidates == move_candidates,
    {
        Situation {
            danger,
            tiredness: ((month as u32 + npc.id.0) % 11) as u8,
            at_war,
            natural_disaster: town.temporary_damage.safety_loss >= 3,
            disease_outbreak,
            has_work: town.effective_jobs() > 0,
            socializing_allowed: !disease_outbreak,
            family_needs_care,
            can_move: town_count > 1,
            can_defend_town: npc.attributes.physical >= 3,
            people,
            move_candidates,
        }
    }

    pub open spec fn emergency(&self) -> bool {
        self.danger >= EMERGENCY_DANGER || self.at_war || self.natural_disaster
    }

    pub fn is_emergency(&self) -> (emergency: bool)
        ensures
            emergency == self.emergency(),
    {
        self.danger >= EMERGENCY_DANGER || self.at_war || self.natural_disaster
    }

    pub fn available_actions(&self, npc: &Npc) -> (actions: Vec<Action>)
        ensures
            actions@ == available_actions_spec(*npc, *self),
    {
        available_actions(npc, self)
    }
}

impl Default for Situation {
    fn default() -> (situation: Self)
        ensures
            situation.danger == 0,
            situation.tiredness == 0,
            !situation.at_war,
            !situation.natural_disaster,
            !situation.disease_outbreak,
            situation.has_work,
            situation.socializing_allowed,
            !situation.family_needs_care,
            situation.can_move,
            situation.can_defend_town,
            situation.people@.len() == 0,
            situation.move_candidates@.len() == 0,
    {
        Situation {
            danger: 0,
            tiredness: 0,
            at_war: false,
            natural_disaster: false,
            disease_outbreak: false,
            has_work: true,
            socializing_allowed: true,
            family_needs_care: false,
            can_move: true,
            can_defend_town: true,
            people: Vec::new(),
            move_candidates: Vec::new(),
        }
    }
}

/// The people one can help: reachable others in need, each once, in candidate order.
pub open spec fn help_targets(people: Seq<PersonCandidate>, own: NpcId) -> Seq<NpcId>
    decreases people.len(),
{
    if people.len() == 0 {
        Seq::empty()
    } else {
        let kept = help_targets(people.drop_last(), own);
        let p = people.last();
        if p.npc != own && p.reachable && p.needs_help && !kept.contains(p.npc) {
            kept.push(p.npc)
        } else {
            kept
        }
    }
}

/// The people one can avoid: reachable others who threaten or stand at relation four or
/// less, each once, in candidate order.
pub open spec fn avoid_targets(people: Seq<PersonCandidate>, own: NpcId) -> Seq<NpcId>
    decreases people.len(),
{
    if people.len() == 0 {
        Seq::empty()
    } else {
        let kept = avoid_targets(people.drop_last(), own);
        let p = people.last();
        if p.npc != own && p.reachable && (p.is_threat || clamped_situation_value(p.relation) <= 4) && !kept.contains(
            p.npc,
        ) {
            kept.push(p.npc)
        } else {
            kept
        }
    }
}

/// The towns one can go to: other towns, each once, in candidate order; only those safe
/// for fleeing when fleeing.
pub open spec fn destinations(candidates: Seq<MoveCandidate>, current: TownId, fleeing: bool) -> Seq<TownId>
    decreases candidates.len(),
{
    if candidates.len() == 0 {
        Seq::empty()
    } else {
        let kept = destinations(candidates.drop_last(), current, fleeing);
        let d = candidates.last();
        if d.town != current && (!fleeing || d.safe_for_fleeing) && !kept.contains(d.town) {
            kept.push(d.town)
        } else {
            kept
        }
    }
}

pub open spec fn has_partner_candidate(people: Seq<PersonCandidate>, own: NpcId) -> bool {
    exists|i: int| 0 <= i < people.len() && (#[trigger] people[i]).npc != own && people[i].reachable && people[i].partner_eligible
}

pub open spec fn when(condition: bool, action: Action) -> Seq<Action> {
    if condition {
        seq![action]
    } else {
        Seq::empty()
    }
}

/// The actions open to the NPC, in a fixed order of categories and, within one, in the
/// order of the candidates: work, rest, socializing, help, avoidance, seeking a partner,
/// caring for family, moving (or, in an emergency, fleeing), defending the town. An NPC
/// that is dead or outside the world has none.
pub open spec fn available_actions_spec(npc: Npc, situation: Situation) -> Seq<Action> {
    if !npc.active() {
        Seq::empty()
    } else {
        let emergency = situation.emergency();
        let people = situation.people@;
        when(situation.has_work && !emergency, Action::Work) + seq![Action::Rest] + when(
            situation.socializing_allowed && !emergency && !situation.disease_outbreak,
            Action::Socialize,
        ) + help_targets(people, npc.id).map_values(|id: NpcId| Action::HelpPerson(id)) + avoid_targets(
            people,
            npc.id,
        ).map_values(|id: NpcId| Action::AvoidPerson(id)) + when(
            npc.adult() && npc.partner is None && has_partner_candidate(people, npc.id) && !emergency
                && !situation.disease_outbreak,
            Action::SeekPartner,
        ) + when(situation.family_needs_care, Action::CareForFamily) + (if situation.can_move && !emergency {
            destinations(situation.move_candidates@, npc.town, false).map_values(|town: TownId| Action::MoveTown(town))
        } else {
            Seq::empty()
        }) + (if situation.can_move && emergency {
            destinations(situation.move_candidates@, npc.town, true).map_values(|town: TownId| Action::FleeTown(town))
        } else {
            Seq::empty()
        }) + when(situation.at_war && situation.can_defend_town && npc.adult(), Action::DefendTown)
    }
}

/// An action that names no person and no town.
pub open spec fn names_no_one(action: Action) -> bool {
    match action {
        Action::HelpPerson(_) | Action::AvoidPerson(_) | Action::MoveTown(_) | Action::FleeTown(_) => false,
        _ => true,
    }
}

proof fn lemma_contains_concat(a: Seq<Action>, b: Seq<Action>, x: Action)
    ensures
        (a + b).contains(x) <==> a.contains(x) || b.contains(x),
{
    if (a + b).contains(x) {
        let k = choose|k: int| 0 <= k < (a + b).len() && (a + b)[k] == x;
        if k < a.len() {
            assert(a[k] == x);
        } else {
            assert(b[k - a.len()] == x);
        }
    }
    if a.contains(x) {
        let k = choose|k: int| 0 <= k < a.len() && a[k] == x;
        assert((a + b)[k] == x);
    }
    if b.contains(x) {
        let k = choose|k: int| 0 <= k < b.len() && b[k] == x;
        assert((a + b)[a.len() + k] == x);
    }
}

proof fn lemma_when_contains(condition: bool, offered: Action, x: Action)
    ensures
        (when(condition, offered)).contains(x) <==> condition && x == offered,
{
    if condition {
        assert(when(condition, offered)[0] == offered);
    }
}

/// Which of the actions that name no one an NPC is offered: none when it is dead or out of
/// the world; otherwise rest always, work where there is work and no emergency,
/// socializing where it is allowed, there is no emergency and no outbreak, seeking a
/// partner for a single adult with a candidate around and neither emergency nor outbreak,
/// caring for family where family needs care, and defending the town for an adult who can
/// while the town is at war.
pub proof fn law_offered_actions(npc: Npc, situation: Situation, action: Action)
    requires
        names_no_one(action),
    ensures
        available_actions_spec(npc, situation).contains(action) <==> npc.active() && match action {
            Action::Work => situation.has_work && !situation.emergency(),
            Action::Rest => true,
            Action::Socialize => situation.socializing_allowed && !situation.emergency() && !situation.disease_outbreak,
            Action::SeekPartner => npc.adult() && npc.partner is None && has_partner_candidate(situation.people@, npc.id)
                && !situation.emergency() && !situation.disease_outbreak,
            Action::CareForFamily => situation.family_needs_care,
            Action::DefendTown => situation.at_war && situation.can_defend_town && npc.adult(),
            _ => false,
        },
{
    if npc.active() {
        let emergency = situation.emergency();
        let people = situation.people@;
        let work = when(situation.has_work && !emergency, Action::Work);
        let rest = seq![Action::Rest];
        let social = when(situation.socializing_allowed && !emergency && !situation.disease_outbreak, Action::Socialize);
        let help = help_targets(people, npc.id).map_values(|id: NpcId| Action::HelpPerson(id));
        let avoid = avoid_targets(people, npc.id).map_values(|id: NpcId| Action::AvoidPerson(id));
        let seek = when(
            npc.adult() && npc.partner is None && has_partner_candidate(people, npc.id) && !emergency
                && !situation.disease_outbreak,
            Action::SeekPartner,
        );
        let care = when(situation.family_needs_care, Action::CareForFamily);
        let moves = if situation.can_move && !emergency {
            destinations(situation.move_candidates@, npc.town, false).map_values(|town: TownId| Action::MoveTown(town))
        } else {
            Seq::empty()
        };
        let flees = if situation.can_move && emergency {
            destinations(situation.move_candidates@, npc.town, true).map_values(|town: TownId| Action::FleeTown(town))
        } else {
            Seq::empty()
        };
        let defend = when(situation.at_war && situation.can_defend_town && npc.adult(), Action::DefendTown);
        assert(available_actions_spec(npc, situation) == work + rest + social + help + avoid + seek + care + moves + flees
            + defend);
        lemma_when_contains(situation.has_work && !emergency, Action::Work, action);
        assert(rest.contains(action) <==> action == Action::Rest) by {
            assert(rest[0] == Action::Rest);
        }
        lemma_when_contains(situation.socializing_allowed && !emergency && !situation.disease_outbreak, Action::Socialize, action);
        lemma_when_contains(
            npc.adult() && npc.partner is None && has_partner_candidate(people, npc.id) && !emergency
                && !situation.disease_outbreak,
            Action::SeekPartner,
            action,
        );
        lemma_when_contains(situation.family_needs_care, Action::CareForFamily, action);
        lemma_when_contains(situation.at_war && situation.can_defend_town && npc.adult(), Action::DefendTown, action);
        if help.contains(action) {
            let k = choose|k: int| 0 <= k < help.len() && help[k] == action;
            assert(help[k] == Action::HelpPerson(help_targets(people, npc.id)[k]));
        }
        if avoid.contains(action) {
            let k = choose|k: int| 0 <= k < avoid.len() && avoid[k] == action;
            assert(avoid[k] == Action::AvoidPerson(avoid_targets(people, npc.id)[k]));
        }
        if moves.contains(action) {
            let k = choose|k: int| 0 <= k < moves.len() && moves[k] == action;
            assert(moves[k] == Action::MoveTown(destinations(situation.move_candidates@, npc.town, false)[k]));
        }
        if flees.contains(action) {
            let k = choose|k: int| 0 <= k < flees.len() && flees[k] == action;
            assert(flees[k] == Action::FleeTown(destinations(situation.move_candidates@, npc.town, true)[k]));
        }
        lemma_contains_concat(work, rest, action);
        lemma_contains_concat(work + rest, social, action);
        lemma_contains_concat(work + rest + social, help, action);
        lemma_contains_concat(work + rest + social + help, avoid, action);
        lemma_contains_concat(work + rest + social + help + avoid, seek, action);
        lemma_contains_concat(work + rest + social + help + avoid + seek, care, action);
        lemma_contains_concat(work + rest + social + help + avoid + seek + care, moves, action);
        lemma_contains_concat(work + rest + social + help + avoid + seek + care + moves, flees, action);
        lemma_contains_concat(work + rest + social + help + avoid + seek + care + moves + flees, defend, action);
    } else {
        assert(available_actions_spec(npc, situation) =~= Seq::<Action>::empty());
    }
}

/// Only adults defend their town: an NPC is offered to defend its town exactly when it is
/// active, an adult, its town is at war and it can defend it; a child never is.
pub proof fn law_only_adults_defend(npc: Npc, situation: Situation)
    ensures
        available_actions_spec(npc, situation).contains(Action::DefendTown) <==> (npc.active() && npc.adult()
            && situation.at_war && situation.can_defend_town),
        !npc.adult() ==> !available_actions_spec(npc, situation).contains(Action::DefendTown),
{
    law_offered_actions(npc, situation, Action::DefendTown);
}

fn contains_npc(ids: &Vec<NpcId>, id: NpcId) -> (found: bool)
    ensures
        found == ids@.contains(id),
{
    let mut i: usize = 0;
    while i < ids.len()
        invariant
            i <= ids@.len(),
            forall|j: int| 0 <= j < i ==> (#[trigger] ids@[j]) != id,
        decreases ids.len() - i,
    {
        if ids[i] == id {
            return true;
        }
        i = i + 1;
    }
    false
}

fn contains_town(ids: &Vec<TownId>, id: TownId) -> (found: bool)
    ensures
        found == ids@.contains(id),
{
    let mut i: usize = 0;
    while i < ids.len()
        invariant
            i <= ids@.len(),
            forall|j: int| 0 <= j < i ==> (#[trigger] ids@[j]) != id,
        decreases ids.len() - i,
    {
        if ids[i] == id {
            return true;
        }
        i = i + 1;
    }
    false
}

fn push_all_help(actions: &mut Vec<Action>, people: &Vec<PersonCandidate>, own: NpcId)
    ensures
        final(actions)@ == old(actions)@ + help_targets(people@, own).map_values(|id: NpcId| Action::HelpPerson(id)),
{
    let mut targets: Vec<NpcId> = Vec::new();
    let mut i: usize = 0;
    while i < people.len()
        invariant
            i <= people@.len(),
            targets@ == help_targets(people@.take(i as int), own),
            actions@ == old(actions)@ + targets@.map_values(|id: NpcId| Action::HelpPerson(id)),
        decreases people.len() - i,
    {
        let person = people[i];
        proof {
            assert(people@.take(i + 1).drop_last() =~= people@.take(i as int));
            assert(people@.take(i + 1).last() == person);
        }
        if person.npc != own && person.reachable && person.needs_help && !contains_npc(&targets, person.npc) {
            targets.push(person.npc);
            actions.push(Action::HelpPerson(person.npc));
            proof {
                assert(actions@ =~= old(actions)@ + targets@.map_values(|id: NpcId| Action::HelpPerson(id)));
            }
        }
        i = i + 1;
    }
    proof {
        assert(people@.take(people@.len() as int) =~= people@);
    }
}

fn push_all_avoid(actions: &mut Vec<Action>, people: &Vec<PersonCandidate>, own: NpcId)
    ensures
        final(actions)@ == old(actions)@ + avoid_targets(people@, own).map_values(|id: NpcId| Action::AvoidPerson(id)),
{
    let mut targets: Vec<NpcId> = Vec::new();
    let mut i: usize = 0;
    while i < people.len()
        invariant
            i <= people@.len(),
            targets@ == avoid_targets(people@.take(i as int), own),
            actions@ == old(actions)@ + targets@.map_values(|id: NpcId| Action::AvoidPerson(id)),
        decreases people.len() - i,
    {
        let person = people[i];
        proof {
            assert(people@.take(i + 1).drop_last() =~= people@.take(i as int));
            assert(people@.take(i + 1).last() == person);
        }
        if person.npc != own && person.reachable && (person.is_threat || clamp_situation_value(person.relation) <= 4)
            && !contains_npc(&targets, person.npc) {
            targets.push(person.npc);
            actions.push(Action::AvoidPerson(person.npc));
            proof {
                assert(actions@ =~= old(actions)@ + targets@.map_values(|id: NpcId| Action::AvoidPerson(id)));
            }
        }
        i = i + 1;
    }
    proof {
        assert(people@.take(people@.len() as int) =~= people@);
    }
}

fn push_all_destinations(actions: &mut Vec<Action>, candidates: &Vec<MoveCandidate>, current: TownId, fleeing: bool)
    ensures
        !fleeing ==> final(actions)@ == old(actions)@ + destinations(candidates@, current, false).map_values(
            |town: TownId| Action::MoveTown(town),
        ),
        fleeing ==> final(actions)@ == old(actions)@ + destinations(candidates@, current, true).map_values(
            |town: TownId| Action::FleeTown(town),
        ),
{
    let mut towns: Vec<TownId> = Vec::new();
    let mut i: usize = 0;
    while i < candidates.len()
        invariant
            i <= candidates@.len(),
            towns@ == destinations(candidates@.take(i as int), current, fleeing),
            !fleeing ==> actions@ == old(actions)@ + towns@.map_values(|town: TownId| Action::MoveTown(town)),
            fleeing ==> actions@ == old(actions)@ + towns@.map_values(|town: TownId| Action::FleeTown(town)),
        decreases candidates.len() - i,
    {
        let candidate = candidates[i];
        proof {
            assert(candidates@.take(i + 1).drop_last() =~= candidates@.take(i as int));
            assert(candidates@.take(i + 1).last() == candidate);
        }
        if candidate.town != current && (!fleeing || candidate.safe_for_fleeing) && !contains_town(&towns, candidate.town) {
            towns.push(candidate.town);
            if fleeing {
                actions.push(Action::FleeTown(candidate.town));
            } else {
                actions.push(Action::MoveTown(candidate.town));
            }
            proof {
                if fleeing {
                    assert(actions@ =~= old(actions)@ + towns@.map_values(|town: TownId| Action::FleeTown(town)));
                } else {
                    assert(actions@ =~= old(actions)@ + towns@.map_values(|town: TownId| Action::MoveTown(town)));
                }
            }
        }
        i = i + 1;
    }
    proof {
        assert(candidates@.take(candidates@.len() as int) =~= candidates@);
    }
}

fn any_partner_candidate(people: &Vec<PersonCandidate>, own: NpcId) -> (found: bool)
    ensures
        found == has_partner_candidate(people@, own),
{
    let mut i: usize = 0;
    while i < people.len()
        invariant
            i <= people@.len(),
            forall|j: int| 0 <= j < i ==> !((#[trigger] people@[j]).npc != own && people@[j].reachable
                && people@[j].partner_eligible),
        decreases people.len() - i,
    {
        let person = people[i];
        if person.npc != own && person.reachable && person.partner_eligible {
            return true;
        }
        i = i + 1;
    }
    false
}

/// The actions open to the NPC, found before any scoring, in a fixed order of categories
/// and candidate order.
pub fn available_actions(npc: &Npc, situation: &Situation) -> (actions: Vec<Action>)
    ensures
        actions@ == available_actions_spec(*npc, *situation),
{
    let mut actions: Vec<Action> = Vec::new();
    if !npc.is_active() {
        return actions;
    }
    let emergency = situation.is_emergency();
    if situation.has_work && !emergency {
        actions.push(Action::Work);
    }
    actions.push(Action::Rest);
    if situation.socializing_allowed && !emergency && !situation.disease_outbreak {
        actions.push(Action::Socialize);
    }
    let ghost head = actions@;
    push_all_help(&mut actions, &situation.people, npc.id);
    push_all_avoid(&mut actions, &situation.people, npc.id);
    let ghost middle = actions@;
    if npc.is_adult() && npc.partner.is_none() && any_partner_candidate(&situation.people, npc.id) && !emergency
        && !situation.disease_outbreak {
        actions.push(Action::SeekPartner);
    }
    if situation.family_needs_care {
        actions.push(Action::CareForFamily);
    }
    let ghost before_moves = actions@;
    if situation.can_move && !emergency {
        push_all_destinations(&mut actions, &situation.move_candidates, npc.town, false);
    }
    if situation.can_move && emergency {
        push_all_destinations(&mut actions, &situation.move_candidates, npc.town, true);
    }
    if situation.at_war && situation.can_defend_town && npc.is_adult() {
        actions.push(Action::DefendTown);
    }
    proof {
        assert(actions@ =~= available_actions_spec(*npc, *situation));
    }
    actions
}

/// Whether the action is among the available ones.
pub fn is_action_available(npc: &Npc, situation: &Situation, action: Action) -> (available: bool)
    ensures
        available == available_actions_spec(*npc, *situation).contains(action),
{
    let actions = available_actions(npc, situation);
    let mut i: usize = 0;
    while i < actions.len()
        invariant
            actions@ == available_actions_spec(*npc, *situation),
            i <= actions@.len(),
            forall|j: int| 0 <= j < i ==> (#[trigger] actions@[j]) != action,
        decreases actions.len() - i,
    {
        if actions[i] == action {
            proof {
                assert(actions@[i as int] == action);
            }
            return true;
        }
        i = i + 1;
    }
    false
}

/// The NPC's relationships as person candidates, ascending by id, so that ties in the
/// utility scores never depend on a walk order.
pub fn sorted_relationship_candidates(npc: &Npc) -> (candidates: Vec<PersonCandidate>)
    ensures
        candidates@.len() == npc.relationships.key_order().len(),
        forall|i: int| 0 <= i < candidates@.len() ==> #[trigger] candidates@[i] == (PersonCandidate {
            npc: npc.relationships.key_order()[i],
            relation: clamped_situation_value(npc.relationships@[npc.relationships.key_order()[i]].relation),
            danger: 0,
            is_family: npc.relationships@[npc.relationships.key_order()[i]].kind == RelationshipKind::Family
                || npc.relationships@[npc.relationships.key_order()[i]].kind == RelationshipKind::Partner,
            is_outsider: false,
            needs_help: false,
            is_threat: npc.relationships@[npc.relationships.key_order()[i]].kind == RelationshipKind::Rival
                || npc.relationships@[npc.relationships.key_order()[i]].kind == RelationshipKind::Enemy,
            reachable: true,
            partner_eligible: false,
        }),
{
    let entries = npc.relationships.entries();
    let mut candidates: Vec<PersonCandidate> = Vec::new();
    let mut i: usize = 0;
    while i < entries.len()
        invariant
            i <= entries@.len(),
            entries@.len() == npc.relationships.key_order().len(),
            forall|j: int| 0 <= j < entries@.len() ==> (#[trigger] entries@[j]).0 == npc.relationships.key_order()[j]
                && npc.relationships@.contains_key(entries@[j].0) && entries@[j].1 == npc.relationships@[entries@[j].0],
            candidates@.len() == i,
            forall|j: int| 0 <= j < i ==> #[trigger] candidates@[j] == (PersonCandidate {
                npc: npc.relationships.key_order()[j],
                relation: clamped_situation_value(npc.relationships@[npc.relationships.key_order()[j]].relation),
                danger: 0,
                is_family: npc.relationships@[npc.relationships.key_order()[j]].kind == RelationshipKind::Family
                    || npc.relationships@[npc.relationships.key_order()[j]].kind == RelationshipKind::Partner,
                is_outsider: false,
                needs_help: false,
                is_threat: npc.relationships@[npc.relationships.key_order()[j]].kind == RelationshipKind::Rival
                    || npc.relationships@[npc.relationships.key_order()[j]].kind == RelationshipKind::Enemy,
                reachable: true,
                partner_eligible: false,
            }),
        decreases entries.len() - i,
    {
        let (id, relationship) = entries[i];
        candidates.push(PersonCandidate::from_relationship(id, &relationship));
        i = i + 1;
    }
    candidates
}

} // verus!
