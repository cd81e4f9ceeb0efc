use npc_system::belief::Belief;
use npc_system::goal::{Goal, GoalKind};
use npc_system::id::{NpcId, TownId};
use npc_system::npc::{Attributes, Npc, Sex};
use npc_system::relationship::Relationship;
use npc_system::utility::{available_actions, sorted_relationship_candidates, Action, MoveCandidate, PersonCandidate, Situation};

fn npc_with(beliefs: Vec<Belief>, goal: GoalKind) -> Npc {
    Npc::with_default_name(NpcId(1), 30, Sex::Female, TownId(1), TownId(1), Attributes::uniform(5), beliefs, Goal::new(goal, 0))
}

fn move_candidate(town: TownId, attractiveness: f32, distance: u8) -> MoveCandidate {
    MoveCandidate {
        town,
        attractiveness_bits: attractiveness.to_bits(),
        distance,
        known_people: 0,
        belief_compatibility_bits: 0.0f32.to_bits(),
        family_separation_penalty_bits: 0.0f32.to_bits(),
        moving_cost_bits: 0.0f32.to_bits(),
        safe_for_fleeing: true,
    }
}

#[test]
fn war_replaces_work_with_defence() {
    let npc = npc_with(vec![], GoalKind::BecomeSkilled);
    let peaceful = Situation::default();
    assert!(available_actions(&npc, &peaceful).contains(&Action::Work));

    let war = Situation { at_war: true, danger: 6, ..Situation::default() };
    assert!(!available_actions(&npc, &war).contains(&Action::Work));
    assert!(available_actions(&npc, &war).contains(&Action::DefendTown));
}

#[test]
fn duplicate_candidates_do_not_duplicate_actions() {
    let npc = npc_with(vec![], GoalKind::Survive);
    let situation = Situation {
        people: vec![
            PersonCandidate::new(NpcId(2), 2).needing_help(1),
            PersonCandidate::new(NpcId(2), 2).needing_help(1),
        ],
        move_candidates: vec![move_candidate(TownId(2), 8.0, 2), move_candidate(TownId(2), 8.0, 2)],
        ..Situation::default()
    };
    let actions = available_actions(&npc, &situation);
    assert_eq!(actions.iter().filter(|action| **action == Action::HelpPerson(NpcId(2))).count(), 1);
    assert_eq!(actions.iter().filter(|action| **action == Action::MoveTown(TownId(2))).count(), 1);
}

#[test]
fn emergency_exposes_flee_not_regular_move() {
    let npc = npc_with(vec![], GoalKind::Survive);
    let situation = Situation {
        danger: 9,
        move_candidates: vec![
            move_candidate(TownId(2), 8.0, 2).safe_for_fleeing(true),
            move_candidate(TownId(3), 10.0, 1).safe_for_fleeing(false),
        ],
        ..Situation::default()
    };
    let actions = available_actions(&npc, &situation);
    assert!(actions.contains(&Action::FleeTown(TownId(2))));
    assert!(!actions.contains(&Action::FleeTown(TownId(3))));
    assert!(!actions.iter().any(|action| matches!(action, Action::MoveTown(_))));
}

#[test]
fn departed_npc_has_no_available_action() {
    let mut npc = npc_with(vec![], GoalKind::Survive);
    npc.leave_world();
    assert!(available_actions(&npc, &Situation::default()).is_empty());
}

#[test]
fn relationship_conversion_sorts_ids() {
    let mut npc = npc_with(vec![], GoalKind::Survive);
    for id in [NpcId(9), NpcId(2), NpcId(7)] {
        npc.set_relationship(id, Relationship::default());
    }
    assert_eq!(
        sorted_relationship_candidates(&npc).iter().map(|person| person.npc).collect::<Vec<_>>(),
        vec![NpcId(2), NpcId(7), NpcId(9)]
    );
}

#[test]
fn situation_method_agrees_with_the_free_function() {
    let npc = npc_with(vec![], GoalKind::FindPartner);
    let situation = Situation {
        people: vec![PersonCandidate::new(NpcId(4), 6).eligible_partner()],
        ..Situation::default()
    };
    assert_eq!(situation.available_actions(&npc), available_actions(&npc, &situation));
    assert!(available_actions(&npc, &situation).contains(&Action::SeekPartner));
}
