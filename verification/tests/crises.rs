use npc_system::belief::BeliefKind;
use npc_system::crisis::{
    alarm, begin_famine, break_out_disease, end_outbreak_month, infect_town, pick_weighted, start_war, strike_disaster,
};
use npc_system::disaster::FamineEvent;
use npc_system::disease::DiseaseEvent;
use npc_system::event::WorldEvent;
use npc_system::goal::{Goal, GoalKind};
use npc_system::id::{NpcId, TownId};
use npc_system::npc::{Attributes, Npc, NpcState, Sex};
use npc_system::migration::{
    announce_migrations, emigrate_household, mark_scheduled, move_intent, relocate_household, unscheduled_adult,
};
use npc_system::society::{announce_all, log_all};
use npc_system::statistics::YearStatistics;
use npc_system::utility::Action;
use npc_system::town::{Town, TownConnection};
use npc_system::world::World;

fn resident(id: u32, town: u16) -> Npc {
    Npc::with_default_name(
        NpcId(id),
        30,
        Sex::Female,
        TownId(town),
        TownId(town),
        Attributes::uniform(5),
        Vec::new(),
        Goal::new(GoalKind::LivePeacefully, 0),
    )
}

fn three_towns() -> World {
    let mut world = World::empty(21);
    world.year = 10;
    world.towns = vec![
        Town::new(TownId(0), "Alpha".to_string(), 200, 8, 8, 6, 6, 7),
        Town::new(TownId(1), "Beta".to_string(), 200, 8, 6, 6, 6, 7),
        Town::new(TownId(2), "Gamma".to_string(), 200, 8, 6, 6, 6, 7),
    ];
    world.towns[0].add_neighbor(TownConnection::new(TownId(1), 3));
    world.towns[1].add_neighbor(TownConnection::new(TownId(0), 3));
    world.npcs = vec![resident(0, 0), resident(1, 0), resident(2, 1), resident(3, 2)];
    world.rebuild_active_npcs();
    world
}

#[test]
fn alarm_reaches_only_the_listed_npcs() {
    let mut world = three_towns();
    let mut statistics = YearStatistics::new(10, 4, Vec::new());
    alarm(&mut world, &vec![NpcId(1), NpcId(3)], GoalKind::Survive, BeliefKind::HelpOthers, 1, 5, 3, &mut statistics);
    assert_eq!(world.npcs[1].goal.kind, GoalKind::Survive);
    assert_eq!(world.npcs[3].goal.kind, GoalKind::Survive);
    assert_eq!(world.npcs[0].goal.kind, GoalKind::LivePeacefully);
    assert_eq!(world.npcs[2].goal.kind, GoalKind::LivePeacefully);
    assert_eq!(world.npcs[1].beliefs.len(), 1);
    assert_eq!(world.npcs[1].beliefs[0].kind, BeliefKind::HelpOthers);
    assert_eq!(world.npcs[1].beliefs[0].strength, 5);
    assert!(world.npcs[0].beliefs.is_empty());
    assert_eq!(statistics.goal_changes, 2);
    assert_eq!(statistics.belief_changes, 2);
}

#[test]
fn a_disaster_strikes_exactly_one_town_and_alarms_its_residents() {
    let mut world = three_towns();
    let mut statistics = YearStatistics::new(10, 4, Vec::new());
    let severities = strike_disaster(&mut world, 5, 3, &mut statistics);
    assert_eq!(severities.len(), 3);
    let struck: Vec<usize> = (0..3).filter(|&t| severities[t] != 0).collect();
    assert_eq!(struck.len(), 1);
    let t = struck[0];
    let severity = severities[t];
    assert!((1..=10).contains(&severity));
    let damage = world.towns[t].temporary_damage;
    assert_eq!(damage.jobs_loss, severity.div_ceil(3).min(4));
    assert_eq!(damage.safety_loss, severity.div_ceil(2).min(5));
    assert_eq!(damage.capacity_loss, 200 * u32::from(severity) * 3 / 100);
    assert_eq!(damage.remaining_months, 6 + 2 * u16::from(severity));
    for other in (0..3).filter(|&o| o != t) {
        assert!(!world.towns[other].temporary_damage.is_active());
    }
    assert!(world.important_events.contains(&WorldEvent::NaturalDisaster { town: TownId(t as u16) }));
    for npc in &world.npcs {
        let expected = if npc.town.0 as usize == t { GoalKind::Survive } else { GoalKind::LivePeacefully };
        assert_eq!(npc.goal.kind, expected);
    }
}

#[test]
fn a_war_damages_its_towns_and_evacuates_their_residents() {
    let mut world = three_towns();
    let mut statistics = YearStatistics::new(10, 4, Vec::new());
    start_war(&mut world, 5, 3, &mut statistics);
    assert_eq!(world.active_wars.len(), 1);
    let war = world.active_wars[0].clone();
    assert!((2..=10).contains(&war.severity));
    assert!((1..=3).contains(&war.remaining_years));
    assert_eq!(war.towns.len(), 2);
    assert!(war.towns[0].0 < war.towns[1].0);
    let pair = (war.towns[0].0, war.towns[1].0);
    assert!(pair == (0, 1) || pair == (1, 2) || pair == (0, 2), "{pair:?}");
    assert!(world.important_events.contains(&WorldEvent::WarStarted));
    for town in &world.towns {
        assert_eq!(town.temporary_damage.is_active(), war.towns.contains(&town.id));
    }
    for npc in &world.npcs {
        if war.towns.contains(&npc.town) {
            assert_eq!(npc.state, NpcState::Evacuating);
            assert_eq!(npc.goal.kind, GoalKind::ProtectTown);
        } else {
            assert_eq!(npc.state, NpcState::Normal);
            assert_eq!(npc.goal.kind, GoalKind::LivePeacefully);
        }
    }
}

#[test]
fn a_town_without_neighbours_goes_to_war_with_the_next_town() {
    let mut world = World::empty(3);
    world.towns = vec![
        Town::new(TownId(0), "Alpha".to_string(), 100, 5, 5, 5, 5, 5),
        Town::new(TownId(1), "Beta".to_string(), 100, 5, 5, 5, 5, 5),
    ];
    let mut statistics = YearStatistics::new(0, 0, Vec::new());
    start_war(&mut world, 5, 3, &mut statistics);
    assert_eq!(world.active_wars[0].towns, vec![TownId(0), TownId(1)]);
}

#[test]
fn outbreaks_lose_a_month_and_ended_famines_are_logged() {
    let mut world = three_towns();
    world.active_diseases = vec![DiseaseEvent::new(5, TownId(0), 1), DiseaseEvent::new(5, TownId(1), 4)];
    world.active_famines = vec![
        FamineEvent::new(TownId(2), 4, 1),
        FamineEvent::new(TownId(0), 4, 3),
        FamineEvent::new(TownId(1), 4, 1),
    ];
    let ended = end_outbreak_month(&mut world);
    assert_eq!(ended, vec![TownId(2), TownId(1)]);
    assert_eq!(world.active_diseases.len(), 1);
    assert_eq!(world.active_diseases[0].remaining_months, 3);
    assert!(world.active_diseases[0].is_infected(TownId(1)));
    assert_eq!(world.active_famines, vec![FamineEvent::new(TownId(0), 4, 2)]);
    let n = world.important_events.len();
    assert_eq!(
        world.important_events[n - 2..].to_vec(),
        vec![WorldEvent::FamineEnded { town: TownId(2) }, WorldEvent::FamineEnded { town: TownId(1) }]
    );
}

fn family_world() -> World {
    let mut world = three_towns();
    let mut parent_a = resident(0, 0);
    let mut parent_b = resident(1, 0);
    let mut minor = resident(4, 0);
    minor.age = 9;
    assert!(parent_a.set_partner(parent_b.id));
    assert!(parent_b.set_partner(parent_a.id));
    assert!(parent_a.add_child(minor.id));
    assert!(minor.add_parent(parent_a.id));
    world.npcs[0] = parent_a;
    world.npcs[1] = parent_b;
    world.npcs.push(minor);
    world.rebuild_active_npcs();
    world
}

#[test]
fn a_famine_damages_its_town_and_alarms_the_residents() {
    let mut world = three_towns();
    let mut statistics = YearStatistics::new(10, 4, Vec::new());
    let famine = FamineEvent::with_severity(TownId(0), 6);
    begin_famine(&mut world, 0, famine.clone(), 5, 3, &mut statistics);
    assert_eq!(world.active_famines, vec![famine]);
    let damage = world.towns[0].temporary_damage;
    assert_eq!(damage.jobs_loss, 2);
    assert_eq!(damage.safety_loss, 2);
    assert_eq!(damage.remaining_months, 24);
    assert!(!world.towns[1].temporary_damage.is_active());
    assert!(world.important_events.contains(&WorldEvent::FamineStarted { town: TownId(0) }));
    assert_eq!(world.npcs[0].goal.kind, GoalKind::Survive);
    assert_eq!(world.npcs[1].beliefs[0].kind, BeliefKind::ProtectFamily);
    assert_eq!(world.npcs[2].goal.kind, GoalKind::LivePeacefully);
}

#[test]
fn a_disease_breaks_out_in_the_chosen_town() {
    let mut world = three_towns();
    let mut statistics = YearStatistics::new(10, 4, Vec::new());
    break_out_disease(&mut world, 1, 5, 3, &mut statistics);
    assert_eq!(world.active_diseases.len(), 1);
    let disease = &world.active_diseases[0];
    assert_eq!(disease.infected_towns, vec![TownId(1)]);
    assert!((2..=10).contains(&disease.severity));
    assert!((6..=24).contains(&disease.remaining_months));
    let damage = world.towns[1].temporary_damage;
    assert_eq!(damage.jobs_loss, disease.severity.div_ceil(3));
    assert_eq!(damage.remaining_months, u16::from(disease.remaining_months));
    assert!(world.important_events.contains(&WorldEvent::DiseaseOutbreak));
    assert_eq!(world.npcs[2].goal.kind, GoalKind::Survive);
    assert_eq!(world.npcs[0].goal.kind, GoalKind::LivePeacefully);
}

#[test]
fn a_weighted_draw_falls_on_the_first_weight_it_does_not_pass() {
    let weights = vec![3, 0, 5, 2];
    assert_eq!(pick_weighted(&weights, 0), 0);
    assert_eq!(pick_weighted(&weights, 2), 0);
    assert_eq!(pick_weighted(&weights, 3), 2);
    assert_eq!(pick_weighted(&weights, 7), 2);
    assert_eq!(pick_weighted(&weights, 8), 3);
    assert_eq!(pick_weighted(&weights, 10), 0);
    assert_eq!(pick_weighted(&Vec::new(), 4), 0);
}

#[test]
fn an_infected_town_takes_the_damage_of_the_disease() {
    let mut world = three_towns();
    let mut statistics = YearStatistics::new(10, 4, Vec::new());
    world.active_diseases = vec![DiseaseEvent::new(7, TownId(0), 9)];
    infect_town(&mut world, 0, TownId(2), 5, 3, &mut statistics);
    assert_eq!(world.active_diseases[0].infected_towns, vec![TownId(0), TownId(2)]);
    assert_eq!(world.active_diseases[0].remaining_months, 9);
    let damage = world.towns[2].temporary_damage;
    assert_eq!(damage.jobs_loss, 3);
    assert_eq!(damage.remaining_months, 9);
    assert!(!world.towns[0].temporary_damage.is_active());
    assert_eq!(world.npcs[3].goal.kind, GoalKind::Survive);
    assert_eq!(world.npcs[3].beliefs[0].kind, BeliefKind::HelpOthers);
    assert_eq!(world.npcs[0].goal.kind, GoalKind::LivePeacefully);
}

#[test]
fn only_unscheduled_adults_are_weighed_for_moving() {
    let world = family_world();
    let mut scheduled = vec![false; world.npcs.len()];
    assert!(unscheduled_adult(&world, &scheduled, NpcId(0)));
    assert!(!unscheduled_adult(&world, &scheduled, NpcId(4)));
    assert!(!unscheduled_adult(&world, &scheduled, NpcId(9)));
    mark_scheduled(&mut scheduled, &vec![NpcId(0), NpcId(9)]);
    assert_eq!(scheduled, vec![true, false, false, false, false]);
    assert!(!unscheduled_adult(&world, &scheduled, NpcId(0)));
}

#[test]
fn an_emigrating_household_leaves_together() {
    let mut world = family_world();
    let mut statistics = YearStatistics::new(10, 5, Vec::new());
    let mut scheduled = vec![false; world.npcs.len()];
    let left = emigrate_household(&mut world, NpcId(0), &mut scheduled, &mut statistics);
    assert_eq!(left, vec![NpcId(0), NpcId(1), NpcId(4)]);
    assert_eq!(scheduled, vec![true, true, false, false, true]);
    for id in [0, 1, 4] {
        assert!(!world.npcs[id].in_world);
    }
    assert!(world.npcs[2].in_world);
    assert_eq!(statistics.external_emigration, 3);
    let n = world.important_events.len();
    assert_eq!(world.important_events[n - 1], WorldEvent::ExternalEmigration { npc: NpcId(4), from: TownId(0) });
}

#[test]
fn move_intents_come_from_move_and_flee_actions() {
    assert_eq!(move_intent(Some(Action::MoveTown(TownId(3)))), Some((TownId(3), false)));
    assert_eq!(move_intent(Some(Action::FleeTown(TownId(1)))), Some((TownId(1), true)));
    assert_eq!(move_intent(Some(Action::Work)), None);
    assert_eq!(move_intent(None), None);
}

#[test]
fn a_relocated_household_is_scheduled_moved_and_logged() {
    let mut world = family_world();
    let mut statistics = YearStatistics::new(10, 5, Vec::new());
    let mut scheduled = vec![false; world.npcs.len()];
    assert!(relocate_household(&mut world, NpcId(0), TownId(0), &mut scheduled).is_empty());
    assert!(relocate_household(&mut world, NpcId(0), TownId(7), &mut scheduled).is_empty());
    assert_eq!(scheduled, vec![false; 5]);
    let moved = relocate_household(&mut world, NpcId(0), TownId(2), &mut scheduled);
    assert_eq!(moved, vec![NpcId(0), NpcId(1), NpcId(4)]);
    assert_eq!(scheduled, vec![true, true, false, false, true]);
    assert_eq!(world.npcs[4].town, TownId(2));
    assert_eq!(world.npcs[2].town, TownId(1));
    announce_migrations(&mut world, &mut statistics, &moved, TownId(0), TownId(2));
    assert_eq!(statistics.internal_migrations, 3);
    let n = world.important_events.len();
    assert_eq!(world.important_events[n - 3], WorldEvent::Migration { npc: NpcId(0), from: TownId(0), to: TownId(2) });
}

#[test]
fn batches_of_events_are_logged_in_order() {
    let mut world = three_towns();
    world.capture_year_events = true;
    world.month = 4;
    let events = vec![WorldEvent::WarStarted, WorldEvent::DiseaseOutbreak];
    log_all(&mut world, &events);
    assert_eq!(world.important_events, events);
    assert_eq!(world.year_events.len(), 2);
    assert_eq!(world.year_events[1].month, 4);
    let mut statistics = YearStatistics::new(10, 4, Vec::new());
    announce_all(&mut world, &mut statistics, &vec![WorldEvent::Birth { npc: NpcId(0) }]);
    assert_eq!(statistics.births, 1);
    assert_eq!(world.important_events.len(), 3);
}
