use npc_system::belief::{Belief, BeliefKind};
use npc_system::config::RelationshipDecayConfig;
use npc_system::event::{DeathCause, TimedWorldEvent, WorldEvent};
use npc_system::goal::{Goal, GoalKind};
use npc_system::id::{NpcId, TownId};
use npc_system::npc::{Attributes, Npc, NpcState, Sex};
use npc_system::relationship::{Relationship, RelationshipKind};
use npc_system::society::{
    affinity_between, are_close_relatives, avoid_self, calculate_affinity, change_belief, change_goal, choose_partner,
    commit_deaths, eligible_partners, enforce_relationship_limit, form_partnership, known_people_in, local_choice, meet,
    nearby_people, social_delta, suggest_goal, update_relationship_kind,
};
use npc_system::statistics::YearStatistics;
use npc_system::timeline::{at_time, closes_period, status_due, PeriodSummary, TownYearEntry};
use npc_system::town::Town;
use npc_system::utility::Action;
use npc_system::war::WarEvent;
use npc_system::world::World;
use npc_system::yearly::{
    check_population_balance, check_simulation_size, expecting_partner, forget_relationships, next_year,
    outcome_state, progress_wars, SimulationError,
};

fn person(id: u32, age: u8, sex: Sex, town: u16, beliefs: Vec<Belief>) -> Npc {
    Npc::with_default_name(
        NpcId(id),
        age,
        sex,
        TownId(town),
        TownId(town),
        Attributes::uniform(5),
        beliefs,
        Goal::new(GoalKind::LivePeacefully, 0),
    )
}

fn small_world(npcs: Vec<Npc>) -> World {
    let mut world = World::empty(9);
    world.towns = vec![
        Town::new(TownId(0), "Alpha".to_string(), 100, 8, 8, 6, 6, 7),
        Town::new(TownId(1), "Beta".to_string(), 100, 8, 2, 6, 6, 7),
    ];
    world.npcs = npcs;
    world.rebuild_active_npcs();
    world
}

#[test]
fn relationship_kind_follows_relation_unless_permanent() {
    let mut close = Relationship::with_relation(5, 9, RelationshipKind::Acquaintance, 0, 1);
    update_relationship_kind(&mut close);
    assert_eq!(close.kind, RelationshipKind::CloseFriend);
    let mut enemy = Relationship::with_relation(5, 1, RelationshipKind::Friend, 0, 1);
    update_relationship_kind(&mut enemy);
    assert_eq!(enemy.kind, RelationshipKind::Enemy);
    let mut rival = Relationship::with_relation(5, 3, RelationshipKind::Friend, 0, 1);
    update_relationship_kind(&mut rival);
    assert_eq!(rival.kind, RelationshipKind::Rival);
    let mut friend = Relationship::with_relation(5, 8, RelationshipKind::Acquaintance, 0, 1);
    update_relationship_kind(&mut friend);
    assert_eq!(friend.kind, RelationshipKind::Friend);
    let mut middle = Relationship::with_relation(5, 6, RelationshipKind::Enemy, 0, 1);
    update_relationship_kind(&mut middle);
    assert_eq!(middle.kind, RelationshipKind::Acquaintance);
    let mut family = Relationship::with_relation(5, 0, RelationshipKind::Family, 0, 1);
    update_relationship_kind(&mut family);
    assert_eq!(family.kind, RelationshipKind::Family);
}

#[test]
fn siblings_and_parents_are_close_relatives() {
    let mut parent = person(0, 50, Sex::Female, 0, Vec::new());
    let mut first = person(1, 25, Sex::Male, 0, Vec::new());
    let mut second = person(2, 24, Sex::Female, 0, Vec::new());
    let stranger = person(3, 26, Sex::Female, 0, Vec::new());
    parent.add_child(first.id);
    parent.add_child(second.id);
    first.add_parent(parent.id);
    second.add_parent(parent.id);
    assert!(are_close_relatives(&first, &second));
    assert!(are_close_relatives(&parent, &first));
    assert!(!are_close_relatives(&first, &stranger));
    assert!(!eligible_partners(&first, &second));
    assert!(eligible_partners(&first, &stranger));
    let old = person(4, 60, Sex::Female, 0, Vec::new());
    assert!(!eligible_partners(&first, &old));
}

#[test]
fn affinity_counts_shared_beliefs_and_charisma_gap() {
    let mut a = person(0, 30, Sex::Male, 0, vec![
        Belief::new(BeliefKind::HelpOthers, 5),
        Belief::new(BeliefKind::ValueOrder, 5),
    ]);
    let mut b = person(1, 30, Sex::Female, 0, vec![
        Belief::new(BeliefKind::ValueOrder, 2),
        Belief::new(BeliefKind::HelpOthers, 9),
    ]);
    assert_eq!(affinity_between(&a, &b), 7);
    a.attributes.charisma = 10;
    b.attributes.charisma = 1;
    assert_eq!(affinity_between(&a, &b), 5);
    let world = small_world(vec![a, b]);
    assert_eq!(calculate_affinity(&world, NpcId(0), NpcId(1)), 5);
    assert_eq!(calculate_affinity(&world, NpcId(0), NpcId(7)), 5);
}

#[test]
fn goals_follow_danger_age_and_family() {
    let child = person(0, 10, Sex::Male, 0, Vec::new());
    let single = person(1, 30, Sex::Female, 0, Vec::new());
    let endangered = person(2, 30, Sex::Female, 1, Vec::new());
    let mut elder = person(3, 70, Sex::Male, 0, Vec::new());
    elder.set_partner(NpcId(9));
    let mut scholar = person(4, 40, Sex::Male, 0, vec![Belief::new(BeliefKind::ValueKnowledge, 8)]);
    scholar.set_partner(NpcId(9));
    let world = small_world(vec![child, single, endangered, elder, scholar]);
    assert_eq!(suggest_goal(&world, NpcId(0)), GoalKind::BecomeSkilled);
    assert_eq!(suggest_goal(&world, NpcId(1)), GoalKind::FindPartner);
    assert_eq!(suggest_goal(&world, NpcId(2)), GoalKind::Survive);
    assert_eq!(suggest_goal(&world, NpcId(3)), GoalKind::LivePeacefully);
    assert_eq!(suggest_goal(&world, NpcId(4)), GoalKind::SeekKnowledge);
    assert_eq!(suggest_goal(&world, NpcId(40)), GoalKind::Survive);
}

#[test]
fn goal_changes_are_counted_and_logged() {
    let mut world = small_world(vec![person(0, 30, Sex::Male, 0, Vec::new())]);
    world.year = 1;
    let mut statistics = YearStatistics::new(1, 1, vec![1]);
    assert!(!change_goal(&mut world, NpcId(0), GoalKind::GainWealth, false, 3, &mut statistics));
    assert!(change_goal(&mut world, NpcId(0), GoalKind::GainWealth, true, 3, &mut statistics));
    assert_eq!(world.npcs[0].goal.kind, GoalKind::GainWealth);
    assert_eq!(world.npcs[0].goal.since_year, 1);
    assert_eq!(statistics.goal_changes, 1);
    assert_eq!(
        world.important_events,
        vec![WorldEvent::GoalChanged { npc: NpcId(0), old: GoalKind::LivePeacefully, new: GoalKind::GainWealth }]
    );
}

#[test]
fn beliefs_are_strengthened_or_taken_up() {
    let mut world = small_world(vec![person(0, 30, Sex::Male, 0, vec![Belief::new(BeliefKind::HelpOthers, 9)])]);
    let mut statistics = YearStatistics::new(1, 1, vec![1]);
    assert!(change_belief(&mut world, NpcId(0), BeliefKind::HelpOthers, 2, 3, &mut statistics));
    assert_eq!(world.npcs[0].belief_strength(BeliefKind::HelpOthers), 10);
    assert!(!change_belief(&mut world, NpcId(0), BeliefKind::HelpOthers, 1, 3, &mut statistics));
    assert!(change_belief(&mut world, NpcId(0), BeliefKind::ProtectFamily, 1, 3, &mut statistics));
    assert_eq!(world.npcs[0].belief_strength(BeliefKind::ProtectFamily), 5);
    assert!(!change_belief(&mut world, NpcId(0), BeliefKind::ValueOrder, 1, 2, &mut statistics));
    assert_eq!(statistics.belief_changes, 2);
}

#[test]
fn deaths_release_partners_and_are_counted_once() {
    let mut husband = person(0, 70, Sex::Male, 0, Vec::new());
    let mut wife = person(1, 68, Sex::Female, 0, Vec::new());
    husband.set_partner(wife.id);
    wife.set_partner(husband.id);
    husband.set_relationship(wife.id, Relationship::with_relation(5, 9, RelationshipKind::Partner, 0, 1));
    wife.set_relationship(husband.id, Relationship::with_relation(5, 9, RelationshipKind::Partner, 0, 1));
    let bystander = person(2, 30, Sex::Male, 0, Vec::new());
    let mut world = small_world(vec![husband, wife, bystander]);
    let mut statistics = YearStatistics::new(1, 3, vec![3]);
    let deaths = vec![(NpcId(0), DeathCause::War), (NpcId(0), DeathCause::Natural), (NpcId(9), DeathCause::Disease)];
    commit_deaths(&mut world, &deaths, 3, 3, &mut statistics);
    assert!(!world.npcs[0].alive);
    assert!(world.npcs[1].alive);
    assert_eq!(world.npcs[1].partner, None);
    assert_eq!(world.npcs[1].relationship(NpcId(0)).unwrap().kind, RelationshipKind::Family);
    assert_eq!(world.npcs[1].goal.kind, GoalKind::ProtectFamily);
    assert_eq!(world.npcs[1].belief_strength(BeliefKind::ProtectFamily), 5);
    assert_eq!(world.npcs[2].goal.kind, GoalKind::LivePeacefully);
    assert_eq!(world.npcs[2].belief_strength(BeliefKind::ProtectFamily), 0);
    assert_eq!(statistics.goal_changes, 1);
    assert_eq!(statistics.belief_changes, 1);
    assert_eq!(statistics.deaths, 1);
    assert_eq!(statistics.war_deaths, 1);
    assert_eq!(world.active_npcs, vec![NpcId(1), NpcId(2)]);
    assert!(world.important_events.contains(&WorldEvent::Death { npc: NpcId(0) }));
}

#[test]
fn relationship_limit_drops_weakest_and_keeps_family() {
    let mut hub = person(0, 30, Sex::Male, 0, Vec::new());
    hub.set_relationship(NpcId(1), Relationship::with_relation(5, 2, RelationshipKind::Rival, 3, 1));
    hub.set_relationship(NpcId(2), Relationship::with_relation(5, 2, RelationshipKind::Rival, 1, 1));
    hub.set_relationship(NpcId(3), Relationship::with_relation(5, 0, RelationshipKind::Family, 0, 1));
    hub.set_relationship(NpcId(4), Relationship::with_relation(5, 8, RelationshipKind::Friend, 0, 1));
    let mut first = person(1, 30, Sex::Male, 0, Vec::new());
    first.set_relationship(NpcId(0), Relationship::with_relation(5, 2, RelationshipKind::Rival, 3, 1));
    let mut second = person(2, 30, Sex::Male, 0, Vec::new());
    second.set_relationship(NpcId(0), Relationship::with_relation(5, 2, RelationshipKind::Family, 1, 1));
    let mut world = small_world(vec![hub, first, second, person(3, 60, Sex::Male, 0, Vec::new()), person(4, 30, Sex::Male, 0, Vec::new())]);
    let dropped = enforce_relationship_limit(&mut world, NpcId(0), 2);
    assert_eq!(dropped, vec![NpcId(2), NpcId(1)]);
    assert_eq!(world.npcs[0].relationships.keys(), vec![NpcId(3), NpcId(4)]);
    assert!(world.npcs[1].relationships.is_empty());
    assert!(world.npcs[2].relationship(NpcId(0)).is_some());
    assert_eq!(enforce_relationship_limit(&mut world, NpcId(0), 0), vec![NpcId(4)]);
    assert_eq!(world.npcs[0].relationships.keys(), vec![NpcId(3)]);
}

#[test]
fn social_rolls_move_relations_by_affinity() {
    assert_eq!(social_delta(0, 0), 1);
    assert_eq!(social_delta(2, 0), 1);
    assert_eq!(social_delta(3, 0), 0);
    assert_eq!(social_delta(86, 0), 0);
    assert_eq!(social_delta(87, 0), -1);
    assert_eq!(social_delta(12, 10), 1);
    assert_eq!(social_delta(97, 10), -1);
    assert_eq!(social_delta(96, 10), 0);
}

#[test]
fn encounter_targets_stay_in_town_and_avoid_oneself() {
    let local = vec![NpcId(1), NpcId(4), NpcId(6)];
    assert_eq!(local_choice(&local, Some(NpcId(4))), Some(NpcId(4)));
    assert_eq!(local_choice(&local, Some(NpcId(5))), None);
    assert_eq!(local_choice(&local, None), None);
    assert_eq!(avoid_self(&local, NpcId(4), NpcId(1)), Some(NpcId(4)));
    assert_eq!(avoid_self(&local, NpcId(6), NpcId(6)), Some(NpcId(1)));
    assert_eq!(avoid_self(&vec![NpcId(2)], NpcId(2), NpcId(2)), None);
}

#[test]
fn meeting_creates_relationships_on_both_sides() {
    let mut world = small_world(vec![person(0, 30, Sex::Male, 0, Vec::new()), person(1, 31, Sex::Female, 0, Vec::new())]);
    world.year = 4;
    world.month = 6;
    let mut statistics = YearStatistics::new(4, 2, vec![2]);
    assert_eq!(meet(&mut world, NpcId(0), NpcId(1), 7, 1, &mut statistics), Some(true));
    let forward = world.npcs[0].relationship(NpcId(1)).copied().unwrap();
    let backward = world.npcs[1].relationship(NpcId(0)).copied().unwrap();
    assert_eq!(forward.relation, 6);
    assert_eq!(forward.affinity, 7);
    assert_eq!((forward.last_interaction_year, forward.last_interaction_month), (4, 6));
    assert_eq!(backward.relation, 6);
    assert_eq!(world.important_events, vec![WorldEvent::RelationshipChanged { a: NpcId(0), b: NpcId(1) }]);
    assert_eq!(meet(&mut world, NpcId(0), NpcId(1), 7, 0, &mut statistics), Some(false));
    assert_eq!(meet(&mut world, NpcId(0), NpcId(0), 7, 1, &mut statistics), None);
}

#[test]
fn partners_are_chosen_by_score_and_paired() {
    let seeker = person(0, 30, Sex::Male, 0, vec![Belief::new(BeliefKind::HelpOthers, 5)]);
    let close = person(1, 31, Sex::Female, 0, vec![Belief::new(BeliefKind::HelpOthers, 5)]);
    let far = person(2, 50, Sex::Female, 0, Vec::new());
    let passive = person(3, 29, Sex::Female, 0, Vec::new());
    let mut world = small_world(vec![seeker, close, far, passive]);
    let actions = vec![Some(Action::SeekPartner), Some(Action::SeekPartner), Some(Action::SeekPartner), Some(Action::Work)];
    let local = vec![NpcId(0), NpcId(1), NpcId(2), NpcId(3)];
    let best = choose_partner(&world, NpcId(0), &local, 2, &actions, &Vec::new());
    assert_eq!(best.map(|(_, id)| id), Some(NpcId(1)));
    assert_eq!(best.map(|(score, _)| score), Some(5 + 6 + 1 + 0));
    assert_eq!(choose_partner(&world, NpcId(0), &local, 0, &actions, &vec![NpcId(1), NpcId(2)]), None);
    let mut statistics = YearStatistics::new(1, 4, vec![4]);
    assert!(form_partnership(&mut world, NpcId(0), NpcId(1), 3, &mut statistics));
    assert_eq!(world.npcs[0].partner, Some(NpcId(1)));
    assert_eq!(world.npcs[1].partner, Some(NpcId(0)));
    assert_eq!(world.npcs[0].relationship(NpcId(1)).unwrap().kind, RelationshipKind::Partner);
    assert_eq!(world.npcs[0].goal.kind, GoalKind::RaiseChildren);
    assert_eq!(statistics.partnerships, 1);
    assert!(!form_partnership(&mut world, NpcId(0), NpcId(2), 3, &mut statistics));
}

#[test]
fn nearby_people_mix_relations_and_neighbours() {
    let mut me = person(1, 30, Sex::Male, 0, Vec::new());
    me.set_relationship(NpcId(0), Relationship::with_relation(5, 8, RelationshipKind::Family, 0, 1));
    me.set_relationship(NpcId(3), Relationship::with_relation(5, 2, RelationshipKind::Rival, 0, 1));
    let world = small_world(vec![
        person(0, 60, Sex::Female, 0, Vec::new()),
        me,
        person(2, 30, Sex::Female, 0, Vec::new()),
        person(3, 30, Sex::Female, 1, Vec::new()),
    ]);
    let local = vec![NpcId(0), NpcId(1), NpcId(2)];
    let people = nearby_people(&world, NpcId(1), &local, 6);
    let ids: Vec<NpcId> = people.iter().map(|person| person.npc).collect();
    assert_eq!(ids, vec![NpcId(0), NpcId(2)]);
    assert!(people[0].is_family && people[0].needs_help && people[0].danger == 6);
    assert!(people[1].is_outsider && people[1].partner_eligible);
    assert_eq!(known_people_in(&world, &world.npcs[1], TownId(1)), 1);
}

#[test]
fn simulation_size_is_checked_with_messages() {
    assert_eq!(
        check_simulation_size(0, 10),
        Err(SimulationError::InvalidConfiguration("towns must be at least 1".to_string()))
    );
    assert_eq!(
        check_simulation_size(65_537, 10),
        Err(SimulationError::InvalidConfiguration("towns must be at most 65536".to_string()))
    );
    assert_eq!(
        check_simulation_size(3, u32::MAX as usize + 1),
        Err(SimulationError::InvalidConfiguration("population exceeds the NpcId range".to_string()))
    );
    assert_eq!(check_simulation_size(65_536, 10), Ok(()));
}

#[test]
fn years_advance_until_the_last() {
    assert_eq!(next_year(u16::MAX as u64), Ok(u16::MAX as u64 + 1));
    assert_eq!(next_year(u64::MAX), Err(SimulationError::YearOverflow(u64::MAX)));
}

#[test]
fn population_balance_closes_the_year() {
    let mut year = YearStatistics::new(5, 104, vec![104]);
    year.births = 6;
    year.deaths = 3;
    year.external_immigration = 2;
    year.external_emigration = 1;
    assert_eq!(check_population_balance(5, 100, &year), Ok(()));
    year.total_population = 103;
    assert_eq!(
        check_population_balance(5, 100, &year),
        Err(SimulationError::PopulationConservation { year: 5, expected: 104, actual: 103 })
    );
}

#[test]
fn only_women_of_age_with_a_partner_at_home_expect() {
    let mut mother = person(0, 30, Sex::Female, 0, Vec::new());
    let mut father = person(1, 32, Sex::Male, 0, Vec::new());
    mother.set_partner(father.id);
    father.set_partner(mother.id);
    let world = small_world(vec![mother, father]);
    assert_eq!(expecting_partner(&world, NpcId(0)), Some(NpcId(1)));
    assert_eq!(expecting_partner(&world, NpcId(1)), None);
}

#[test]
fn actions_and_danger_set_the_state() {
    assert_eq!(outcome_state(Some(Action::FleeTown(TownId(1))), 0, false), NpcState::Evacuating);
    assert_eq!(outcome_state(Some(Action::Work), 8, false), NpcState::Evacuating);
    assert_eq!(outcome_state(None, 7, true), NpcState::Sick);
    assert_eq!(outcome_state(Some(Action::Rest), 0, false), NpcState::Normal);
}

#[test]
fn wars_run_out_and_are_logged_as_ended() {
    let mut world = small_world(Vec::new());
    world.active_wars = vec![
        WarEvent::new(vec![TownId(0)], 5, 1),
        WarEvent::new(vec![TownId(1)], 5, 3),
    ];
    assert_eq!(progress_wars(&mut world), 1);
    assert_eq!(world.active_wars.len(), 1);
    assert_eq!(world.active_wars[0].remaining_years, 2);
    assert_eq!(world.important_events, vec![WorldEvent::WarEnded]);
}

#[test]
fn forgetting_removes_stale_ties_on_both_sides() {
    let mut a = person(0, 30, Sex::Male, 0, Vec::new());
    let mut b = person(1, 30, Sex::Male, 0, Vec::new());
    let mut c = person(2, 30, Sex::Male, 0, Vec::new());
    a.set_relationship(NpcId(1), Relationship::with_relation(5, 5, RelationshipKind::Acquaintance, 0, 1));
    b.set_relationship(NpcId(0), Relationship::with_relation(5, 5, RelationshipKind::Acquaintance, 9, 1));
    a.set_relationship(NpcId(2), Relationship::with_relation(5, 4, RelationshipKind::Acquaintance, 0, 1));
    c.set_relationship(NpcId(0), Relationship::with_relation(5, 0, RelationshipKind::Family, 0, 1));
    let mut world = small_world(vec![a, b, c]);
    world.year = 10;
    forget_relationships(&mut world, &RelationshipDecayConfig::default());
    assert!(world.npcs[0].relationships.is_empty());
    assert!(world.npcs[1].relationships.is_empty());
    assert_eq!(world.npcs[2].relationships.keys(), vec![NpcId(0)]);
}

#[test]
fn period_summary_accumulates_checkpoint_years() {
    let mut first = YearStatistics::new(1, 101, vec![101]);
    first.births = 3;
    first.deaths = 2;
    first.internal_migrations = 4;
    let mut second = YearStatistics::new(2, 102, vec![102]);
    second.births = 5;
    second.deaths = 1;
    second.internal_migrations = 6;

    let mut summary = PeriodSummary::default();
    summary.add_year(&first);
    summary.add_year(&second);

    assert_eq!(summary.births, 8);
    assert_eq!(summary.deaths, 3);
    assert_eq!(summary.internal_migrations, 10);
}

#[test]
fn town_year_counts_its_own_events() {
    let world = small_world(vec![person(0, 30, Sex::Male, 0, Vec::new()), person(1, 30, Sex::Female, 1, Vec::new())]);
    let mut entry = TownYearEntry::default();
    assert!(!entry.should_print());
    entry.record_event(&world, TownId(0), &TimedWorldEvent::new(3, 0, WorldEvent::Birth { npc: NpcId(0) }));
    entry.record_event(&world, TownId(0), &TimedWorldEvent::new(3, 2, WorldEvent::Birth { npc: NpcId(1) }));
    entry.record_event(
        &world,
        TownId(0),
        &TimedWorldEvent::new(3, 4, WorldEvent::Migration { npc: NpcId(1), from: TownId(1), to: TownId(0) }),
    );
    entry.record_event(&world, TownId(0), &TimedWorldEvent::new(3, 5, WorldEvent::FamineStarted { town: TownId(0) }));
    assert_eq!(entry.births, 1);
    assert_eq!(entry.arrivals, 1);
    assert_eq!(entry.departures, 0);
    assert_eq!(entry.notable, vec!["5月 飢饉発生".to_string()]);
    assert!(entry.should_print());
    assert_eq!(at_time(&TimedWorldEvent::new(3, 0, WorldEvent::WarEnded), "終戦"), "終戦");
}

#[test]
fn periods_close_every_ten_years_and_at_the_end() {
    assert!(closes_period(10, Some(25)));
    assert!(closes_period(20, None));
    assert!(!closes_period(21, Some(25)));
    assert!(closes_period(25, Some(25)));
    assert!(!closes_period(7, None));
    assert!(status_due(3, 3, None));
    assert!(!status_due(4, 3, Some(9)));
    assert!(status_due(9, 5, Some(9)));
}

#[test]
fn a_town_line_sums_the_year_and_the_population_change() {
    let mut world = small_world(vec![person(0, 30, Sex::Male, 0, Vec::new()), person(1, 30, Sex::Female, 1, Vec::new())]);
    world.year_events = vec![
        TimedWorldEvent::new(3, 0, WorldEvent::Birth { npc: NpcId(0) }),
        TimedWorldEvent::new(3, 2, WorldEvent::Death { npc: NpcId(0) }),
        TimedWorldEvent::new(3, 4, WorldEvent::ExternalEmigration { npc: NpcId(0), from: TownId(0) }),
        TimedWorldEvent::new(3, 6, WorldEvent::NaturalDisaster { town: TownId(0) }),
        TimedWorldEvent::new(3, 7, WorldEvent::NaturalDisaster { town: TownId(1) }),
    ];
    let entry = TownYearEntry::for_year(&world, TownId(0), 3, 40, Some(43));
    assert_eq!(entry.year, 3);
    assert_eq!(entry.population, 40);
    assert_eq!(entry.population_change, -3);
    assert_eq!((entry.births, entry.deaths, entry.departures, entry.arrivals), (1, 1, 1, 0));
    assert_eq!(entry.notable, vec!["6月 自然災害".to_string()]);
    let first = TownYearEntry::for_year(&world, TownId(1), 3, 12, None);
    assert_eq!(first.population_change, 0);
    assert_eq!(first.notable, vec!["7月 自然災害".to_string()]);
}
