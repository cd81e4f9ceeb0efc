use npc_system::belief::{Belief, BeliefKind};
use npc_system::economy::Good;
use npc_system::event::WorldEvent;
use npc_system::goal::{Goal, GoalKind};
use npc_system::id::{NpcId, TownId};
use npc_system::migration::{candidate_towns, household_members, move_household};
use npc_system::npc::{Attributes, Npc, NpcInvariantError, Sex};
use npc_system::population::{generate_child, generate_external_immigrant, generate_initial_world, PopulationError};
use npc_system::relationship::{Relationship, RelationshipKind};
use npc_system::statistics::Statistics;
use npc_system::town::{Town, TownConnection};
use npc_system::trade_game::{PlayerAccount, PlayerTradeError, PlayerTradeSide};
use npc_system::world::World;
use std::collections::BTreeSet;

const MAX_BELIEFS: usize = 3;
const MAX_RELATIONSHIPS: usize = 30;

fn test_npc() -> Npc {
    Npc::with_default_name(
        NpcId(1),
        30,
        Sex::Female,
        TownId(2),
        TownId(2),
        Attributes::default(),
        vec![
            Belief::new(BeliefKind::ProtectFamily, 9),
            Belief::new(BeliefKind::HelpOthers, 7),
        ],
        Goal::new(GoalKind::ProtectFamily, 0),
    )
}

fn plain_town(id: u16, capacity: u32, quality: u8) -> Town {
    Town::new(TownId(id), format!("Town {id}"), capacity, quality, quality, quality, quality, quality)
}

fn plain_npc(id: u32, age: u8, town: TownId) -> Npc {
    Npc::with_default_name(
        NpcId(id),
        age,
        Sex::Male,
        town,
        town,
        Attributes::default(),
        Vec::new(),
        Goal::new(GoalKind::LivePeacefully, 0),
    )
}

fn connect(towns: &mut [Town], a: usize, b: usize, distance: u8) {
    let a_id = towns[a].id;
    let b_id = towns[b].id;
    towns[a].add_neighbor(TownConnection::new(b_id, distance));
    towns[b].add_neighbor(TownConnection::new(a_id, distance));
}

#[test]
fn child_attributes_use_parent_average_and_clamp_variation() {
    let weak = Attributes::uniform(0);
    let strong = Attributes::uniform(10);
    assert_eq!(
        Attributes::average_with_variation(&weak, &strong, [-2, -1, 0, 1, 2]),
        Attributes::new(3, 4, 5, 6, 7)
    );
    assert_eq!(
        Attributes::average_with_variation(&strong, &strong, [100; 5]),
        Attributes::uniform(10)
    );
}

#[test]
fn constructor_normalizes_beliefs_and_default_name() {
    let npc = Npc::with_default_name(
        NpcId(12),
        10,
        Sex::Male,
        TownId(1),
        TownId(1),
        Attributes::default(),
        vec![
            Belief::new(BeliefKind::HelpOthers, 2),
            Belief::new(BeliefKind::HelpOthers, 8),
            Belief::new(BeliefKind::ValueOrder, 5),
            Belief::new(BeliefKind::ValueKnowledge, 6),
            Belief::new(BeliefKind::ValueFreedom, 7),
        ],
        Goal::default(),
    );
    assert_eq!(npc.name, "NPC-000012");
    assert_eq!(npc.beliefs.len(), 3);
    assert_eq!(npc.belief_strength(BeliefKind::HelpOthers), 8);
    assert!(npc.validate().is_ok());
}

#[test]
fn self_relationship_is_rejected() {
    let mut npc = test_npc();
    let id = npc.id;
    assert!(!npc.set_relationship(id, Relationship::default()));
    assert!(npc.ensure_relationship(id, 5, 0, 1).is_none());
    assert!(npc.relationships.is_empty());
}

#[test]
fn stale_relationship_removal_is_deterministic_and_preserves_strong_links() {
    let mut npc = test_npc();
    for id in [NpcId(9), NpcId(3), NpcId(7)] {
        npc.set_relationship(id, Relationship::with_relation(5, 5, RelationshipKind::Acquaintance, 0, 1));
    }
    npc.set_relationship(NpcId(5), Relationship::with_relation(5, 8, RelationshipKind::CloseFriend, 0, 1));
    assert_eq!(npc.forget_stale_relationships(4), vec![NpcId(3), NpcId(7), NpcId(9)]);
    assert_eq!(npc.relationships.keys(), vec![NpcId(5)]);
}

#[test]
fn family_helpers_reject_self_and_duplicates() {
    let mut npc = test_npc();
    let id = npc.id;
    assert!(!npc.add_parent(id));
    assert!(npc.add_parent(NpcId(2)));
    assert!(!npc.add_parent(NpcId(2)));
    assert!(npc.add_child(NpcId(3)));
    assert!(!npc.add_child(NpcId(3)));
    assert!(!npc.set_partner(id));
    assert!(npc.set_partner(NpcId(4)));
    assert!(!npc.set_partner(NpcId(4)));
    assert!(npc.validate().is_ok());
}

#[test]
fn death_and_external_departure_are_distinct() {
    let mut emigrant = test_npc();
    assert!(emigrant.leave_world());
    assert!(emigrant.alive);
    assert!(!emigrant.in_world);
    assert!(emigrant.enter_world(TownId(8)));
    assert_eq!(emigrant.town, TownId(8));

    emigrant.set_partner(NpcId(2));
    assert_eq!(emigrant.mark_dead(), Some(NpcId(2)));
    assert!(!emigrant.alive);
    assert!(!emigrant.in_world);
    assert!(!emigrant.enter_world(TownId(1)));
    assert!(emigrant.validate().is_ok());
}

#[test]
fn normalize_repairs_locally_repairable_invariants() {
    let mut npc = test_npc();
    let id = npc.id;
    npc.attributes.physical = 200;
    npc.beliefs.push(Belief { kind: BeliefKind::HelpOthers, strength: 200 });
    npc.relationships.insert(id, Relationship::with_relation(200, 200, RelationshipKind::Enemy, 0, 0));
    npc.parents = vec![id, NpcId(2), NpcId(2)];
    npc.children = vec![NpcId(3), id, NpcId(3)];
    npc.partner = Some(id);
    npc.alive = false;
    npc.in_world = true;

    npc.normalize();
    assert!(npc.validate().is_ok());
    assert!(!npc.in_world);
    assert_eq!(npc.parents, vec![NpcId(2)]);
    assert_eq!(npc.children, vec![NpcId(3)]);
    assert_eq!(npc.partner, None);
}

#[test]
fn validate_reports_direct_public_field_corruption() {
    let mut npc = test_npc();
    let id = npc.id;
    npc.relationships.insert(id, Relationship::default());
    assert_eq!(npc.validate(), Err(NpcInvariantError::SelfRelationship));
}

#[test]
fn npc_numeric_domains_cover_every_value_from_zero_through_ten() {
    for value in 0..=10 {
        let attributes = Attributes::uniform(value);
        assert_eq!(
            [
                attributes.physical,
                attributes.dexterity,
                attributes.intelligence,
                attributes.charisma,
                attributes.willpower,
            ],
            [value; 5]
        );
        assert!(attributes.values_in_range());

        let belief = Belief::new(BeliefKind::HelpOthers, value);
        assert_eq!(belief.strength, value);
        assert!(belief.is_valid());
    }

    assert_eq!(Attributes::uniform(u8::MAX), Attributes::uniform(10));
    assert_eq!(Belief::new(BeliefKind::HelpOthers, u8::MAX).strength, 10);
}

#[test]
fn test_c_all_affinity_and_relation_inputs_stay_in_zero_through_ten() {
    for affinity in 0..=10 {
        for relation in 0..=10 {
            let relationship =
                Relationship::with_relation(affinity, relation, RelationshipKind::Acquaintance, 12, 6);

            assert_eq!(relationship.affinity, affinity);
            assert_eq!(relationship.relation, relation);
            assert!(relationship.values_in_range());
        }
    }
}

#[test]
fn relationship_public_mutations_clamp_both_boundaries() {
    for initial in 0..=10 {
        let mut relationship = Relationship::with_relation(initial, initial, RelationshipKind::Friend, 0, 1);

        relationship.adjust_relation(i8::MIN);
        assert!(relationship.relation <= 10);
        relationship.adjust_relation(i8::MAX);
        assert!(relationship.relation <= 10);

        relationship.set_affinity(u8::MAX);
        relationship.set_relation(u8::MAX);
        assert_eq!(relationship.affinity, 10);
        assert_eq!(relationship.relation, 10);
        assert!(relationship.values_in_range());
    }
}

#[test]
fn rejects_world_without_towns() {
    assert!(matches!(
        generate_initial_world(0, 100, 1, MAX_BELIEFS, MAX_RELATIONSHIPS),
        Err(PopulationError::NoTowns)
    ));
}

#[test]
fn initial_generation_is_reproducible_and_valid() {
    let mut first = generate_initial_world(8, 400, 42, MAX_BELIEFS, MAX_RELATIONSHIPS).unwrap();
    let mut second = generate_initial_world(8, 400, 42, MAX_BELIEFS, MAX_RELATIONSHIPS).unwrap();

    assert_eq!(first.towns, second.towns);
    assert_eq!(first.npcs, second.npcs);
    assert_eq!(first.active_npcs, second.active_npcs);
    assert!(first.validate().is_ok());
    assert_eq!(first.active_population(), 400);
    assert_eq!(first.statistics, Statistics::new(400));

    let first_id = generate_external_immigrant(&mut first, TownId(0), MAX_BELIEFS).unwrap();
    let second_id = generate_external_immigrant(&mut second, TownId(0), MAX_BELIEFS).unwrap();
    assert_eq!(first_id, second_id);
    assert_eq!(first.npc(first_id), second.npc(second_id));
    assert_eq!(first.important_events, second.important_events);
}

#[test]
fn town_graph_is_connected_and_sparse() {
    let world = generate_initial_world(20, 200, 7, MAX_BELIEFS, MAX_RELATIONSHIPS).unwrap();
    let mut visited = BTreeSet::from([TownId(0)]);
    let mut frontier = vec![TownId(0)];
    while let Some(id) = frontier.pop() {
        for edge in &world.town(id).unwrap().neighbors {
            if visited.insert(edge.destination) {
                frontier.push(edge.destination);
            }
        }
    }
    let undirected_edges: usize = world.towns.iter().map(|town| town.neighbors.len()).sum::<usize>() / 2;
    assert_eq!(visited.len(), world.towns.len());
    assert!(undirected_edges <= world.towns.len() - 1 + world.towns.len() / 3);
    assert!(world.towns.iter().all(|town| {
        town.neighbors.iter().all(|edge| {
            world
                .town(edge.destination)
                .and_then(|other| other.connection_to(town.id))
                .is_some_and(|reverse| reverse.distance == edge.distance)
        })
    }));
}

#[test]
fn initial_social_graph_contains_consistent_sparse_families_and_friends() {
    let world = generate_initial_world(5, 1_000, 123, MAX_BELIEFS, MAX_RELATIONSHIPS).unwrap();
    let partnered = world.npcs.iter().filter(|npc| npc.partner.is_some()).count();
    let children_with_parents = world.npcs.iter().filter(|npc| !npc.parents.is_empty()).count();
    let friend_edges = world
        .npcs
        .iter()
        .flat_map(|npc| npc.relationships.entries())
        .filter(|(_, relationship)| relationship.kind == RelationshipKind::Friend)
        .count();
    assert!(partnered > 0);
    assert!(children_with_parents > 0);
    assert!(friend_edges > 0);
    assert!(world.validate().is_ok());
    assert!(world.npcs.iter().all(|npc| {
        npc.relationships.entries().iter().all(|(other_id, relationship)| {
            world
                .npc(*other_id)
                .and_then(|other| other.relationship(npc.id))
                .is_some_and(|reverse| reverse == relationship)
        })
    }));
    assert!(world.npcs.iter().all(|npc| {
        npc.relationship_count()
            <= MAX_RELATIONSHIPS.max(npc.parents.len() + npc.children.len() + usize::from(npc.partner.is_some()))
    }));
}

#[test]
fn child_generation_inherits_values_and_updates_both_parents() {
    let mut world = generate_initial_world(1, 300, 777, MAX_BELIEFS, MAX_RELATIONSHIPS).unwrap();
    let parent_a = world.npcs.iter().find(|npc| npc.partner.is_some()).map(|npc| npc.id).unwrap();
    let parent_b = world.npc(parent_a).unwrap().partner.unwrap();
    let child_id = generate_child(&mut world, parent_a, parent_b, MAX_BELIEFS).unwrap();
    let child = world.npc(child_id).unwrap();

    assert_eq!(child.age, 0);
    assert_eq!(child.parents, vec![parent_a, parent_b]);
    assert!(child.attributes.values_in_range());
    assert!(world.npc(parent_a).unwrap().children.contains(&child_id));
    assert!(world.npc(parent_b).unwrap().children.contains(&child_id));
    assert!(matches!(world.important_events.last(), Some(WorldEvent::Birth { npc }) if *npc == child_id));
    assert!(world.validate().is_ok());
}

#[test]
fn child_of_a_parent_with_itself_is_refused() {
    let mut world = generate_initial_world(1, 30, 5, MAX_BELIEFS, MAX_RELATIONSHIPS).unwrap();
    let before = world.npcs.len();
    assert!(matches!(generate_child(&mut world, NpcId(0), NpcId(0), MAX_BELIEFS), Err(PopulationError::SameParent)));
    assert!(matches!(
        generate_child(&mut world, NpcId(0), NpcId(100_000), MAX_BELIEFS),
        Err(PopulationError::InvalidNpc(NpcId(100_000)))
    ));
    assert_eq!(world.npcs.len(), before);
}

#[test]
fn external_immigrant_is_active_and_logged() {
    let mut world = generate_initial_world(2, 20, 8, MAX_BELIEFS, MAX_RELATIONSHIPS).unwrap();
    let before = world.active_population();
    let id = generate_external_immigrant(&mut world, TownId(1), MAX_BELIEFS).unwrap();
    let npc = world.npc(id).unwrap();
    assert!(npc.is_active());
    assert_eq!(npc.town, TownId(1));
    assert_eq!(world.active_population(), before + 1);
    assert!(
        matches!(world.important_events.last(), Some(WorldEvent::ExternalImmigration { npc, to }) if *npc == id && *to == TownId(1))
    );
    assert!(world.validate().is_ok());
}

#[test]
fn empty_world_has_no_candidates() {
    let world = World::empty(1);
    assert!(candidate_towns(&world, TownId(0)).is_empty());
}

#[test]
fn household_migration_keeps_partner_and_minor_children_together() {
    let origin = TownId(0);
    let destination = TownId(1);
    let mut world = World::empty(7);
    world.towns = vec![plain_town(0, 100, 5), plain_town(1, 100, 8)];

    let mut parent_a = plain_npc(0, 36, origin);
    let mut parent_b = plain_npc(1, 34, origin);
    let mut minor = plain_npc(2, 12, origin);
    let mut adult_child = plain_npc(3, 18, origin);

    assert!(parent_a.set_partner(parent_b.id));
    assert!(parent_b.set_partner(parent_a.id));
    for child in [minor.id, adult_child.id] {
        assert!(parent_a.add_child(child));
        assert!(parent_b.add_child(child));
    }
    for parent in [parent_a.id, parent_b.id] {
        assert!(minor.add_parent(parent));
        assert!(adult_child.add_parent(parent));
    }

    world.npcs = vec![parent_a, parent_b, minor, adult_child];
    world.rebuild_active_npcs();
    world.validate().unwrap();

    assert_eq!(household_members(&world, NpcId(0)), vec![NpcId(0), NpcId(1), NpcId(2)]);
    assert_eq!(move_household(&mut world, NpcId(0), destination), vec![NpcId(0), NpcId(1), NpcId(2)]);

    for id in [NpcId(0), NpcId(1), NpcId(2)] {
        assert_eq!(world.npc(id).unwrap().town, destination);
    }
    assert_eq!(world.npc(NpcId(3)).unwrap().town, origin);
    world.validate().unwrap();
}

#[test]
fn migration_candidates_stop_at_two_hops() {
    let mut world = World::empty(11);
    world.towns = (0..=4).map(|id| plain_town(id, 100, 6)).collect();
    connect(&mut world.towns, 0, 1, 2);
    connect(&mut world.towns, 1, 2, 3);
    connect(&mut world.towns, 2, 3, 1);

    assert_eq!(candidate_towns(&world, TownId(0)), vec![(TownId(1), 2), (TownId(2), 5)]);
    assert!(candidate_towns(&world, TownId(0)).iter().all(|(id, _)| !matches!(id, TownId(3) | TownId(4))));
}

fn trading_world() -> World {
    let world = generate_initial_world(1, 20, 12345, MAX_BELIEFS, MAX_RELATIONSHIPS).expect("world should build");
    world.validate().expect("world should be valid");
    world
}

#[test]
fn player_can_buy_and_sell_at_the_current_market_price() {
    let mut world = trading_world();
    let town_id = TownId(0);
    let unit_price = world.town(town_id).expect("town should exist").economy.good_price(Good::Food);
    let initial_treasury = world.town(town_id).expect("town should exist").economy.treasury_cents;
    let mut player = PlayerAccount::new(unit_price * 10);

    let purchase = player.buy(&mut world, town_id, Good::Food, 4).expect("purchase should succeed");
    assert_eq!(purchase.side, PlayerTradeSide::Buy);
    assert_eq!(purchase.unit_price_cents, unit_price);
    assert_eq!(purchase.total_cents, unit_price * 4);
    assert_eq!(player.cash_cents, unit_price * 6);
    assert_eq!(player.inventory.quantity(Good::Food), 4);
    assert_eq!(
        world.town(town_id).expect("town should exist").economy.treasury_cents,
        initial_treasury + unit_price * 4
    );

    let sale = player.sell(&mut world, town_id, Good::Food, 3).expect("sale should succeed");
    assert_eq!(sale.side, PlayerTradeSide::Sell);
    assert_eq!(player.cash_cents, unit_price * 9);
    assert_eq!(player.inventory.quantity(Good::Food), 1);
    assert_eq!(player.trades, vec![purchase, sale]);
}

#[test]
fn rejected_trades_do_not_change_player_or_city_assets() {
    let mut world = trading_world();
    let town_id = TownId(0);
    let initial_treasury = world.town(town_id).expect("town should exist").economy.treasury_cents;
    let mut player = PlayerAccount::new(1);
    let initial_player = player.clone();

    let buy_error = player.buy(&mut world, town_id, Good::Luxury, 1).expect_err("purchase should be rejected");
    assert!(matches!(buy_error, PlayerTradeError::InsufficientCash { .. }));
    assert_eq!(player, initial_player);
    assert_eq!(world.town(town_id).expect("town should exist").economy.treasury_cents, initial_treasury);

    let sell_error = player.sell(&mut world, town_id, Good::Food, 1).expect_err("sale should be rejected");
    assert!(matches!(sell_error, PlayerTradeError::InsufficientInventory { .. }));
    assert_eq!(player, initial_player);
}

#[test]
fn final_settlement_converts_inventory_to_market_value() {
    let mut world = trading_world();
    let town_id = TownId(0);
    let mut player = PlayerAccount::new(100_000);
    player.buy(&mut world, town_id, Good::Tools, 2).expect("purchase should succeed");
    player.buy(&mut world, town_id, Good::Medicine, 3).expect("purchase should succeed");
    let expected = player.total_value(&world, town_id).expect("valuation should succeed");

    let final_cash = player.settle_at_market_value(&world, town_id).expect("settlement should succeed");

    assert_eq!(final_cash, expected);
    assert_eq!(player.cash_cents, expected);
    assert!(Good::ALL.into_iter().all(|good| player.inventory.quantity(good) == 0));
}

#[test]
fn trades_in_a_missing_town_or_of_nothing_are_refused() {
    let mut world = trading_world();
    let mut player = PlayerAccount::new(10_000);
    assert!(matches!(
        player.buy(&mut world, TownId(9), Good::Food, 1),
        Err(PlayerTradeError::InvalidTown(TownId(9)))
    ));
    assert!(matches!(player.sell(&mut world, TownId(0), Good::Food, 0), Err(PlayerTradeError::ZeroQuantity)));
    assert_eq!(player.cash_cents, 10_000);
}

fn age_band(age: u8) -> u8 {
    ((age - 18) / 10).min(5)
}

#[test]
fn initial_couples_pair_the_smaller_side_of_each_age_band() {
    let world = generate_initial_world(4, 600, 31, MAX_BELIEFS, MAX_RELATIONSHIPS).unwrap();
    let active: Vec<&Npc> = world.active_npcs.iter().map(|id| world.npc(*id).unwrap()).collect();
    for npc in &active {
        if let Some(partner_id) = npc.partner {
            let partner = world.npc(partner_id).unwrap();
            assert_eq!(partner.partner, Some(npc.id));
            assert_ne!(partner.sex, npc.sex);
            assert_eq!(partner.town, npc.town);
            assert!((18..=77).contains(&npc.age));
            assert_eq!(age_band(partner.age), age_band(npc.age));
        }
    }
    let mut couples = 0;
    for town in &world.towns {
        for band in 0..6u8 {
            let candidates: Vec<&&Npc> = active
                .iter()
                .filter(|npc| npc.town == town.id && (18..=77).contains(&npc.age) && age_band(npc.age) == band)
                .collect();
            let men: Vec<&&&Npc> = candidates.iter().filter(|npc| npc.sex == Sex::Male).collect();
            let women: Vec<&&&Npc> = candidates.iter().filter(|npc| npc.sex == Sex::Female).collect();
            let men_paired = men.iter().all(|npc| npc.partner.is_some());
            let women_paired = women.iter().all(|npc| npc.partner.is_some());
            assert!(men_paired || women_paired);
            let paired = candidates.iter().filter(|npc| npc.partner.is_some()).count();
            assert_eq!(paired, 2 * men.len().min(women.len()));
            couples += men.len().min(women.len());
        }
    }
    assert!(couples > 0);
}

#[test]
fn initial_residents_each_have_a_friend_or_relative_in_town() {
    let world = generate_initial_world(3, 300, 99, MAX_BELIEFS, MAX_RELATIONSHIPS).unwrap();
    for town in &world.towns {
        let residents: Vec<&Npc> = world
            .active_npcs
            .iter()
            .map(|id| world.npc(*id).unwrap())
            .filter(|npc| npc.town == town.id)
            .collect();
        if residents.len() < 2 {
            continue;
        }
        let someone_full = residents.iter().any(|npc| npc.relationship_count() >= MAX_RELATIONSHIPS);
        for npc in &residents {
            let related = residents.iter().any(|other| {
                other.id != npc.id && (npc.relationship(other.id).is_some() || other.relationship(npc.id).is_some())
            });
            assert!(related || someone_full);
        }
    }
}
