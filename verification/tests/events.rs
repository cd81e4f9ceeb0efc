use npc_system::disaster::{FamineEvent, NaturalDisaster, NaturalDisasterEvent};
use npc_system::disease::DiseaseEvent;
use npc_system::economy::{gini_basis_points, Good, Inventory, TownEconomy};
use npc_system::event::{DeathCause, WorldEvent, WorldEventKind};
use npc_system::extensions::{annual_supply_shock_basis_points, enabled_extension_ids, mix_u64, EconomyExtension};
use npc_system::id::{NpcId, TownId};
use npc_system::statistics::{Statistics, YearStatistics};
use npc_system::town::{Town, TownConnection, TownDamage};
use npc_system::war::WarEvent;
use npc_system::world::World;

fn town(id: u16) -> Town {
    Town::new(TownId(id), format!("Town {id}"), 100, 8, 8, 6, 6, 7)
}

#[test]
fn event_duration_expires_without_underflow() {
    let mut event = NaturalDisasterEvent::with_duration(NaturalDisaster::Fire, TownId(0), 5, 1);
    assert!(!event.progress_month());
    assert!(!event.progress_month());
}

#[test]
fn disease_spreads_without_duplicate_towns() {
    let mut disease = DiseaseEvent::new(5, TownId(2), 12);
    assert!(!disease.infect(TownId(2)));
    assert!(disease.infect(TownId(1)));
    assert_eq!(disease.infected_towns_sorted(), vec![TownId(1), TownId(2)]);
}

#[test]
fn disease_runs_out_after_its_months() {
    let mut disease = DiseaseEvent::new(3, TownId(0), 1);
    assert!(!disease.progress_month());
    assert!(!disease.progress_month());
    assert_eq!(disease.remaining_months, 0);
}

#[test]
fn severe_disaster_is_clamped_and_damages_more() {
    let mild = NaturalDisasterEvent::new(NaturalDisaster::Flood, TownId(1), 1);
    let severe = NaturalDisasterEvent::new(NaturalDisaster::Flood, TownId(1), 99);
    assert_eq!(severe.severity, 10);
    assert!(severe.town_damage(1_000).capacity_loss > mild.town_damage(1_000).capacity_loss);
}

#[test]
fn famine_of_given_severity_damages_its_town() {
    let famine = FamineEvent::with_severity(TownId(4), 20);
    assert_eq!(famine.town, TownId(4));
    assert!(famine.severity <= 10);
    assert!(famine.town_damage().remaining_months > 0);
}

#[test]
fn inventory_adds_and_removes_without_underflow() {
    let mut inventory = Inventory::default();
    inventory.add(Good::Food, 3);
    assert!(!inventory.remove(Good::Food, 4));
    assert!(inventory.remove(Good::Food, 2));
    assert_eq!(inventory.quantity(Good::Food), 1);
}

#[test]
fn gini_distinguishes_equal_and_unequal_distributions() {
    assert_eq!(gini_basis_points(&[100, 100, 100]), 0);
    assert!(gini_basis_points(&[0, 0, 300]) > 6_000);
}

#[test]
fn gini_ignores_the_order_of_the_values() {
    assert_eq!(gini_basis_points(&[300, 0, 0]), gini_basis_points(&[0, 0, 300]));
    assert_eq!(gini_basis_points(&[]), 0);
}

#[test]
fn inflation_supports_positive_and_negative_changes() {
    let mut economy = TownEconomy {
        previous_year_price_index: 10_000,
        price_index: 10_500,
        ..TownEconomy::default()
    };
    assert_eq!(economy.inflation_basis_points(), 500);
    economy.price_index = 9_500;
    assert_eq!(economy.inflation_basis_points(), -500);
}

#[test]
fn consumer_price_index_is_weighted_from_independent_good_prices() {
    let mut economy = TownEconomy::default();
    let mut food = economy.markets.get(Good::Food);
    food.price_index = 12_000;
    economy.markets.set(Good::Food, food);
    let mut luxury = economy.markets.get(Good::Luxury);
    luxury.price_index = 8_000;
    economy.markets.set(Good::Luxury, luxury);
    economy.update_consumer_price_index();
    assert_eq!(economy.price_index, 10_900);
    assert_eq!(economy.good_price(Good::Food), 1_440);
    assert_eq!(economy.good_price(Good::Luxury), 9_600);
}

#[test]
fn migration_exposes_stable_entities() {
    let event = WorldEvent::Migration {
        npc: NpcId(3),
        from: TownId(1),
        to: TownId(2),
    };
    assert_eq!(event.kind(), WorldEventKind::Migration);
    assert_eq!(event.npc_ids(), vec![NpcId(3)]);
    assert_eq!(event.town_ids(), vec![TownId(1), TownId(2)]);
}

#[test]
fn records_events_and_death_causes() {
    let mut year = YearStatistics::new(1, 100, vec![60, 40]);
    year.record_event(&WorldEvent::Birth { npc: NpcId(1) });
    year.record_event(&WorldEvent::Migration {
        npc: NpcId(1),
        from: TownId(0),
        to: TownId(1),
    });
    year.record_death(DeathCause::Disease);
    year.record_death(DeathCause::Famine);
    year.record_death(DeathCause::Natural);
    assert_eq!(year.births, 1);
    assert_eq!(year.internal_migrations, 1);
    assert_eq!(year.deaths, 3);
    assert_eq!(year.disease_deaths, 1);
    assert_eq!(year.famine_deaths, 1);
    assert_eq!(year.natural_deaths(), 1);
}

#[test]
fn cumulative_statistics_sum_years_and_track_unique_npcs() {
    let mut statistics = Statistics::new(100);
    let mut first = YearStatistics::new(1, 105, vec![105]);
    first.births = 10;
    first.deaths = 5;
    first.external_immigration = 2;
    statistics.push(first);
    let mut second = YearStatistics::new(2, 106, vec![106]);
    second.births = 4;
    second.deaths = 3;
    statistics.push(second);

    let cumulative = statistics.cumulative();
    assert_eq!(cumulative.births, 14);
    assert_eq!(cumulative.deaths, 8);
    assert_eq!(cumulative.final_population, 106);
    assert_eq!(cumulative.total_unique_npcs, 116);
}

#[test]
fn continuous_mode_retains_only_latest_year_and_keeps_totals() {
    let mut statistics = Statistics::new(100);
    statistics.retain_only_latest_year();
    for year_number in 1..=3 {
        let mut year = YearStatistics::new(year_number, 100 + year_number as usize, vec![]);
        year.births = year_number as usize;
        statistics.push(year);
    }

    assert_eq!(statistics.years.len(), 1);
    assert_eq!(statistics.latest().map(|year| year.year), Some(3));
    assert_eq!(statistics.total_years(), 3);
    assert_eq!(statistics.cumulative().births, 6);
}

#[test]
fn switching_to_continuous_mode_keeps_the_summary() {
    let mut kept = Statistics::new(50);
    let mut dropped = Statistics::new(50);
    for year_number in 1..=4u64 {
        let mut year = YearStatistics::new(year_number, 50, vec![50]);
        year.deaths = 2;
        year.partnerships = 1;
        kept.push(year.clone());
        dropped.push(year);
    }
    dropped.retain_only_latest_year();
    assert_eq!(dropped.years.len(), 1);
    assert_eq!(dropped.total_years(), kept.total_years());
    assert_eq!(dropped.cumulative(), kept.cumulative());
}

#[test]
fn constructor_clamps_town_values() {
    let town = Town::new(TownId(0), "A".to_string(), 0, 99, 99, 99, 99, 99);
    assert_eq!(town.population_capacity, 1);
    assert_eq!(town.jobs, 10);
    assert_eq!(town.wealth, 10);
}

#[test]
fn damage_is_temporary_and_recovers() {
    let mut town = town(0);
    town.apply_damage(TownDamage::new(4, 3, 40, 4));
    assert_eq!(town.effective_jobs(), 4);
    assert_eq!(town.effective_safety(), 5);
    assert_eq!(town.effective_capacity(), 60);

    for _ in 0..4 {
        town.recover();
    }
    assert_eq!(town.effective_jobs(), 8);
    assert_eq!(town.effective_safety(), 8);
    assert_eq!(town.effective_capacity(), 100);
}

#[test]
fn graph_candidates_are_limited_to_two_hops() {
    let mut a = town(0);
    let mut b = town(1);
    let mut c = town(2);
    let d = town(3);
    a.add_neighbor(TownConnection::new(TownId(1), 3));
    b.add_neighbor(TownConnection::new(TownId(2), 3));
    c.add_neighbor(TownConnection::new(TownId(3), 3));

    let candidates = a.reachable_within_two_hops(&[a.clone(), b, c, d]);
    assert_eq!(candidates, vec![TownId(1), TownId(2)]);
}

#[test]
fn duplicate_connection_keeps_shorter_distance() {
    let mut town = town(0);
    town.add_neighbor(TownConnection::new(TownId(1), 8));
    town.add_neighbor(TownConnection::new(TownId(1), 2));
    assert_eq!(town.neighbors.len(), 1);
    assert_eq!(town.neighbors[0].distance, 2);
}

#[test]
fn towns_are_canonical_and_searchable() {
    let war = WarEvent::new(vec![TownId(3), TownId(1), TownId(3)], 5, 2);
    assert_eq!(war.towns, vec![TownId(1), TownId(3)]);
    assert!(war.includes(TownId(3)));
    assert!(!war.includes(TownId(2)));
}

#[test]
fn war_duration_does_not_underflow() {
    let mut war = WarEvent::new(vec![TownId(0)], 5, 1);
    assert!(!war.progress_year());
    assert!(!war.progress_year());
}

#[test]
fn severe_war_damages_its_towns_more() {
    let mild = WarEvent::new(vec![TownId(0), TownId(1)], 1, 1);
    let severe = WarEvent::new(vec![TownId(0), TownId(1)], 10, 1);
    assert!(severe.town_damage().safety_loss > mild.town_damage().safety_loss);
}

#[test]
fn pushed_events_keep_the_current_year_and_month() {
    let mut world = World::empty(1);
    world.capture_year_events = true;
    world.year = 12;
    world.month = 7;
    world.push_event(WorldEvent::DiseaseOutbreak);

    assert_eq!(world.important_events, vec![WorldEvent::DiseaseOutbreak]);
    assert_eq!(world.year_events.len(), 1);
    assert_eq!(world.year_events[0].year, 12);
    assert_eq!(world.year_events[0].month, 7);
    assert_eq!(world.year_events[0].event, WorldEvent::DiseaseOutbreak);
}

#[test]
fn full_event_log_drops_its_oldest_quarter() {
    let mut world = World::empty(1);
    for _ in 0..World::MAX_RETAINED_EVENTS {
        world.push_event(WorldEvent::WarStarted);
    }
    world.push_event(WorldEvent::WarEnded);
    assert_eq!(world.important_events.len(), World::MAX_RETAINED_EVENTS - 1024 + 1);
    assert_eq!(world.important_events.last(), Some(&WorldEvent::WarEnded));
}

#[test]
fn extension_registry_matches_the_compiled_features() {
    assert_eq!(enabled_extension_ids(), vec!["economy"]);
    assert_eq!(EconomyExtension::ID, "economy");
}

#[test]
fn supply_shocks_stay_within_each_goods_amplitude() {
    for year in 0..50u64 {
        for good in [Good::Food, Good::Clothing, Good::Medicine, Good::Tools, Good::Luxury] {
            let shock = annual_supply_shock_basis_points(year, 3, good, 0xDEAD_BEEF);
            let amplitude = match good {
                Good::Food => 2_000,
                Good::Clothing => 1_200,
                Good::Medicine => 1_600,
                Good::Tools => 1_400,
                Good::Luxury => 2_200,
            };
            assert!((-amplitude..=amplitude).contains(&shock));
        }
    }
}

#[test]
fn mixing_is_the_splitmix_finaliser() {
    assert_eq!(mix_u64(0), 0);
    assert_eq!(mix_u64(1), 0x5692_161D_100B_05E5);
}

#[test]
fn beginning_a_year_resets_flows_and_sets_shocks() {
    let mut world = World::empty(3);
    let mut first = town(0);
    first.economy.annual_transactions = 9;
    world.towns.push(first);
    world.year = 7;
    EconomyExtension::begin_year(&mut world);
    let economy = &world.towns[0].economy;
    assert_eq!(economy.annual_transactions, 0);
    let food = economy.markets.get(Good::Food);
    let signature = 100u64 ^ (8u64 << 32) ^ (8u64 << 40) ^ (6u64 << 48) ^ (7u64 << 56);
    assert_eq!(
        food.annual_supply_shock_basis_points,
        annual_supply_shock_basis_points(7, 0, Good::Food, signature)
    );
}
