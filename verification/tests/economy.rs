use npc_system::economy::{EconomyError, Good, Money, MAX_PRICE_INDEX, PRICE_INDEX_BASE};
use npc_system::extensions::EconomyExtension;
use npc_system::id::{NpcId, TownId};
use npc_system::population::generate_initial_world;
use npc_system::town::Town;
use npc_system::utility::Action;
use npc_system::world::World;

const MAX_BELIEFS: usize = 3;
const MAX_RELATIONSHIPS: usize = 30;
const WAGE: Money = 180_000;
const LIVING_COST: Money = 90_000;
const TAX_BPS: u32 = 1_500;
const PRICE_ADJUSTMENT_BPS: u32 = 500;

fn total_money(world: &World) -> u128 {
    let cash: u128 = world.npcs.iter().map(|npc| u128::from(npc.money_cents)).sum();
    let treasuries: u128 = world.towns.iter().map(|town| u128::from(town.economy.treasury_cents)).sum();
    cash + treasuries
}

#[test]
fn purchase_and_transfer_are_atomic_and_move_real_assets() {
    let mut world = generate_initial_world(1, 2, 7, MAX_BELIEFS, MAX_RELATIONSHIPS).unwrap();
    let buyer = NpcId(0);
    let seller = NpcId(1);
    world.npc_mut(buyer).unwrap().money_cents = 10_000;
    world.npc_mut(seller).unwrap().money_cents = 1_000;
    world.npc_mut(seller).unwrap().inventory.add(Good::Food, 5);

    let receipt = world.purchase(buyer, seller, Good::Food, 3, 2_000).unwrap();
    assert_eq!(receipt.total_cents, 6_000);
    assert_eq!(world.npc(buyer).unwrap().money_cents, 4_000);
    assert_eq!(world.npc(seller).unwrap().money_cents, 7_000);
    assert_eq!(world.npc(buyer).unwrap().inventory.quantity(Good::Food), 3);

    let before = world.npcs.clone();
    assert!(matches!(
        world.purchase(buyer, seller, Good::Food, 3, 2_000),
        Err(EconomyError::InsufficientFunds { .. })
    ));
    assert_eq!(world.npcs, before, "a refused purchase changes nothing");

    world.transfer_money(seller, buyer, 1_500).unwrap();
    assert_eq!(world.npc(buyer).unwrap().money_cents, 5_500);
    assert_eq!(world.npc(seller).unwrap().money_cents, 5_500);

    let market_receipt = world.purchase_at_market_price(buyer, seller, Good::Food, 1).unwrap();
    assert_eq!(market_receipt.total_cents, Good::Food.base_price_cents());
}

#[test]
fn abandoned_market_returns_from_a_crisis_price() {
    let mut world = World::empty(1);
    world.towns.push(Town::new(TownId(0), "Empty".to_string(), 100, 5, 5, 5, 5, 5));
    for good in [Good::Food, Good::Clothing, Good::Medicine, Good::Tools, Good::Luxury] {
        let mut market = world.towns[0].economy.markets.get(good);
        market.price_index = MAX_PRICE_INDEX;
        world.towns[0].economy.markets.set(good, market);
    }
    world.towns[0].economy.update_consumer_price_index();

    for month in 1..=12 {
        world.month = month;
        EconomyExtension::run_month(&mut world, WAGE, LIVING_COST, TAX_BPS, PRICE_ADJUSTMENT_BPS, &Vec::new());
    }

    assert!(world.towns[0].economy.price_index < MAX_PRICE_INDEX);
    for good in [Good::Food, Good::Clothing, Good::Medicine, Good::Tools, Good::Luxury] {
        assert!(world.towns[0].economy.markets.get(good).price_index < MAX_PRICE_INDEX);
    }
}

#[test]
fn a_month_of_economy_moves_money_without_making_or_losing_any() {
    let mut world = generate_initial_world(3, 300, 21, MAX_BELIEFS, MAX_RELATIONSHIPS).unwrap();
    let before = total_money(&world);
    let actions: Vec<Option<Action>> = world.npcs.iter().map(|npc| if npc.id.0 % 2 == 0 { Some(Action::Work) } else { None }).collect();
    for month in 1..=12 {
        world.month = month;
        EconomyExtension::run_month(&mut world, WAGE, LIVING_COST, TAX_BPS, PRICE_ADJUSTMENT_BPS, &actions);
    }
    assert_eq!(total_money(&world), before);
    assert!(world.npcs.iter().any(|npc| npc.money_cents > 0));
    for town in &world.towns {
        let labor = world
            .active_npcs
            .iter()
            .filter_map(|id| world.npc(*id))
            .filter(|npc| npc.town == town.id && (18..=69).contains(&npc.age))
            .count();
        assert_eq!(town.economy.labor_force, labor);
        let jobs = u64::from(town.effective_jobs());
        let rate = (3_500 + jobs * 700).min(9_800);
        let expected = if labor == 0 {
            0
        } else {
            ((labor as u64 * rate / 10_000) as usize).max(usize::from(jobs > 0)).min(labor)
        };
        assert_eq!(town.economy.employed, expected);
    }
}

#[test]
fn an_empty_town_drifts_one_percent_toward_the_base_price() {
    let mut world = World::empty(3);
    world.towns.push(Town::new(TownId(0), "Quiet".to_string(), 50, 5, 5, 5, 5, 5));
    let mut market = world.towns[0].economy.markets.get(Good::Tools);
    market.price_index = 20_000;
    world.towns[0].economy.markets.set(Good::Tools, market);
    EconomyExtension::run_month(&mut world, WAGE, LIVING_COST, TAX_BPS, PRICE_ADJUSTMENT_BPS, &Vec::new());
    assert_eq!(world.towns[0].economy.markets.get(Good::Tools).price_index, 19_800);
    assert_eq!(world.towns[0].economy.markets.get(Good::Food).price_index, PRICE_INDEX_BASE);
}

#[test]
fn estates_go_to_active_heirs_or_the_town_treasury() {
    let mut world = generate_initial_world(1, 3, 5, MAX_BELIEFS, MAX_RELATIONSHIPS).unwrap();
    let deceased = NpcId(0);
    world.npc_mut(deceased).unwrap().money_cents = 1_001;
    world.npc_mut(deceased).unwrap().inventory.add(Good::Tools, 2);
    world.npc_mut(NpcId(1)).unwrap().money_cents = 0;
    world.npc_mut(NpcId(2)).unwrap().money_cents = 0;
    let before = total_money(&world);
    EconomyExtension::before_npc_death(&mut world, deceased, &vec![NpcId(1), NpcId(2)]);
    assert_eq!(world.npc(deceased).unwrap().money_cents, 0);
    assert_eq!(world.npc(NpcId(1)).unwrap().money_cents, 501);
    assert_eq!(world.npc(NpcId(2)).unwrap().money_cents, 500);
    assert_eq!(world.npc(NpcId(1)).unwrap().inventory.quantity(Good::Tools), 2);
    assert_eq!(world.npc(deceased).unwrap().inventory.quantity(Good::Tools), 0);
    assert_eq!(total_money(&world), before);

    let treasury = world.towns[0].economy.treasury_cents;
    world.npc_mut(NpcId(1)).unwrap().money_cents = 700;
    EconomyExtension::before_npc_death(&mut world, NpcId(1), &Vec::new());
    assert_eq!(world.npc(NpcId(1)).unwrap().money_cents, 0);
    assert_eq!(world.towns[0].economy.treasury_cents, treasury + 700);
}

#[test]
fn empty_town_does_not_report_phantom_inflation() {
    let mut world = generate_initial_world(2, 1, 19, MAX_BELIEFS, MAX_RELATIONSHIPS).unwrap();
    let empty_town = world
        .towns
        .iter()
        .find(|town| world.residents_by_town()[town.id.0 as usize].is_empty())
        .unwrap()
        .id;
    world.year = 1;
    EconomyExtension::begin_year(&mut world);
    for month in 1..=12 {
        world.month = month;
        EconomyExtension::run_month(&mut world, WAGE, LIVING_COST, TAX_BPS, PRICE_ADJUSTMENT_BPS, &Vec::new());
    }
    let economy = world
        .town_economic_statistics()
        .into_iter()
        .find(|economy| economy.town == empty_town)
        .unwrap();
    assert_eq!(economy.inflation_basis_points, 0);
}

#[test]
fn a_year_closes_with_each_towns_economy_and_their_totals() {
    let mut world = generate_initial_world(3, 200, 4, MAX_BELIEFS, MAX_RELATIONSHIPS).unwrap();
    world.year = 1;
    EconomyExtension::begin_year(&mut world);
    let actions: Vec<Option<Action>> = world.npcs.iter().map(|_| Some(Action::Work)).collect();
    for month in 1..=12 {
        world.month = month;
        EconomyExtension::run_month(&mut world, WAGE, LIVING_COST, TAX_BPS, PRICE_ADJUSTMENT_BPS, &actions);
    }
    let mut year = npc_system::statistics::YearStatistics::new(1, 0, Vec::new());
    EconomyExtension::finish_year(&world, &mut year);
    assert_eq!(year.town_economies.len(), 3);
    assert!(year.gross_product_cents > 0);
    assert!(year.economic_transactions > 0);
    assert_eq!(
        year.gross_product_cents,
        year.town_economies.iter().map(|economy| economy.gross_product_cents).sum::<u64>()
    );
    for economy in &year.town_economies {
        assert_eq!(economy.goods.len(), 5);
        assert!(economy.gini_basis_points <= 10_000);
        let wealth: u64 = world
            .active_npcs
            .iter()
            .filter_map(|id| world.npc(*id))
            .filter(|npc| npc.town == economy.town)
            .map(|npc| npc.money_cents)
            .sum();
        assert_eq!(economy.resident_wealth_cents, wealth);
    }
}

fn economy_year(world: &mut World, actions: &Vec<Option<Action>>) -> npc_system::statistics::YearStatistics {
    world.year += 1;
    EconomyExtension::begin_year(world);
    for month in 1..=12 {
        world.month = month;
        EconomyExtension::run_month(world, WAGE, LIVING_COST, TAX_BPS, PRICE_ADJUSTMENT_BPS, actions);
    }
    let mut year = npc_system::statistics::YearStatistics::new(world.year, 0, Vec::new());
    EconomyExtension::finish_year(world, &mut year);
    year
}

#[test]
fn economy_tick_only_runs_when_the_extension_is_enabled() {
    let mut world = generate_initial_world(2, 100, 123, MAX_BELIEFS, MAX_RELATIONSHIPS).unwrap();
    let year = economy_year(&mut world, &Vec::new());
    assert!(year.gross_product_cents > 0);
    assert!(year.economic_transactions > 0);
    assert_eq!(year.town_economies.len(), 2);
}

#[test]
fn monthly_economy_can_create_inflation_and_deflation_without_creating_money() {
    let mut world = generate_initial_world(2, 100, 11, MAX_BELIEFS, MAX_RELATIONSHIPS).unwrap();
    for npc in &mut world.npcs {
        npc.age = 30;
    }
    world.towns[0].jobs = 1;
    world.towns[0].economy.productivity_index = PRICE_INDEX_BASE;
    world.towns[1].jobs = 10;
    world.towns[1].economy.productivity_index = PRICE_INDEX_BASE;
    let money_before = total_money(&world);
    let year = economy_year(&mut world, &Vec::new());
    let low_employment = &year.town_economies[0];
    let high_employment = &year.town_economies[1];
    assert!(low_employment.inflation_basis_points > 0);
    assert!(high_employment.inflation_basis_points < 0);
    assert!(low_employment.unemployment_basis_points > high_employment.unemployment_basis_points);
    assert!(year.gross_product_cents > 0);
    assert!(year.trade_volume_cents > 0);
    assert!(year.economic_transactions > 0);
    assert_eq!(low_employment.goods.len(), 5);
    let indices: std::collections::BTreeSet<u32> = low_employment.goods.iter().map(|good| good.price_index).collect();
    assert!(indices.len() > 1, "each good's index follows its own demand and supply");
    assert!(low_employment.goods.iter().all(|good| good.annual_quantity > 0));
    assert_eq!(total_money(&world), money_before);
}

#[test]
fn a_worker_is_paid_its_wage_net_of_tax_and_the_gross_counts_as_output() {
    let mut world = generate_initial_world(1, 1, 5, MAX_BELIEFS, MAX_RELATIONSHIPS).unwrap();
    world.npcs[0].age = 30;
    world.npcs[0].money_cents = 0;
    world.towns[0].jobs = 5;
    world.towns[0].temporary_damage.jobs_loss = 0;
    world.towns[0].economy.treasury_cents = 100_000_000;
    world.towns[0].economy.annual_output_cents = 0;
    world.towns[0].economy.annual_trade_volume_cents = 0;
    let price_index = u64::from(world.towns[0].economy.price_index);
    let attributes = &world.npcs[0].attributes;
    let skill =
        (u64::from(attributes.intelligence) + u64::from(attributes.dexterity) + u64::from(attributes.charisma)) * 100;
    let gross = WAGE * (8_500 + skill) / 10_000 * price_index / 10_000;
    let net = gross * (10_000 - u64::from(TAX_BPS)) / 10_000;
    let before = total_money(&world);
    world.month = 1;
    EconomyExtension::run_month(&mut world, WAGE, LIVING_COST, TAX_BPS, PRICE_ADJUSTMENT_BPS, &vec![Some(Action::Work)]);
    assert_eq!(world.towns[0].economy.employed, 1);
    assert_eq!(world.towns[0].economy.annual_output_cents, gross);
    let spent = world.towns[0].economy.annual_trade_volume_cents;
    assert!(spent > 0);
    assert_eq!(world.npcs[0].money_cents, net - spent);
    assert_eq!(world.towns[0].economy.treasury_cents, 100_000_000 - net + spent);
    assert_eq!(total_money(&world), before);
}
