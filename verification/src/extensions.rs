use vstd::prelude::*;

use crate::economy::{good_ordinal_spec, CommodityMarket, Good, Markets, TownEconomy};
use crate::town::Town;
use crate::world::World;

verus! {

/// The ids of the extensions built into the simulation: the economy extension, which the
/// standard build includes.
pub fn enabled_extension_ids() -> (ids: Vec<&'static str>)
    ensures
        ids@ == seq![EconomyExtension::ID],
{
    let mut ids: Vec<&'static str> = Vec::new();
    ids.push(EconomyExtension::ID);
    ids
}

/// `a * b` modulo 2^64.
pub open spec fn wrapping_mul_spec(a: u64, b: u64) -> u64 {
    ((a as int * b as int) % 0x1_0000_0000_0000_0000int) as u64
}

fn wrapping_mul(a: u64, b: u64) -> (product: u64)
    ensures
        product == wrapping_mul_spec(a, b),
{
    a.wrapping_mul(b)
}

/// The finishing mix of SplitMix64: two xor-shift-multiply rounds and a last xor-shift.
pub open spec fn mix_spec(value: u64) -> u64 {
    let first = wrapping_mul_spec(value ^ (value >> 30u64), 0xBF58_476D_1CE4_E5B9);
    let second = wrapping_mul_spec(first ^ (first >> 27u64), 0x94D0_49BB_1331_11EB);
    second ^ (second >> 31u64)
}

pub fn mix_u64(value: u64) -> (mixed: u64)
    ensures
        mixed == mix_spec(value),
{
    let first = wrapping_mul(value ^ (value >> 30u64), 0xBF58_476D_1CE4_E5B9);
    let second = wrapping_mul(first ^ (first >> 27u64), 0x94D0_49BB_1331_11EB);
    second ^ (second >> 31u64)
}

/// How far a good's supply may swing in a year, in basis points.
pub open spec fn shock_amplitude(good: Good) -> u64 {
    match good {
        Good::Food => 2_000,
        Good::Clothing => 1_200,
        Good::Medicine => 1_600,
        Good::Tools => 1_400,
        Good::Luxury => 2_200,
    }
}

/// The yearly supply shock of a good in a town, in `-amplitude..=amplitude`: a hash of the
/// year, the town, the good and the town's signature, so that it is reproducible without
/// drawing from the world's random stream.
pub open spec fn supply_shock_spec(year: u64, town: u16, good: Good, town_signature: u64) -> int {
    let amplitude = shock_amplitude(good);
    let key = town_signature ^ wrapping_mul_spec(year, 0x9E37_79B9_7F4A_7C15) ^ wrapping_mul_spec(
        town as u64,
        0xBF58_476D_1CE4_E5B9,
    ) ^ wrapping_mul_spec(good_ordinal_spec(good), 0x94D0_49BB_1331_11EB);
    (mix_spec(key) as int % (amplitude * 2 + 1)) - amplitude as int
}

pub fn annual_supply_shock_basis_points(year: u64, town: u16, good: Good, town_signature: u64) -> (shock: i32)
    ensures
        shock == supply_shock_spec(year, town, good, town_signature),
        -(shock_amplitude(good) as int) <= shock <= shock_amplitude(good),
{
    let amplitude: u64 = match good {
        Good::Food => 2_000,
        Good::Clothing => 1_200,
        Good::Medicine => 1_600,
        Good::Tools => 1_400,
        Good::Luxury => 2_200,
    };
    let key = town_signature ^ wrapping_mul(year, 0x9E37_79B9_7F4A_7C15) ^ wrapping_mul(
        town as u64,
        0xBF58_476D_1CE4_E5B9,
    ) ^ wrapping_mul(good.ordinal(), 0x94D0_49BB_1331_11EB);
    let mixed = mix_u64(key);
    let span = amplitude * 2 + 1;
    let remainder: u64 = mixed % span;
    remainder as i32 - amplitude as i32
}

/// A number summing up a town's values, for its supply shocks.
pub open spec fn town_signature(town: Town) -> u64 {
    (town.population_capacity as u64) ^ ((town.jobs as u64) << 32u64) ^ ((town.safety as u64) << 40u64) ^ ((
    town.education as u64) << 48u64) ^ ((town.wealth as u64) << 56u64)
}

fn signature_of(town: &Town) -> (signature: u64)
    ensures
        signature == town_signature(*town),
{
    (town.population_capacity as u64) ^ ((town.jobs as u64) << 32u64) ^ ((town.safety as u64) << 40u64) ^ ((
    town.education as u64) << 48u64) ^ ((town.wealth as u64) << 56u64)
}

/// A market with the supply shock of `good` for the year in the town.
pub open spec fn shocked_market(market: CommodityMarket, year: u64, town: u16, good: Good, signature: u64) -> CommodityMarket {
    CommodityMarket { annual_supply_shock_basis_points: supply_shock_spec(year, town, good, signature) as i32, ..market }
}

/// Every market with its supply shock for the year in the town.
pub open spec fn shocked_markets(markets: Markets, year: u64, town: u16, signature: u64) -> Markets {
    Markets {
        food: shocked_market(markets.food, year, town, Good::Food, signature),
        clothing: shocked_market(markets.clothing, year, town, Good::Clothing, signature),
        medicine: shocked_market(markets.medicine, year, town, Good::Medicine, signature),
        tools: shocked_market(markets.tools, year, town, Good::Tools, signature),
        luxury: shocked_market(markets.luxury, year, town, Good::Luxury, signature),
    }
}

/// A town at the start of `year`: its economy's year is reset and every good gets its
/// supply shock; nothing else changes.
pub open spec fn town_year_begun(town: Town, year: u64) -> Town {
    let reset = town.economy.year_reset();
    Town {
        economy: TownEconomy {
            markets: shocked_markets(reset.markets, year, town.id.0, town_signature(town)),
            ..reset
        },
        ..town
    }
}

fn shock_market(market: &mut CommodityMarket, year: u64, town: u16, good: Good, signature: u64)
    ensures
        *final(market) == shocked_market(*old(market), year, town, good, signature),
{
    market.annual_supply_shock_basis_points = annual_supply_shock_basis_points(year, town, good, signature);
}

/// The economy extension, hooked into the simulation's year.
pub struct EconomyExtension;

impl EconomyExtension {
    pub const ID: &'static str = "economy";

    /// Starts a year in every town: the yearly flows are reset and each good gets its
    /// supply shock for the year. Nothing else in the world changes.
    pub fn begin_year(world: &mut World)
        ensures
            final(world).towns@.len() == old(world).towns@.len(),
            forall|t: int|
                0 <= t < final(world).towns@.len() ==> #[trigger] final(world).towns@[t] == town_year_begun(
                    old(world).towns@[t],
                    old(world).year,
                ),
            *final(world) == (World { towns: final(world).towns, ..*old(world) }),
    {
        let year = world.year;
        let ghost start = *world;
        let mut t: usize = 0;
        while t < world.towns.len()
            invariant
                t <= world.towns@.len(),
                world.towns@.len() == start.towns@.len(),
                year == start.year,
                *world == (World { towns: world.towns, ..start }),
                forall|u: int| t <= u < world.towns@.len() ==> #[trigger] world.towns@[u] == start.towns@[u],
                forall|u: int|
                    0 <= u < t ==> #[trigger] world.towns@[u] == town_year_begun(start.towns@[u], year),
            decreases world.towns.len() - t,
        {
            let town = &mut world.towns[t];
            let ghost before = *town;
            let signature = signature_of(town);
            let id = town.id.0;
            town.economy.begin_year();
            shock_market(&mut town.economy.markets.food, year, id, Good::Food, signature);
            shock_market(&mut town.economy.markets.clothing, year, id, Good::Clothing, signature);
            shock_market(&mut town.economy.markets.medicine, year, id, Good::Medicine, signature);
            shock_market(&mut town.economy.markets.tools, year, id, Good::Tools, signature);
            shock_market(&mut town.economy.markets.luxury, year, id, Good::Luxury, signature);
            assert(*town == town_year_begun(before, year));
            t = t + 1;
        }
    }
}

} // verus!
